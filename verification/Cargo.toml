[package]
name = "powderkeg"
version = "0.1.0"
edition = "2021"
publish = false

[dependencies]
rand = "0.8"
parking_lot = "0.12"
lock_api = "0.4"
crossbeam-channel = "0.5"
