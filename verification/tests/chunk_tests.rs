use powderkeg::cell::{Cell, TickSuccess};
use powderkeg::chunk::{Chunk, ChunkCoords};
use powderkeg::grid::{Grid, Stainable};
use powderkeg::math::{Point, Rect};
use powderkeg::PowderkegError;
use rand::distributions::Distribution;
use rand::Rng;

#[derive(Clone, Copy, PartialEq, Eq, Debug)]
enum Coin {
    Heads,
    Tails,
}

impl Cell for Coin {
    type State = ();
    type Error = ();

    fn tick<G: Stainable<Cell = Self, State = Self::State, Error = Self::Error>>(
        _origin: Point,
        _grid: &mut G,
    ) -> Result<TickSuccess, PowderkegError<Self::Error>> {
        Ok(TickSuccess::Stable)
    }

    fn range_spec(&self) -> Rect {
        Rect { min: Point { x: 0, y: 0 }, max: Point { x: 0, y: 0 } }
    }

    fn range(&self) -> Rect {
        Rect { min: Point { x: 0, y: 0 }, max: Point { x: 0, y: 0 } }
    }
}

struct CoinFlip;

impl Distribution<Coin> for CoinFlip {
    fn sample<R: Rng + ?Sized>(&self, rng: &mut R) -> Coin {
        if rng.gen::<bool>() {
            Coin::Heads
        } else {
            Coin::Tails
        }
    }
}

fn p(x: i32, y: i32) -> Point {
    Point { x, y }
}

#[test]
fn fresh_chunk_reads_default_inside_and_fails_outside() {
    let chunk = Chunk::<Coin, 4>::full_copied(Coin::Heads, ());
    for x in 0..4 {
        for y in 0..4 {
            assert_eq!(*chunk.get(p(x, y)).unwrap(), Coin::Heads);
        }
    }
    for q in [p(-1, 0), p(4, 0), p(0, 4), p(2, -1), p(100, 100)] {
        match chunk.get(q) {
            Err(PowderkegError::LocalOutOfBounds(bad)) => assert_eq!(bad, q),
            _ => panic!("expected LocalOutOfBounds at {:?}", q),
        }
    }
}

#[test]
fn replace_updates_stains_and_clear_forgets() {
    let mut chunk = Chunk::<Coin, 4>::full_copied(Coin::Heads, ());
    chunk.clear_stain();
    assert!(!chunk.is_stained(p(1, 2)));

    let prev = chunk.replace(p(1, 2), Coin::Tails).unwrap();
    assert_eq!(prev, Coin::Heads);
    assert_eq!(*chunk.get(p(1, 2)).unwrap(), Coin::Tails);
    assert!(chunk.stained().contains(p(1, 2)));

    chunk.clear_stain();
    assert!(!chunk.stained().contains(p(1, 2)));
    assert!(chunk.stained().is_empty());
}

#[test]
fn local_swap_exchanges_and_stains_both() {
    let mut chunk = Chunk::<Coin, 4>::full_copied(Coin::Heads, ());
    chunk.replace(p(0, 0), Coin::Tails).unwrap();
    chunk.clear_stain();

    chunk.swap(p(0, 0), p(3, 3)).unwrap();
    assert_eq!(*chunk.get(p(0, 0)).unwrap(), Coin::Heads);
    assert_eq!(*chunk.get(p(3, 3)).unwrap(), Coin::Tails);
    assert!(chunk.is_stained(p(0, 0)));
    assert!(chunk.is_stained(p(3, 3)));

    match chunk.swap(p(0, 0), p(4, 0)) {
        Err(PowderkegError::LocalOutOfBounds(bad)) => assert_eq!(bad, p(4, 0)),
        _ => panic!("expected LocalOutOfBounds"),
    }
}

#[test]
fn get_mut_writes_through_and_stains() {
    let mut chunk = Chunk::<Coin, 4>::full_copied(Coin::Heads, ());
    chunk.clear_stain();
    *chunk.get_mut(p(2, 1)).unwrap() = Coin::Tails;
    assert_eq!(*chunk.get(p(2, 1)).unwrap(), Coin::Tails);
    assert!(chunk.is_stained(p(2, 1)));
    assert!(chunk.get_mut(p(0, 7)).is_err());
}

#[test]
fn geometry_helpers() {
    assert_eq!(Chunk::<Coin, 4>::volume(), 16);
    let area = Chunk::<Coin, 4>::area();
    assert_eq!(area.min, p(0, 0));
    assert_eq!(area.max, p(3, 3));
    let chunk = Chunk::<Coin, 4>::full_copied(Coin::Heads, ());
    assert_eq!(chunk.index(p(0, 0)), Some(0));
    assert_eq!(chunk.index(p(3, 0)), Some(3));
    assert_eq!(chunk.index(p(0, 1)), Some(4));
    assert_eq!(chunk.index(p(3, 3)), Some(15));
    assert_eq!(chunk.index(p(4, 0)), None);
    let covers = chunk.covers();
    assert!(covers.contains(p(0, 0)) && covers.contains(p(3, 3)));
    assert!(!covers.contains(p(4, 0)));
}

#[test]
fn world_coordinates_use_floored_division() {
    assert_eq!(
        ChunkCoords::<16>::world_to_chunk_and_local(p(-1, -1)),
        (p(-1, -1), p(15, 15))
    );
    assert_eq!(
        ChunkCoords::<16>::world_to_chunk_and_local(p(0, 17)),
        (p(0, 1), p(0, 1))
    );
    assert_eq!(
        ChunkCoords::<16>::world_to_chunk_and_local(p(-16, 31)),
        (p(-1, 1), p(0, 15))
    );
    let coords = ChunkCoords::<16>(p(-1, 2));
    assert_eq!(coords.offset(), p(-16, 32));
    assert_eq!(coords.local_to_world(p(3, 4)), p(-13, 36));
    assert_eq!(coords.world_to_local(p(-13, 36)), p(3, 4));
}

#[test]
fn fresh_chunks_start_fully_stained() {
    let chunk = Chunk::<Coin, 4>::full_copied(Coin::Tails, ());
    for x in 0..4 {
        for y in 0..4 {
            assert!(chunk.is_stained(p(x, y)));
        }
    }
}

#[test]
fn full_random_fills_every_cell() {
    let mut rng = rand::thread_rng();
    let chunk = Chunk::<Coin, 8>::full_random(&mut rng, CoinFlip, ());
    for x in 0..8 {
        for y in 0..8 {
            // every cell must be addressable, whatever was drawn
            chunk.get(p(x, y)).unwrap();
        }
    }
}

#[derive(Clone, Copy, PartialEq, Eq, Debug)]
struct Tally;

impl Cell for Tally {
    type State = u64;
    type Error = ();

    fn tick<G: Stainable<Cell = Self, State = Self::State, Error = Self::Error>>(
        _origin: Point,
        _grid: &mut G,
    ) -> Result<TickSuccess, PowderkegError<Self::Error>> {
        Ok(TickSuccess::Stable)
    }

    fn range_spec(&self) -> Rect {
        Rect { min: Point { x: 0, y: 0 }, max: Point { x: 0, y: 0 } }
    }

    fn range(&self) -> Rect {
        Rect { min: Point { x: 0, y: 0 }, max: Point { x: 0, y: 0 } }
    }
}

#[derive(Clone, Copy, PartialEq, Eq, Debug, Default)]
struct Blankish;

impl Cell for Blankish {
    type State = u8;
    type Error = ();

    fn tick<G: Stainable<Cell = Self, State = Self::State, Error = Self::Error>>(
        _origin: Point,
        _grid: &mut G,
    ) -> Result<TickSuccess, PowderkegError<Self::Error>> {
        Ok(TickSuccess::Stable)
    }

    fn range_spec(&self) -> Rect {
        Rect { min: Point { x: 0, y: 0 }, max: Point { x: 0, y: 0 } }
    }

    fn range(&self) -> Rect {
        Rect { min: Point { x: 0, y: 0 }, max: Point { x: 0, y: 0 } }
    }
}

#[test]
fn default_chunk_holds_default_cells_fully_stained() {
    let chunk = Chunk::<Blankish, 4>::default();
    for x in 0..4 {
        for y in 0..4 {
            assert_eq!(*chunk.get(p(x, y)).unwrap(), Blankish);
            assert!(chunk.is_stained(p(x, y)));
        }
    }
    assert_eq!(*chunk.state_at(p(0, 0)).read(), 0u8);
}

#[test]
fn shared_state_is_reachable_through_the_lock() {
    let chunk = Chunk::<Tally, 4>::full_copied(Tally, 41u64);
    let handle = chunk.get_state(p(1, 1)).unwrap();
    {
        let mut guard = handle.write();
        *guard += 1;
    }
    let again = chunk.state_at(p(2, 2));
    assert_eq!(*again.read(), 42);
    assert!(chunk.get_state(p(9, 0)).is_err());
}
