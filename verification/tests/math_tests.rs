use powderkeg::math::{sat_add, Point, Rect};

fn p(x: i32, y: i32) -> Point {
    Point { x, y }
}

#[test]
fn saturating_addition_clamps_at_the_edges() {
    assert_eq!(sat_add(1, 2), 3);
    assert_eq!(sat_add(-5, 2), -3);
    assert_eq!(sat_add(i32::MAX, 1), i32::MAX);
    assert_eq!(sat_add(i32::MIN, -1), i32::MIN);
    assert_eq!(sat_add(i32::MAX, -1), i32::MAX - 1);
    assert_eq!(p(3, 4).sat_offset(p(-1, 2)), p(2, 6));
}

#[test]
fn corners_normalize_whichever_way_round() {
    let r = Rect::from_corners(p(5, 1), p(2, 3));
    assert_eq!(r.min, p(2, 1));
    assert_eq!(r.max, p(5, 3));
    assert!(r.contains(p(3, 2)));
    assert!(!r.contains(p(1, 2)));
    assert_eq!(Rect::from_point(p(7, 7)), Rect { min: p(7, 7), max: p(7, 7) });
}

#[test]
fn union_grows_to_the_bounding_box() {
    let a = Rect { min: p(0, 0), max: p(1, 1) };
    let b = Rect { min: p(4, 4), max: p(5, 5) };
    let u = a.union(b);
    assert_eq!(u, Rect { min: p(0, 0), max: p(5, 5) });
    // the bounding box holds points neither input held
    assert!(u.contains(p(3, 3)));
    let up = a.union_point(p(-2, 0));
    assert_eq!(up, Rect { min: p(-2, 0), max: p(1, 1) });
}

#[test]
fn intersection_keeps_only_shared_points() {
    let a = Rect { min: p(0, 0), max: p(4, 4) };
    let b = Rect { min: p(2, 3), max: p(9, 9) };
    let i = a.intersect(b);
    assert_eq!(i, Rect { min: p(2, 3), max: p(4, 4) });
    let disjoint = a.intersect(Rect { min: p(10, 10), max: p(12, 12) });
    assert!(disjoint.is_empty());
}

#[test]
fn translation_saturates_instead_of_overflowing() {
    let r = Rect { min: p(0, 0), max: p(2, 2) };
    assert_eq!(r.translate(p(10, -5)), Rect { min: p(10, -5), max: p(12, -3) });
    let far = Rect { min: p(i32::MAX - 1, 0), max: p(i32::MAX, 0) };
    let t = far.translate(p(5, 0));
    assert_eq!(t.min, p(i32::MAX, 0));
    assert_eq!(t.max, p(i32::MAX, 0));
}

#[test]
fn centered_squares_reach_radius_cells_out() {
    let r = Rect::from_center_half_size(p(10, 10), 2);
    assert_eq!(r, Rect { min: p(8, 8), max: p(12, 12) });
    let single = Rect::from_center_half_size(p(-3, 7), 0);
    assert_eq!(single, Rect { min: p(-3, 7), max: p(-3, 7) });
}
