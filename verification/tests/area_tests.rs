use powderkeg::area::Area;
use powderkeg::math::{Point, Rect};

fn rect(min_x: i32, min_y: i32, max_x: i32, max_y: i32) -> Rect {
    Rect { min: Point { x: min_x, y: min_y }, max: Point { x: max_x, y: max_y } }
}

#[test]
fn combined_area_contains_either() {
    let r1 = rect(0, 0, 2, 2);
    let r2 = rect(5, 5, 6, 7);
    let combined = Area::from_areas(vec![Area::Area(r1), Area::Area(r2)]);

    for x in -2..10 {
        for y in -2..10 {
            let p = Point { x, y };
            let expect = r1.contains(p) || r2.contains(p);
            assert_eq!(combined.contains(p), expect);
        }
    }
}

#[test]
fn apply_is_deterministic_and_row_major() {
    let area = Area::Area(rect(0, 0, 1, 1));
    let first = area.apply();
    let second = area.apply();
    assert_eq!(first, second);
    assert_eq!(
        first,
        vec![
            Point { x: 0, y: 0 },
            Point { x: 1, y: 0 },
            Point { x: 0, y: 1 },
            Point { x: 1, y: 1 },
        ]
    );
}

#[test]
fn apply_visits_each_rect_point_once_per_rect() {
    // overlapping rectangles: the shared point appears once for each
    let r1 = rect(0, 0, 1, 0);
    let r2 = rect(1, 0, 2, 0);
    let area = Area::Many(vec![r1, r2]);
    let points = area.apply();
    assert_eq!(
        points,
        vec![
            Point { x: 0, y: 0 },
            Point { x: 1, y: 0 },
            Point { x: 1, y: 0 },
            Point { x: 2, y: 0 },
        ]
    );
    let single = Area::Area(rect(3, 3, 5, 4));
    let pts = single.apply();
    assert_eq!(pts.len(), 6);
    for i in 0..pts.len() {
        for j in 0..pts.len() {
            if i != j {
                assert_ne!(pts[i], pts[j]);
            }
        }
    }
}

#[test]
fn apply_randomly_visits_same_points() {
    let area = Area::Many(vec![rect(0, 0, 3, 3), rect(2, 2, 4, 4)]);
    let mut rng = rand::thread_rng();
    let mut ordered = area.apply();
    let mut shuffled = area.apply_randomly(&mut rng);
    ordered.sort_by(|a, b| (a.y, a.x).cmp(&(b.y, b.x)));
    shuffled.sort_by(|a, b| (a.y, a.x).cmp(&(b.y, b.x)));
    assert_eq!(ordered, shuffled);
}

#[test]
fn inverted_rectangles_hold_nothing() {
    let inverted = rect(5, 5, 2, 2);
    assert!(inverted.is_empty());
    assert!(!inverted.contains(Point { x: 3, y: 3 }));
    let area = Area::Area(inverted);
    assert!(area.is_empty());
    assert!(area.apply().is_empty());
    assert!(Area::Empty.is_empty());
    assert!(!Area::Area(rect(1, 1, 1, 1)).is_empty());
}

#[test]
fn translate_moves_every_rectangle() {
    let mut area = Area::Many(vec![rect(0, 0, 1, 1), rect(10, 10, 11, 12)]);
    area.translate(Point { x: 3, y: -2 });
    assert!(area.contains(Point { x: 3, y: -2 }));
    assert!(area.contains(Point { x: 4, y: -1 }));
    assert!(area.contains(Point { x: 13, y: 8 }));
    assert!(area.contains(Point { x: 14, y: 10 }));
    assert!(!area.contains(Point { x: 0, y: 0 }));
}

#[test]
fn from_areas_drops_empty_inputs() {
    let combined = Area::from_areas(vec![Area::Empty, Area::Empty]);
    assert!(matches!(combined, Area::Empty));
    let combined = Area::from_areas(vec![Area::Empty, Area::Area(rect(0, 0, 0, 0))]);
    assert!(combined.contains(Point { x: 0, y: 0 }));
    assert!(!combined.contains(Point { x: 1, y: 0 }));
}
