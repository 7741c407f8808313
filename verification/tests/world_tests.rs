use powderkeg::cell::{Cell, TickSuccess};
use powderkeg::chunk::Chunk;
use powderkeg::grid::{Grid, Stainable};
use powderkeg::math::{Point, Rect};
use powderkeg::simulation::WorldGrid;
use powderkeg::PowderkegError;

#[derive(Clone, Copy, PartialEq, Eq, Debug)]
enum Mark {
    Blank,
    Dot,
}

impl Cell for Mark {
    type State = ();
    type Error = ();

    fn tick<G: Stainable<Cell = Self, State = Self::State, Error = Self::Error>>(
        _origin: Point,
        _grid: &mut G,
    ) -> Result<TickSuccess, PowderkegError<Self::Error>> {
        Ok(TickSuccess::Stable)
    }

    fn range_spec(&self) -> Rect {
        Rect { min: Point { x: 0, y: 0 }, max: Point { x: 0, y: 0 } }
    }

    fn range(&self) -> Rect {
        Rect { min: Point { x: 0, y: 0 }, max: Point { x: 0, y: 0 } }
    }
}

fn p(x: i32, y: i32) -> Point {
    Point { x, y }
}

fn two_chunk_world() -> WorldGrid<Mark, 4> {
    // chunks at lattice (0,0) and (1,0): world columns 0..=3 and 4..=7
    let mut left = Chunk::<Mark, 4>::full_copied(Mark::Blank, ());
    let right = Chunk::<Mark, 4>::full_copied(Mark::Blank, ());
    left.replace(p(3, 1), Mark::Dot).unwrap();
    let mut grid = WorldGrid::new(vec![(p(0, 0), left), (p(1, 0), right)]);
    grid.clear_stain();
    grid
}

#[test]
fn world_get_translates_and_reports_missing_chunks() {
    let grid = two_chunk_world();
    assert_eq!(*grid.get(p(3, 1)).unwrap(), Mark::Dot);
    assert_eq!(*grid.get(p(4, 1)).unwrap(), Mark::Blank);
    match grid.get(p(-1, 0)) {
        Err(PowderkegError::ChunkOutOfBounds(c)) => assert_eq!(c, p(-1, 0)),
        _ => panic!("expected ChunkOutOfBounds"),
    }
    match grid.get(p(8, 0)) {
        Err(PowderkegError::ChunkOutOfBounds(c)) => assert_eq!(c, p(2, 0)),
        _ => panic!("expected ChunkOutOfBounds"),
    }
}

#[test]
fn cross_chunk_swap_exchanges_and_stains_both_chunks() {
    let mut grid = two_chunk_world();
    grid.swap(p(3, 1), p(4, 1)).unwrap();
    assert_eq!(*grid.get(p(3, 1)).unwrap(), Mark::Blank);
    assert_eq!(*grid.get(p(4, 1)).unwrap(), Mark::Dot);
    assert!(grid.is_stained(p(3, 1)));
    assert!(grid.is_stained(p(4, 1)));

    let chunks = grid.into_chunks();
    for (coords, chunk) in chunks {
        if coords == p(0, 0) {
            assert!(chunk.is_stained(p(3, 1)));
            assert_eq!(*chunk.get(p(3, 1)).unwrap(), Mark::Blank);
        } else {
            assert!(chunk.is_stained(p(0, 1)));
            assert_eq!(*chunk.get(p(0, 1)).unwrap(), Mark::Dot);
        }
    }
}

#[test]
fn same_chunk_swap_through_the_world_view() {
    let mut grid = two_chunk_world();
    grid.swap(p(3, 1), p(0, 0)).unwrap();
    assert_eq!(*grid.get(p(0, 0)).unwrap(), Mark::Dot);
    assert_eq!(*grid.get(p(3, 1)).unwrap(), Mark::Blank);
    assert!(grid.is_stained(p(0, 0)));
    assert!(grid.is_stained(p(3, 1)));
}

#[test]
fn swap_with_missing_chunk_fails() {
    let mut grid = two_chunk_world();
    match grid.swap(p(3, 1), p(-1, 1)) {
        Err(PowderkegError::SwapOutOfBounds { first, second }) => {
            assert_eq!(first, p(0, 0));
            assert_eq!(second, p(-1, 0));
        },
        _ => panic!("expected SwapOutOfBounds"),
    }
    // the failed swap must not have moved anything
    assert_eq!(*grid.get(p(3, 1)).unwrap(), Mark::Dot);

    match grid.swap(p(8, 0), p(9, 0)) {
        Err(PowderkegError::ChunkOutOfBounds(c)) => assert_eq!(c, p(2, 0)),
        _ => panic!("expected ChunkOutOfBounds"),
    }
}

#[test]
fn covers_is_the_union_of_chunk_footprints() {
    let grid = two_chunk_world();
    let covers = grid.covers();
    assert!(covers.contains(p(0, 0)));
    assert!(covers.contains(p(7, 3)));
    assert!(!covers.contains(p(8, 0)));
    assert!(!covers.contains(p(0, 4)));
    assert!(!covers.contains(p(-1, 0)));
}

#[test]
fn world_stain_splits_across_chunks() {
    let mut grid = two_chunk_world();
    grid.stain(Rect { min: p(2, 1), max: p(5, 2) });
    for x in 2..=5 {
        for y in 1..=2 {
            assert!(grid.is_stained(p(x, y)), "({}, {}) should be stained", x, y);
        }
    }
    assert!(!grid.is_stained(p(0, 0)));
    let stained = grid.stained();
    assert!(stained.contains(p(2, 1)) && stained.contains(p(5, 2)));
    assert!(!stained.contains(p(6, 1)));
}

#[test]
fn world_stain_point_lands_in_one_chunk() {
    let mut grid = two_chunk_world();
    grid.stain_point(p(5, 3));
    assert!(grid.is_stained(p(5, 3)));
    assert!(!grid.is_stained(p(3, 3)));
    // a stain aimed at an unloaded chunk is dropped
    grid.stain_point(p(-1, 0));
    assert!(!grid.is_stained(p(-1, 0)));
}

#[test]
fn map_reads_through_the_world_view() {
    let grid = two_chunk_world();
    let seen = grid.map(p(3, 1), |cell| *cell == Mark::Dot).unwrap();
    assert!(seen);
    assert!(grid.map(p(9, 9), |cell| *cell).is_err());
}

#[test]
fn world_state_handles_share_one_lock_per_chunk() {
    let left = Chunk::<Mark, 4>::full_copied(Mark::Blank, ());
    let right = Chunk::<Mark, 4>::full_copied(Mark::Blank, ());
    let grid = WorldGrid::new(vec![(p(0, 0), left), (p(1, 0), right)]);
    let a = grid.get_state(p(0, 0)).unwrap();
    let b = grid.get_state(p(3, 3)).unwrap();
    // two points of one chunk share the lock; a point of the other does not
    assert!(std::sync::Arc::ptr_eq(&a, &b));
    let c = grid.get_state(p(4, 0)).unwrap();
    assert!(!std::sync::Arc::ptr_eq(&a, &c));
}
