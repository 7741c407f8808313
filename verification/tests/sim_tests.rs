use powderkeg::cell::{Cell, TickSuccess};
use powderkeg::chunk::{Chunk, ChunkCoords};
use powderkeg::grid::{Grid, Stainable};
use powderkeg::math::{Point, Rect};
use powderkeg::simulation::{step, tick_chunk, TickAccumulator, WorldGrid};
use powderkeg::PowderkegError;

fn p(x: i32, y: i32) -> Point {
    Point { x, y }
}

/// A grain that falls one cell whenever the cell straight below is empty.
#[derive(Clone, Copy, PartialEq, Eq, Debug)]
enum Grain {
    Air,
    Sand,
}

impl Cell for Grain {
    type State = ();
    type Error = String;

    fn tick<G: Stainable<Cell = Self, State = Self::State, Error = Self::Error>>(
        origin: Point,
        grid: &mut G,
    ) -> Result<TickSuccess, PowderkegError<Self::Error>> {
        if !matches!(grid.get(origin)?, Grain::Sand) {
            return Ok(TickSuccess::Stable);
        }
        let below = Point { x: origin.x, y: origin.y + 1 };
        if matches!(grid.get(below)?, Grain::Air) {
            grid.swap(origin, below)?;
            Ok(TickSuccess::Unstable)
        } else {
            Ok(TickSuccess::Stable)
        }
    }

    fn range_spec(&self) -> Rect {
        Rect { min: Point { x: 0, y: 0 }, max: Point { x: 0, y: 1 } }
    }

    fn range(&self) -> Rect {
        Rect { min: Point { x: 0, y: 0 }, max: Point { x: 0, y: 1 } }
    }
}

/// A cell that looks one cell past its own position upwards, so a top-row
/// placement must be deferred to the cross-chunk pass.
#[derive(Clone, Copy, PartialEq, Eq, Debug)]
struct Gazer;

impl Cell for Gazer {
    type State = ();
    type Error = String;

    fn tick<G: Stainable<Cell = Self, State = Self::State, Error = Self::Error>>(
        _origin: Point,
        _grid: &mut G,
    ) -> Result<TickSuccess, PowderkegError<Self::Error>> {
        Ok(TickSuccess::Stable)
    }

    fn range_spec(&self) -> Rect {
        Rect { min: Point { x: 0, y: -1 }, max: Point { x: 0, y: 0 } }
    }

    fn range(&self) -> Rect {
        Rect { min: Point { x: 0, y: -1 }, max: Point { x: 0, y: 0 } }
    }
}

/// A cell whose evaluation always fails.
#[derive(Clone, Copy, PartialEq, Eq, Debug)]
struct Grump;

impl Cell for Grump {
    type State = ();
    type Error = String;

    fn tick<G: Stainable<Cell = Self, State = Self::State, Error = Self::Error>>(
        _origin: Point,
        _grid: &mut G,
    ) -> Result<TickSuccess, PowderkegError<Self::Error>> {
        Err(PowderkegError::Cell(String::from("grumpy")))
    }

    fn range_spec(&self) -> Rect {
        Rect { min: Point { x: 0, y: 0 }, max: Point { x: 0, y: 0 } }
    }

    fn range(&self) -> Rect {
        Rect { min: Point { x: 0, y: 0 }, max: Point { x: 0, y: 0 } }
    }
}

#[test]
fn falling_grain_moves_one_cell_per_step() {
    let mut chunk = Chunk::<Grain, 4>::full_copied(Grain::Air, ());
    chunk.replace(p(0, 0), Grain::Sand).unwrap();
    chunk.clear_stain();
    chunk.stain_point(p(0, 0));

    let mut grid = WorldGrid::new(vec![(p(0, 0), chunk)]);
    let mut rng = rand::thread_rng();
    let errors = step(&mut grid, &mut rng);
    assert!(errors.is_empty());

    assert_eq!(*grid.get(p(0, 0)).unwrap(), Grain::Air);
    assert_eq!(*grid.get(p(0, 1)).unwrap(), Grain::Sand);

    let chunks = grid.into_chunks();
    let (_, chunk) = &chunks[0];
    let stained = chunk.stained();
    assert!(stained.contains(p(0, 0)));
    assert!(stained.contains(p(0, 1)));
}

#[test]
fn grain_at_the_floor_stays_dirty_for_retry() {
    let mut chunk = Chunk::<Grain, 4>::full_copied(Grain::Air, ());
    chunk.replace(p(2, 3), Grain::Sand).unwrap();
    chunk.clear_stain();
    chunk.stain_point(p(2, 3));

    let mut grid = WorldGrid::new(vec![(p(0, 0), chunk)]);
    let mut rng = rand::thread_rng();
    // the bottom-row grain looks one past the floor, so it is deferred and
    // then skipped: nothing is loaded below, nothing errors, nothing moves,
    // and the point stays dirty so it is retried once a chunk loads below
    let errors = step(&mut grid, &mut rng);
    assert!(errors.is_empty());
    assert_eq!(*grid.get(p(2, 3)).unwrap(), Grain::Sand);
    assert!(grid.is_stained(p(2, 3)));
}

#[test]
fn top_edge_cell_is_deferred_not_evaluated() {
    let mut chunk = Chunk::<Gazer, 4>::full_copied(Gazer, ());
    chunk.clear_stain();
    chunk.stain_point(p(1, 0));

    let coords = ChunkCoords::<4>(p(0, 0));
    let mut rng = rand::thread_rng();
    let out = tick_chunk(coords, &mut chunk, &mut rng);
    assert_eq!(out.deferred, vec![p(1, 0)]);
    assert!(out.errors.is_empty());
    assert!(out.boundary.is_none());
}

#[test]
fn unresolved_deferred_point_is_skipped_silently() {
    let mut chunk = Chunk::<Gazer, 4>::full_copied(Gazer, ());
    chunk.clear_stain();
    chunk.stain_point(p(1, 0));

    // no chunk is loaded above, so the point's reach is not covered: its
    // tick never runs, nothing errors, and the point stays in the dirty
    // region for a later tick
    let mut grid = WorldGrid::new(vec![(p(0, 0), chunk)]);
    let mut rng = rand::thread_rng();
    let errors = step(&mut grid, &mut rng);
    assert!(errors.is_empty());
    assert!(grid.is_stained(p(1, 0)));
    assert!(!grid.is_stained(p(2, 0)));
}

#[test]
fn interior_cells_run_locally_once_a_neighbour_loads() {
    let mut below = Chunk::<Grain, 4>::full_copied(Grain::Air, ());
    below.clear_stain();
    let mut above = Chunk::<Grain, 4>::full_copied(Grain::Air, ());
    above.replace(p(1, 3), Grain::Sand).unwrap();
    above.clear_stain();
    above.stain_point(p(1, 3));

    // the grain sits on the seam: its reach leaves the upper chunk, so it
    // falls during the serial pass, crossing into the lower chunk
    let mut grid = WorldGrid::new(vec![(p(0, -1), above), (p(0, 0), below)]);
    let mut rng = rand::thread_rng();
    let errors = step(&mut grid, &mut rng);
    assert!(errors.is_empty());
    assert_eq!(*grid.get(p(1, -1)).unwrap(), Grain::Air);
    assert_eq!(*grid.get(p(1, 0)).unwrap(), Grain::Sand);
}

#[test]
fn failing_cells_are_logged_with_world_coordinates() {
    let mut chunk = Chunk::<Grump, 4>::full_copied(Grump, ());
    chunk.clear_stain();
    chunk.stain_point(p(2, 2));

    let mut grid = WorldGrid::new(vec![(p(1, 1), chunk)]);
    let mut rng = rand::thread_rng();
    let errors = step(&mut grid, &mut rng);
    assert_eq!(errors.len(), 1);
    assert_eq!(errors[0].point, p(6, 6));
    match &errors[0].error {
        PowderkegError::Cell(msg) => assert_eq!(msg, "grumpy"),
        _ => panic!("expected a cell error"),
    }
}

#[test]
fn settled_cells_go_quiet_but_edge_cells_stay_dirty() {
    // a freshly built chunk is fully stained; one step of settled cells
    // leaves the interior clean, while the floor row — whose reach leaves
    // the chunk — stays dirty awaiting a neighbour below
    let chunk = Chunk::<Grain, 4>::full_copied(Grain::Air, ());
    let mut grid = WorldGrid::new(vec![(p(0, 0), chunk)]);
    let mut rng = rand::thread_rng();
    let errors = step(&mut grid, &mut rng);
    assert!(errors.is_empty());
    let chunks = grid.into_chunks();
    let stained = chunks[0].1.stained();
    for x in 0..4 {
        for y in 0..3 {
            assert!(!stained.contains(p(x, y)));
        }
        assert!(stained.contains(p(x, 3)));
    }
}

/// A cell that dirties its whole neighbourhood every time it runs.
#[derive(Clone, Copy, PartialEq, Eq, Debug)]
struct Radiator;

impl Cell for Radiator {
    type State = ();
    type Error = String;

    fn tick<G: Stainable<Cell = Self, State = Self::State, Error = Self::Error>>(
        origin: Point,
        grid: &mut G,
    ) -> Result<TickSuccess, PowderkegError<Self::Error>> {
        grid.stain_around(origin, 1);
        Ok(TickSuccess::Unstable)
    }

    fn range_spec(&self) -> Rect {
        Rect { min: Point { x: 0, y: 0 }, max: Point { x: 0, y: 0 } }
    }

    fn range(&self) -> Rect {
        Rect { min: Point { x: 0, y: 0 }, max: Point { x: 0, y: 0 } }
    }
}

#[test]
fn boundary_stain_is_forwarded_to_the_neighbour() {
    let mut chunk = Chunk::<Radiator, 4>::full_copied(Radiator, ());
    chunk.clear_stain();
    chunk.stain_point(p(0, 0));

    let coords = ChunkCoords::<4>(p(1, 1));
    let mut rng = rand::thread_rng();
    let out = tick_chunk(coords, &mut chunk, &mut rng);
    assert!(out.deferred.is_empty());
    assert!(out.errors.is_empty());
    // the corner cell stained one cell past two edges; the overflowing
    // rectangle comes back world-translated (chunk (1,1) starts at (4,4))
    assert_eq!(out.boundary, Some(Rect { min: p(3, 3), max: p(5, 5) }));
}

#[test]
fn tick_rate_two_runs_two_steps_in_four_frames() {
    // tick rate 2.0 at 0.3 s per frame: 600000 accumulator units per frame
    let mut acc = TickAccumulator::new();
    let mut runs = 0;
    let mut observed = Vec::new();
    for _ in 0..4 {
        if acc.advance(600_000) {
            runs += 1;
        }
        observed.push(acc.ticks);
    }
    assert_eq!(runs, 2);
    assert_eq!(observed, vec![600_000, 200_000, 800_000, 400_000]);
}

#[test]
fn accumulator_discards_backlog_beyond_one_step() {
    let mut acc = TickAccumulator::new();
    assert!(acc.advance(3_500_000));
    // 3.5 ticks owed, one runs, the excess clamps to one whole tick
    assert_eq!(acc.ticks, 1_000_000);
    assert!(acc.advance(0));
    assert_eq!(acc.ticks, 0);
    assert!(!acc.advance(999_999));
}
