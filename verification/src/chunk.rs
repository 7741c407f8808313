//! Fixed-size square chunks of the infinite grid, and the coordinate
//! transforms between world space and chunk-local space.
//!
//! A chunk owns `N * N` cells in row-major order, one raw dirty rectangle
//! (`None` when nothing is dirty; kept unclipped so stains spilling past an
//! edge can be forwarded to neighbours), and one piece of auxiliary state
//! shared behind a reference-counted read/write lock.

use vstd::prelude::*;
use vstd::arithmetic::div_mod::{
    lemma_fundamental_div_mod, lemma_fundamental_div_mod_converse, lemma_mod_bound,
};
use std::sync::Arc;
use crate::PowderkegError;
use crate::area::Area;
use crate::cell::Cell;
use crate::grid::{Grid, Stainable};
use crate::lock::{clone_state_handle, new_state_lock, SharedState};
use crate::math::{Point, Rect};
use crate::rng::sample_cells;

verus! {

/// Chunk sides the engine accepts: positive, and small enough that an
/// in-chunk index fits the machine integers on every side (46340 squared
/// still fits an `i32`).
pub open spec fn valid_size(n: usize) -> bool {
    1 <= n <= 46340
}

/// A chunk's position in the infinite chunk lattice.
#[derive(Clone, Copy)]
pub struct ChunkCoords<const N: usize>(pub Point);

impl<const N: usize> ChunkCoords<N> {
    /// Whether this lattice position's world offset, its negation, and every
    /// local point added to it stay inside the `i32` range.
    pub open spec fn offset_in_range(c: Point) -> bool {
        -(i32::MAX as int) <= c.x * (N as int) && c.x * (N as int) + (N as int) - 1 <= i32::MAX
            && -(i32::MAX as int) <= c.y * (N as int) && c.y * (N as int) + (N as int) - 1
            <= i32::MAX
    }

    /// The lattice position holding a world point.
    pub open spec fn chunk_of(world: Point) -> Point {
        Point { x: (world.x as int / N as int) as i32, y: (world.y as int / N as int) as i32 }
    }

    /// Where a world point sits inside its chunk.
    pub open spec fn local_of(world: Point) -> Point {
        Point { x: (world.x as int % N as int) as i32, y: (world.y as int % N as int) as i32 }
    }

    /// The world offset of this chunk's lower corner.
    pub fn offset(&self) -> (r: Point)
        requires
            valid_size(N),
            Self::offset_in_range(self.0),
        ensures
            r.x == self.0.x * (N as int),
            r.y == self.0.y * (N as int),
    {
        Point { x: self.0.x * (N as i32), y: self.0.y * (N as i32) }
    }

    /// Maps an in-chunk point to world space.
    pub fn local_to_world(&self, local: Point) -> (r: Point)
        requires
            valid_size(N),
            Self::offset_in_range(self.0),
            0 <= local.x < N as int,
            0 <= local.y < N as int,
        ensures
            r.x == self.0.x * (N as int) + local.x,
            r.y == self.0.y * (N as int) + local.y,
    {
        let offset = self.offset();
        Point { x: offset.x + local.x, y: offset.y + local.y }
    }

    /// Maps a world point to this chunk's local space.
    pub fn world_to_local(&self, world: Point) -> (r: Point)
        requires
            valid_size(N),
            Self::offset_in_range(self.0),
            i32::MIN <= world.x - self.0.x * (N as int) <= i32::MAX,
            i32::MIN <= world.y - self.0.y * (N as int) <= i32::MAX,
        ensures
            r.x == world.x - self.0.x * (N as int),
            r.y == world.y - self.0.y * (N as int),
    {
        let offset = self.offset();
        Point { x: world.x - offset.x, y: world.y - offset.y }
    }

    /// Splits a world point into its chunk's lattice position and the local
    /// point inside that chunk, by floored division, so negative world
    /// coordinates land in the right chunk.
    pub fn world_to_chunk_and_local(world: Point) -> (r: (Point, Point))
        requires
            valid_size(N),
        ensures
            r.0 == Self::chunk_of(world),
            r.1 == Self::local_of(world),
            0 <= r.1.x < N as int,
            0 <= r.1.y < N as int,
            world.x == r.0.x * (N as int) + r.1.x,
            world.y == r.0.y * (N as int) + r.1.y,
    {
        let n = N as i32;
        proof {
            Self::lemma_div_in_range(world.x as int);
            Self::lemma_div_in_range(world.y as int);
            lemma_mod_bound(world.x as int, N as int);
            lemma_mod_bound(world.y as int, N as int);
            lemma_fundamental_div_mod(world.x as int, N as int);
            lemma_fundamental_div_mod(world.y as int, N as int);
        }
        let cx = world.x.checked_div_euclid(n).unwrap();
        let cy = world.y.checked_div_euclid(n).unwrap();
        let lx = world.x.checked_rem_euclid(n).unwrap();
        let ly = world.y.checked_rem_euclid(n).unwrap();
        proof {
            assert(cx as int == world.x as int / N as int);
            assert(lx as int == world.x as int % N as int);
            assert(world.x as int == (N as int) * (cx as int) + lx as int);
            assert((N as int) * (cx as int) == (cx as int) * (N as int)) by (nonlinear_arith);
            assert(cy as int == world.y as int / N as int);
            assert(ly as int == world.y as int % N as int);
            assert(world.y as int == (N as int) * (cy as int) + ly as int);
            assert((N as int) * (cy as int) == (cy as int) * (N as int)) by (nonlinear_arith);
        }
        (Point { x: cx, y: cy }, Point { x: lx, y: ly })
    }

    /// Dividing by a positive chunk side keeps the quotient representable.
    pub proof fn lemma_div_in_range(x: int)
        requires
            valid_size(N),
            i32::MIN <= x <= i32::MAX,
        ensures
            i32::MIN <= x / (N as int) <= i32::MAX,
    {
        let n = N as int;
        lemma_mod_bound(x, n);
        lemma_fundamental_div_mod(x, n);
        assert(i32::MIN <= x / n <= i32::MAX) by (nonlinear_arith)
            requires
                n >= 1,
                i32::MIN <= x <= i32::MAX,
                x == n * (x / n) + x % n,
                0 <= x % n < n,
        ;
    }

    /// A local point translated to world space lands back in the same chunk
    /// at the same local point.
    pub proof fn lemma_local_world_roundtrip(c: Point, local: Point)
        requires
            valid_size(N),
            Self::offset_in_range(c),
            0 <= local.x < N as int,
            0 <= local.y < N as int,
        ensures
            ({
                let world = Point {
                    x: (c.x * (N as int) + local.x) as i32,
                    y: (c.y * (N as int) + local.y) as i32,
                };
                Self::chunk_of(world) == c && Self::local_of(world) == local
            }),
    {
        let n = N as int;
        lemma_fundamental_div_mod_converse(c.x * n + local.x, n, c.x as int, local.x as int);
        lemma_fundamental_div_mod_converse(c.y * n + local.y, n, c.y as int, local.y as int);
    }
}

/// A fixed-size square tile of the grid: the unit of concurrent ownership.
///
/// The fields are public so that the specification can speak of them
/// directly; mutate them only through the methods, whose contracts assume
/// and keep `wf()`.
pub struct Chunk<T: Cell, const N: usize> {
    /// The cells in row-major order; always exactly `N * N` of them.
    pub data: Vec<T>,
    /// The raw dirty region, unclipped, so overflow past the chunk's edge
    /// can be forwarded to a neighbour; `None` when nothing is dirty.
    pub stain: Option<Rect>,
    /// The auxiliary state the chunk's cells share.
    pub state: SharedState<T::State>,
}

impl<T: Cell, const N: usize> Chunk<T, N> {
    /// Whether a local point lies inside the chunk.
    pub open spec fn in_bounds(p: Point) -> bool {
        0 <= p.x < N as int && 0 <= p.y < N as int
    }

    /// The row-major index of a local point.
    pub open spec fn idx_spec(p: Point) -> int {
        p.y * (N as int) + p.x
    }

    /// The chunk's own bounds as a rectangle.
    pub open spec fn area_rect_spec() -> Rect {
        Rect {
            min: Point { x: 0, y: 0 },
            max: Point { x: (N - 1) as i32, y: (N - 1) as i32 },
        }
    }

    /// The cell map a row-major data sequence stands for.
    pub open spec fn cells_of(data: Seq<T>) -> Map<Point, T> {
        Map::new(|p: Point| Self::in_bounds(p), |p: Point| data[Self::idx_spec(p)])
    }

    /// The raw dirty rectangle grown by one point.
    pub open spec fn stain_with_point(stain: Option<Rect>, p: Point) -> Rect {
        match stain {
            None => Rect { min: p, max: p },
            Some(s) => s.union_point_spec(p),
        }
    }

    /// The raw dirty rectangle grown by a rectangle.
    pub open spec fn stain_with_rect(stain: Option<Rect>, r: Rect) -> Rect {
        match stain {
            None => r,
            Some(s) => s.union_spec(r),
        }
    }

    /// An in-bounds point indexes inside the data.
    pub proof fn lemma_idx_bounds(p: Point)
        requires
            valid_size(N),
            Self::in_bounds(p),
        ensures
            0 <= Self::idx_spec(p) < N * N,
    {
        assert(0 <= p.y * (N as int) + p.x < (N as int) * (N as int)) by (nonlinear_arith)
            requires
                0 <= p.x < N as int,
                0 <= p.y < N as int,
        ;
    }

    /// Distinct in-bounds points index distinct cells.
    pub proof fn lemma_idx_injective(p: Point, q: Point)
        requires
            valid_size(N),
            Self::in_bounds(p),
            Self::in_bounds(q),
            Self::idx_spec(p) == Self::idx_spec(q),
        ensures
            p == q,
    {
        let n = N as int;
        lemma_fundamental_div_mod_converse(Self::idx_spec(p), n, p.y as int, p.x as int);
        lemma_fundamental_div_mod_converse(Self::idx_spec(q), n, q.y as int, q.x as int);
    }

    /// Writing one cell updates the cell map at exactly that point.
    pub proof fn lemma_cells_update(data: Seq<T>, p: Point, v: T)
        requires
            valid_size(N),
            data.len() == N * N,
            Self::in_bounds(p),
        ensures
            Self::cells_of(data.update(Self::idx_spec(p), v)) == Self::cells_of(data).insert(
                p,
                v,
            ),
    {
        Self::lemma_idx_bounds(p);
        let lhs = Self::cells_of(data.update(Self::idx_spec(p), v));
        let rhs = Self::cells_of(data).insert(p, v);
        assert forall|q: Point| lhs.dom().contains(q) implies lhs[q] == rhs[q] by {
            Self::lemma_idx_bounds(q);
            if Self::idx_spec(q) == Self::idx_spec(p) {
                Self::lemma_idx_injective(p, q);
            }
        }
        assert(lhs =~= rhs);
    }

    /// Builds a chunk over the given row-major cells, fully stained so every
    /// cell is evaluated on the first tick.
    pub fn new(data: Vec<T>, state: T::State) -> (r: Self)
        requires
            valid_size(N),
            data@.len() == N * N,
        ensures
            r.wf(),
            r.data == data,
            r.stain == Some(Self::area_rect_spec()),
    {
        Chunk { data, stain: Some(Self::area()), state: Arc::new(new_state_lock(state)) }
    }

    /// The chunk's own bounds.
    pub fn area() -> (r: Rect)
        requires
            valid_size(N),
        ensures
            r == Self::area_rect_spec(),
    {
        Rect { min: Point { x: 0, y: 0 }, max: Point { x: (N as i32) - 1, y: (N as i32) - 1 } }
    }

    /// How many cells the chunk holds.
    pub fn volume() -> (r: usize)
        requires
            valid_size(N),
        ensures
            r == N * N,
    {
        proof {
            assert((N as int) * (N as int) <= 46340 * 46340) by (nonlinear_arith)
                requires
                    N <= 46340,
            ;
        }
        N * N
    }

    /// The row-major index of a local point, or `None` outside the bounds.
    pub fn index(&self, point: Point) -> (r: Option<usize>)
        requires
            valid_size(N),
        ensures
            match r {
                Some(i) => Self::in_bounds(point) && i == Self::idx_spec(point),
                None => !Self::in_bounds(point),
            },
    {
        let n = N as i32;
        if 0 <= point.x && point.x < n && 0 <= point.y && point.y < n {
            proof {
                Self::lemma_idx_bounds(point);
                assert((N as int) * (N as int) <= 46340 * 46340) by (nonlinear_arith)
                    requires
                        N <= 46340,
                ;
                assert((point.y as int) * (N as int) <= Self::idx_spec(point));
            }
            Some((point.y as usize) * N + (point.x as usize))
        } else {
            None
        }
    }
}

impl<T: Cell + Copy, const N: usize> Chunk<T, N> {
    /// A chunk holding `value` everywhere.
    pub fn full_copied(value: T, state: T::State) -> (r: Self)
        requires
            valid_size(N),
        ensures
            r.wf(),
            r.stain == Some(Self::area_rect_spec()),
            forall|p: Point| Self::in_bounds(p) ==> r.cells()[p] == value,
    {
        let volume = Self::volume();
        let mut data: Vec<T> = Vec::new();
        while data.len() < volume
            invariant
                data@.len() <= volume,
                volume == N * N,
                forall|i: int| 0 <= i < data@.len() ==> data@[i] == value,
            decreases volume - data@.len(),
        {
            data.push(value);
        }
        let r = Self::new(data, state);
        proof {
            assert forall|p: Point| Self::in_bounds(p) implies r.cells()[p] == value by {
                Self::lemma_idx_bounds(p);
            }
        }
        r
    }
}

impl<T: Cell + Default, const N: usize> Default for Chunk<T, N> where T::State: Default {
    /// A chunk holding the default cell everywhere, over default auxiliary
    /// state, fully stained like every fresh chunk.
    fn default() -> (r: Self)
        ensures
            valid_size(N) ==> r.wf() && r.stain == Some(Self::area_rect_spec()) && forall|p: Point|
                Self::in_bounds(p) ==> call_ensures(T::default, (), #[trigger] r.cells()[p]),
    {
        let side_ok = 1 <= N && N <= 46340;
        let volume = if side_ok {
            Self::volume()
        } else {
            0
        };
        let mut data: Vec<T> = Vec::new();
        while data.len() < volume
            invariant
                data@.len() <= volume,
                forall|i: int| 0 <= i < data@.len() ==> call_ensures(
                    T::default,
                    (),
                    #[trigger] data@[i],
                ),
            decreases volume - data@.len(),
        {
            data.push(T::default());
        }
        let r = Chunk {
            data,
            stain: Some(
                Rect {
                    min: Point { x: 0, y: 0 },
                    max: Point {
                        x: if side_ok {
                            (N as i32) - 1
                        } else {
                            0
                        },
                        y: if side_ok {
                            (N as i32) - 1
                        } else {
                            0
                        },
                    },
                },
            ),
            state: Arc::new(new_state_lock(<T::State as Default>::default())),
        };
        proof {
            if valid_size(N) {
                assert forall|p: Point| Self::in_bounds(p) implies call_ensures(
                    T::default,
                    (),
                    #[trigger] r.cells()[p],
                ) by {
                    Self::lemma_idx_bounds(p);
                }
            }
        }
        r
    }
}

impl<T: Cell, const N: usize> Chunk<T, N> {
    /// A chunk filled by sampling the given distribution.
    pub fn full_random<R: rand::Rng, D: rand::distributions::Distribution<T>>(
        rng: &mut R,
        distribution: D,
        state: T::State,
    ) -> (r: Self)
        requires
            valid_size(N),
        ensures
            r.wf(),
            r.stain == Some(Self::area_rect_spec()),
    {
        let data = sample_cells(rng, distribution, Self::volume());
        Self::new(data, state)
    }
}

impl<T: Cell, const N: usize> Chunk<T, N> {
    /// Hands out write access to the cell at `point`, staining it: every
    /// in-place mutation path goes through here, which is what keeps the
    /// dirty region honest.
    pub fn get_mut(&mut self, point: Point) -> (r: Result<&mut T, PowderkegError<T::Error>>)
        requires
            old(self).wf(),
        ensures
            final(self).wf(),
            final(self).cells().dom() == old(self).cells().dom(),
            match r {
                Ok(c) => Self::in_bounds(point) && *c == old(self).cells()[point]
                    && final(self).cells() == old(self).cells().insert(point, *final(c))
                    && old(self).stain_point_ens(point, *final(self)),
                Err(e) => *final(self) == *old(self) && !Self::in_bounds(point) && e
                    == PowderkegError::<T::Error>::LocalOutOfBounds(point),
            },
    {
        match self.index(point) {
            Some(i) => {
                self.stain_point(point);
                proof {
                    Self::lemma_idx_bounds(point);
                    assert forall|v: T|
                        Self::cells_of(self.data@.update(Self::idx_spec(point), v))
                            == self.cells().insert(point, v) by {
                        Self::lemma_cells_update(self.data@, point, v);
                    }
                }
                Ok(&mut self.data[i])
            },
            None => Err(PowderkegError::LocalOutOfBounds(point)),
        }
    }
}

impl<T: Cell, const N: usize> Chunk<T, N> {
    /// In a chunk holding `value` everywhere — as a fresh one does — every
    /// in-bounds point is addressable and reads back `value`, and every
    /// out-of-bounds point is unaddressable and reports itself out of
    /// bounds.
    pub proof fn lemma_fresh_chunk_get(c: Self, value: T, p: Point)
        requires
            c.wf(),
            forall|q: Point| Self::in_bounds(q) ==> c.cells()[q] == value,
        ensures
            Self::in_bounds(p) ==> c.cells().dom().contains(p) && c.cells()[p] == value,
            !Self::in_bounds(p) ==> !c.cells().dom().contains(p) && c.miss_error(p)
                == PowderkegError::<T::Error>::LocalOutOfBounds(p),
    {
    }

    /// After a cell is replaced, reading the point hands the new value back
    /// and the point is marked dirty.
    pub proof fn lemma_replace_then_get(pre: Self, p: Point, v: T, post: Self)
        requires
            pre.wf(),
            Self::in_bounds(p),
            post.cells() == pre.cells().insert(p, v),
            pre.stain_point_ens(p, post),
        ensures
            post.cells()[p] == v,
            post.stained_pts().contains(p),
    {
    }

    /// A swap leaves the two cells exchanged and both points dirty.
    pub proof fn lemma_swap_exchanges(pre: Self, a: Point, b: Point, post: Self)
        requires
            pre.wf(),
            Self::in_bounds(a),
            Self::in_bounds(b),
            post.cells() == pre.cells().insert(a, pre.cells()[b]).insert(b, pre.cells()[a]),
            pre.swap_stain_ens(a, b, post),
        ensures
            post.cells()[a] == pre.cells()[b],
            post.cells()[b] == pre.cells()[a],
            post.stained_pts().contains(a),
            post.stained_pts().contains(b),
    {
        if a == b {
            assert(post.cells()[a] == pre.cells()[a]);
        }
    }
}

impl<T: Cell, const N: usize> Grid for Chunk<T, N> {
    type Cell = T;

    type State = T::State;

    type Error = T::Error;

    open spec fn wf(&self) -> bool {
        valid_size(N) && self.data@.len() == N * N
    }

    open spec fn cells(&self) -> Map<Point, T> {
        Self::cells_of(self.data@)
    }

    open spec fn stained_pts(&self) -> Set<Point> {
        match self.stain {
            None => Set::empty(),
            Some(s) => Set::new(|p: Point| Self::in_bounds(p) && s.contains_spec(p)),
        }
    }

    open spec fn miss_error(&self, point: Point) -> PowderkegError<T::Error> {
        PowderkegError::LocalOutOfBounds(point)
    }

    open spec fn state_of(&self, point: Point) -> SharedState<T::State> {
        self.state
    }

    open spec fn swap_miss_error(&self, first: Point, second: Point) -> PowderkegError<T::Error> {
        if !Self::in_bounds(first) {
            PowderkegError::LocalOutOfBounds(first)
        } else {
            PowderkegError::LocalOutOfBounds(second)
        }
    }

    open spec fn stain_point_ens(&self, point: Point, post: Self) -> bool {
        post.stain == Some(Self::stain_with_point(self.stain, point)) && post.state == self.state
    }

    open spec fn swap_stain_ens(&self, first: Point, second: Point, post: Self) -> bool {
        post.stain == Some(
            Self::stain_with_point(Some(Self::stain_with_point(self.stain, first)), second),
        ) && post.state == self.state
    }

    fn get(&self, point: Point) -> Result<&T, PowderkegError<T::Error>> {
        match self.index(point) {
            Some(i) => {
                proof {
                    Self::lemma_idx_bounds(point);
                }
                Ok(&self.data[i])
            },
            None => Err(PowderkegError::LocalOutOfBounds(point)),
        }
    }

    fn replace(&mut self, point: Point, cell: T) -> Result<T, PowderkegError<T::Error>> {
        match self.get_mut(point) {
            Ok(slot) => {
                let mut taken = cell;
                core::mem::swap(slot, &mut taken);
                Ok(taken)
            },
            Err(e) => Err(e),
        }
    }

    fn swap(&mut self, first: Point, second: Point) -> Result<(), PowderkegError<T::Error>> {
        let oi = self.index(first);
        let oj = self.index(second);
        match (oi, oj) {
            (Some(i), Some(j)) => {
                let ghost pre = *self;
                proof {
                    Self::lemma_idx_bounds(first);
                    Self::lemma_idx_bounds(second);
                }
                if i == j {
                    proof {
                        Self::lemma_idx_injective(first, second);
                    }
                } else {
                    let (lo, hi) = if i < j {
                        (i, j)
                    } else {
                        (j, i)
                    };
                    let hi_val = self.data.remove(hi);
                    let lo_val = self.data.remove(lo);
                    self.data.insert(lo, hi_val);
                    self.data.insert(hi, lo_val);
                    proof {
                        assert(self.data@ =~= pre.data@.update(i as int, pre.data@[j as int]).update(
                            j as int,
                            pre.data@[i as int],
                        ));
                        Self::lemma_cells_update(pre.data@, first, pre.data@[j as int]);
                        Self::lemma_cells_update(
                            pre.data@.update(Self::idx_spec(first), pre.data@[j as int]),
                            second,
                            pre.data@[i as int],
                        );
                    }
                }
                proof {
                    assert(self.cells() =~= old(self).cells().insert(
                        first,
                        old(self).cells()[second],
                    ).insert(second, old(self).cells()[first]));
                }
                self.stain_point(first);
                self.stain_point(second);
                Ok(())
            },
            (None, _) => Err(PowderkegError::LocalOutOfBounds(first)),
            (_, None) => Err(PowderkegError::LocalOutOfBounds(second)),
        }
    }

    fn get_state(&self, point: Point) -> Result<SharedState<T::State>, PowderkegError<T::Error>> {
        let n = N as i32;
        if 0 <= point.x && point.x < n && 0 <= point.y && point.y < n {
            Ok(clone_state_handle(&self.state))
        } else {
            Err(PowderkegError::LocalOutOfBounds(point))
        }
    }

    fn covers(&self) -> (a: Area) {
        let a = Area::Area(Self::area());
        proof {
            assert forall|p: Point| #[trigger] a.contains_spec(p) <==> self.cells().dom().contains(
                p,
            ) by {
                assert(a.rects()[0] == Self::area_rect_spec());
                if Self::area_rect_spec().contains_spec(p) {
                    assert(a.rects()[0].contains_spec(p));
                }
            }
        }
        a
    }
}

impl<T: Cell, const N: usize> Stainable for Chunk<T, N> {
    open spec fn stain_rect_ens(&self, area: Rect, post: Self) -> bool {
        post.stain == Some(Self::stain_with_rect(self.stain, area)) && post.state == self.state
    }

    /// The dirty region clipped to the chunk's bounds; the raw rectangle
    /// stays available in the `stain` field for overflow forwarding.
    fn stained(&self) -> (a: Area) {
        match self.stain {
            None => Area::Empty,
            Some(s) => {
                let clipped = s.intersect(Self::area());
                let a = Area::Area(clipped);
                proof {
                    assert forall|p: Point| #[trigger] a.contains_spec(p)
                        <==> self.stained_pts().contains(p) by {
                        assert(a.rects()[0] == clipped);
                        if self.stained_pts().contains(p) {
                            assert(a.rects()[0].contains_spec(p));
                        }
                    }
                }
                a
            },
        }
    }

    fn stain(&mut self, area: Rect) {
        let grown = match self.stain {
            Some(s) => s.union(area),
            None => area,
        };
        self.stain = Some(grown);
    }

    fn stain_point(&mut self, point: Point) {
        let grown = match self.stain {
            Some(s) => s.union_point(point),
            None => Rect { min: point, max: point },
        };
        self.stain = Some(grown);
    }

    fn clear_stain(&mut self) {
        self.stain = None;
    }
}

} // verus!
