//! The world view over many chunks, and the two-phase tick scheduler.
//!
//! A [`WorldGrid`] stitches the loaded chunks into one address space for the
//! length of a scheduling pass: world coordinates are split into a chunk
//! lattice position and a local point, and cross-chunk swaps exchange cells
//! between two distinct chunks. [`step`] runs one discrete tick over it:
//! first every chunk on its own (evaluating only its dirty points and
//! deferring any cell whose reach escapes the chunk), then one serial pass
//! over the deferred points against the whole world view.

use vstd::prelude::*;
use vstd::pervasive::unreached;
use vstd::arithmetic::div_mod::{
    lemma_fundamental_div_mod, lemma_fundamental_div_mod_converse, lemma_mod_bound,
};
use crate::PowderkegError;
use crate::area::{lemma_rects_of_app, lemma_rects_of_singleton, rects_of, Area};
use crate::cell::{Cell, TickSuccess};
use crate::chunk::{valid_size, Chunk, ChunkCoords};
use crate::grid::{Grid, Stainable};
use crate::lock::SharedState;
use crate::math::{Point, Rect};

verus! {

/// One loaded chunk at its lattice position.
pub type Entry<T, const N: usize> = (Point, Chunk<T, N>);

/// A transient view stitching the loaded chunks together, valid for one
/// scheduling pass.
///
/// The field is public so the specification can speak of it; mutate it only
/// through the methods, whose contracts assume and keep `wf()`.
pub struct WorldGrid<T: Cell, const N: usize> {
    /// The loaded chunks, each at its lattice position; positions are
    /// distinct and every position's world offset stays in machine range.
    pub chunks: Vec<Entry<T, N>>,
}

impl<T: Cell, const N: usize> WorldGrid<T, N> {
    /// Whether some entry sits at lattice position `c`.
    pub open spec fn seq_has(chunks: Seq<Entry<T, N>>, c: Point) -> bool {
        exists|i: int| 0 <= i < chunks.len() && (#[trigger] chunks[i]).0 == c
    }

    /// The index of the entry at lattice position `c`.
    pub open spec fn seq_idx(chunks: Seq<Entry<T, N>>, c: Point) -> int {
        choose|i: int| 0 <= i < chunks.len() && (#[trigger] chunks[i]).0 == c
    }

    /// Well-formedness of an entry sequence: every chunk well-formed, every
    /// position's offset in machine range, all positions distinct.
    pub open spec fn seq_wf(chunks: Seq<Entry<T, N>>) -> bool {
        valid_size(N) && (forall|i: int|
            0 <= i < chunks.len() ==> (#[trigger] chunks[i]).1.wf()) && (forall|i: int|
            0 <= i < chunks.len() ==> ChunkCoords::<N>::offset_in_range((#[trigger] chunks[i]).0))
            && (forall|i: int, j: int|
            0 <= i < j < chunks.len() ==> (#[trigger] chunks[i]).0 != (#[trigger] chunks[j]).0)
    }

    /// The world-coordinate cell map of an entry sequence.
    pub open spec fn seq_cells(chunks: Seq<Entry<T, N>>) -> Map<Point, T> {
        Map::new(
            |p: Point| Self::seq_has(chunks, ChunkCoords::<N>::chunk_of(p)),
            |p: Point|
                chunks[Self::seq_idx(chunks, ChunkCoords::<N>::chunk_of(p))].1.cells()[
                    ChunkCoords::<N>::local_of(p)
                ],
        )
    }

    /// The world-coordinate dirty set of an entry sequence.
    pub open spec fn seq_stained(chunks: Seq<Entry<T, N>>) -> Set<Point> {
        Set::new(
            |p: Point|
                Self::seq_has(chunks, ChunkCoords::<N>::chunk_of(p)) && chunks[
                    Self::seq_idx(chunks, ChunkCoords::<N>::chunk_of(p))
                ].1.stained_pts().contains(ChunkCoords::<N>::local_of(p)),
        )
    }

    /// Whether a chunk is loaded at lattice position `c`.
    pub open spec fn has_chunk(&self, c: Point) -> bool {
        Self::seq_has(self.chunks@, c)
    }

    /// The chunk at lattice position `c`.
    pub open spec fn chunk_at(&self, c: Point) -> Chunk<T, N> {
        self.chunks@[Self::seq_idx(self.chunks@, c)].1
    }

    /// The world-space footprint of the chunk at lattice position `c`.
    pub open spec fn world_rect(c: Point) -> Rect {
        Rect {
            min: Point { x: (c.x * (N as int)) as i32, y: (c.y * (N as int)) as i32 },
            max: Point {
                x: (c.x * (N as int) + (N as int) - 1) as i32,
                y: (c.y * (N as int) + (N as int) - 1) as i32,
            },
        }
    }

    /// With distinct positions, the position of entry `i` looks up entry `i`.
    pub proof fn lemma_seq_idx(chunks: Seq<Entry<T, N>>, i: int)
        requires
            Self::seq_wf(chunks),
            0 <= i < chunks.len(),
        ensures
            Self::seq_has(chunks, chunks[i].0),
            Self::seq_idx(chunks, chunks[i].0) == i,
    {
        let c = chunks[i].0;
        assert(Self::seq_has(chunks, c));
        let j = Self::seq_idx(chunks, c);
        assert(0 <= j < chunks.len() && chunks[j].0 == c);
    }

    /// Two world points agreeing on chunk and local position are one point.
    pub proof fn lemma_coords_determine_point(p: Point, q: Point)
        requires
            valid_size(N),
            ChunkCoords::<N>::chunk_of(p) == ChunkCoords::<N>::chunk_of(q),
            ChunkCoords::<N>::local_of(p) == ChunkCoords::<N>::local_of(q),
        ensures
            p == q,
    {
        let n = N as int;
        lemma_fundamental_div_mod(p.x as int, n);
        lemma_fundamental_div_mod(p.y as int, n);
        lemma_fundamental_div_mod(q.x as int, n);
        lemma_fundamental_div_mod(q.y as int, n);
        lemma_mod_bound(p.x as int, n);
        lemma_mod_bound(p.y as int, n);
        lemma_mod_bound(q.x as int, n);
        lemma_mod_bound(q.y as int, n);
        ChunkCoords::<N>::lemma_div_in_range(p.x as int);
        ChunkCoords::<N>::lemma_div_in_range(p.y as int);
        ChunkCoords::<N>::lemma_div_in_range(q.x as int);
        ChunkCoords::<N>::lemma_div_in_range(q.y as int);
        assert(p.x as int / n == q.x as int / n);
        assert(p.y as int / n == q.y as int / n);
        assert(p.x as int % n == q.x as int % n);
        assert(p.y as int % n == q.y as int % n);
    }

    /// A world point's local position sits inside its chunk's bounds.
    pub proof fn lemma_local_in_bounds(p: Point)
        requires
            valid_size(N),
        ensures
            Chunk::<T, N>::in_bounds(ChunkCoords::<N>::local_of(p)),
    {
        lemma_mod_bound(p.x as int, N as int);
        lemma_mod_bound(p.y as int, N as int);
    }

    /// A chunk's world footprint holds exactly the points that map to it.
    pub proof fn lemma_world_rect_contains(c: Point, p: Point)
        requires
            valid_size(N),
            ChunkCoords::<N>::offset_in_range(c),
        ensures
            Self::world_rect(c).contains_spec(p) <==> ChunkCoords::<N>::chunk_of(p) == c,
    {
        let n = N as int;
        assert(i32::MIN <= c.x * n && c.x * n + n - 1 <= i32::MAX);
        assert(i32::MIN <= c.y * n && c.y * n + n - 1 <= i32::MAX);
        assert((c.x * n) as i32 == c.x * n && (c.y * n) as i32 == c.y * n);
        assert((c.x * n + n - 1) as i32 == c.x * n + n - 1 && (c.y * n + n - 1) as i32 == c.y * n
            + n - 1);
        if Self::world_rect(c).contains_spec(p) {
            assert(c.x * n <= p.x as int <= c.x * n + n - 1);
            assert(0 <= p.x - c.x * n < n);
            lemma_fundamental_div_mod_converse(p.x as int, n, c.x as int, p.x - c.x * n);
            lemma_fundamental_div_mod_converse(p.y as int, n, c.y as int, p.y - c.y * n);
            ChunkCoords::<N>::lemma_div_in_range(p.x as int);
            ChunkCoords::<N>::lemma_div_in_range(p.y as int);
            assert(c.x as int == p.x as int / n);
            assert(ChunkCoords::<N>::chunk_of(p).x == c.x);
            assert(ChunkCoords::<N>::chunk_of(p).y == c.y);
        }
        if ChunkCoords::<N>::chunk_of(p) == c {
            Self::lemma_point_in_own_rect(c, p);
        }
    }

    /// A world point sits inside the footprint of its own chunk.
    proof fn lemma_point_in_own_rect(c: Point, p: Point)
        requires
            valid_size(N),
            ChunkCoords::<N>::chunk_of(p) == c,
        ensures
            c.x * (N as int) <= p.x as int <= c.x * (N as int) + (N as int) - 1,
            c.y * (N as int) <= p.y as int <= c.y * (N as int) + (N as int) - 1,
    {
        let n = N as int;
        lemma_fundamental_div_mod(p.x as int, n);
        lemma_fundamental_div_mod(p.y as int, n);
        lemma_mod_bound(p.x as int, n);
        lemma_mod_bound(p.y as int, n);
        ChunkCoords::<N>::lemma_div_in_range(p.x as int);
        ChunkCoords::<N>::lemma_div_in_range(p.y as int);
        assert(p.x as int / n == c.x as int);
        assert(p.y as int / n == c.y as int);
        assert(p.x as int == n * (c.x as int) + p.x as int % n);
        assert(p.y as int == n * (c.y as int) + p.y as int % n);
        assert(n * (c.x as int) == c.x * n) by (nonlinear_arith);
        assert(n * (c.y as int) == c.y * n) by (nonlinear_arith);
    }

    /// A rectangle inside a chunk's bounds, translated to that chunk's world
    /// offset, holds exactly the world points that land in the rectangle.
    pub proof fn lemma_local_rect_to_world(c: Point, r: Rect, p: Point)
        requires
            valid_size(N),
            ChunkCoords::<N>::offset_in_range(c),
            0 <= r.min.x <= r.max.x,
            r.max.x < N as int,
            0 <= r.min.y <= r.max.y,
            r.max.y < N as int,
        ensures
            r.translate_spec(
                Point { x: (c.x * (N as int)) as i32, y: (c.y * (N as int)) as i32 },
            ).contains_spec(p) <==> (ChunkCoords::<N>::chunk_of(p) == c && r.contains_spec(
                ChunkCoords::<N>::local_of(p),
            )),
    {
        let n = N as int;
        assert(i32::MIN <= c.x * n && c.x * n + n - 1 <= i32::MAX);
        assert(i32::MIN <= c.y * n && c.y * n + n - 1 <= i32::MAX);
        assert((c.x * n) as i32 == c.x * n && (c.y * n) as i32 == c.y * n);
        let t = r.translate_spec(Point { x: (c.x * n) as i32, y: (c.y * n) as i32 });
        assert(t.min.x == c.x * n + r.min.x && t.max.x == c.x * n + r.max.x);
        assert(t.min.y == c.y * n + r.min.y && t.max.y == c.y * n + r.max.y);
        if t.contains_spec(p) {
            lemma_fundamental_div_mod_converse(p.x as int, n, c.x as int, p.x - c.x * n);
            lemma_fundamental_div_mod_converse(p.y as int, n, c.y as int, p.y - c.y * n);
            ChunkCoords::<N>::lemma_div_in_range(p.x as int);
            ChunkCoords::<N>::lemma_div_in_range(p.y as int);
        }
        if ChunkCoords::<N>::chunk_of(p) == c {
            Self::lemma_point_in_own_rect(c, p);
            lemma_fundamental_div_mod(p.x as int, n);
            lemma_fundamental_div_mod(p.y as int, n);
            lemma_mod_bound(p.x as int, n);
            lemma_mod_bound(p.y as int, n);
            ChunkCoords::<N>::lemma_div_in_range(p.x as int);
            ChunkCoords::<N>::lemma_div_in_range(p.y as int);
            assert(p.x as int / n == c.x as int);
            assert(p.y as int / n == c.y as int);
            assert(n * (c.x as int) == c.x * n) by (nonlinear_arith);
            assert(n * (c.y as int) == c.y * n) by (nonlinear_arith);
            assert(ChunkCoords::<N>::local_of(p).x == p.x - c.x * n);
            assert(ChunkCoords::<N>::local_of(p).y == p.y - c.y * n);
        }
    }

    /// Replacing the chunk of one entry, position kept, leaves the sequence
    /// well-formed and the rest of the model untouched.
    pub proof fn lemma_seq_update(pre: Seq<Entry<T, N>>, post: Seq<Entry<T, N>>, i: int)
        requires
            Self::seq_wf(pre),
            0 <= i < pre.len(),
            post.len() == pre.len(),
            forall|k: int| 0 <= k < pre.len() && k != i ==> #[trigger] post[k] == pre[k],
            post[i].0 == pre[i].0,
            post[i].1.wf(),
        ensures
            Self::seq_wf(post),
            forall|c: Point| #[trigger] Self::seq_has(post, c) == Self::seq_has(pre, c),
            forall|c: Point|
                Self::seq_has(pre, c) ==> #[trigger] Self::seq_idx(post, c) == Self::seq_idx(
                    pre,
                    c,
                ),
            Self::seq_cells(post).dom() == Self::seq_cells(pre).dom(),
            forall|q: Point|
                #![trigger Self::seq_cells(post).dom().contains(q)]
                Self::seq_cells(pre).dom().contains(q) ==> {
                    let cq = ChunkCoords::<N>::chunk_of(q);
                    let lq = ChunkCoords::<N>::local_of(q);
                    if cq == pre[i].0 {
                        Self::seq_cells(post)[q] == post[i].1.cells()[lq] && Self::seq_stained(
                            post,
                        ).contains(q) == post[i].1.stained_pts().contains(lq)
                    } else {
                        Self::seq_cells(post)[q] == Self::seq_cells(pre)[q] && Self::seq_stained(
                            post,
                        ).contains(q) == Self::seq_stained(pre).contains(q)
                    }
                },
    {
        assert forall|c: Point| #[trigger] Self::seq_has(post, c) == Self::seq_has(pre, c) by {
            if Self::seq_has(pre, c) {
                let k = choose|k: int| 0 <= k < pre.len() && (#[trigger] pre[k]).0 == c;
                assert(post[k].0 == c);
            }
            if Self::seq_has(post, c) {
                let k = choose|k: int| 0 <= k < post.len() && (#[trigger] post[k]).0 == c;
                assert(pre[k].0 == c);
            }
        }
        assert(Self::seq_wf(post));
        assert forall|c: Point| Self::seq_has(pre, c) implies #[trigger] Self::seq_idx(post, c)
            == Self::seq_idx(pre, c) by {
            let k = Self::seq_idx(pre, c);
            assert(0 <= k < pre.len() && pre[k].0 == c);
            assert(post[k].0 == c);
            Self::lemma_seq_idx(pre, k);
            Self::lemma_seq_idx(post, k);
        }
        assert(Self::seq_cells(post).dom() =~= Self::seq_cells(pre).dom());
        assert forall|q: Point| Self::seq_cells(pre).dom().contains(q) implies {
            let cq = ChunkCoords::<N>::chunk_of(q);
            let lq = ChunkCoords::<N>::local_of(q);
            if cq == pre[i].0 {
                Self::seq_cells(post)[q] == post[i].1.cells()[lq] && Self::seq_stained(
                    post,
                ).contains(q) == post[i].1.stained_pts().contains(lq)
            } else {
                Self::seq_cells(post)[q] == Self::seq_cells(pre)[q] && Self::seq_stained(
                    post,
                ).contains(q) == Self::seq_stained(pre).contains(q)
            }
        } by {
            let cq = ChunkCoords::<N>::chunk_of(q);
            let k = Self::seq_idx(pre, cq);
            Self::lemma_seq_idx(pre, i);
            if cq == pre[i].0 {
                assert(k == i);
            } else {
                assert(k != i);
            }
        }
    }

    /// Builds the view over the given chunks.
    pub fn new(chunks: Vec<Entry<T, N>>) -> (r: Self)
        requires
            Self::seq_wf(chunks@),
        ensures
            r.wf(),
            r.chunks == chunks,
    {
        WorldGrid { chunks }
    }

    /// Takes the chunks back out of the view.
    pub fn into_chunks(self) -> (r: Vec<Entry<T, N>>)
        ensures
            r == self.chunks,
    {
        self.chunks
    }

    /// Whether the world view can address `point`.
    pub fn contains_point(&self, point: Point) -> (r: bool)
        requires
            self.wf(),
        ensures
            r == self.cells().dom().contains(point),
    {
        let (c, _) = ChunkCoords::<N>::world_to_chunk_and_local(point);
        match self.find(c) {
            Some(_) => true,
            None => false,
        }
    }

    /// The index of the chunk at `c`, if one is loaded there.
    fn find(&self, c: Point) -> (r: Option<usize>)
        requires
            self.wf(),
        ensures
            match r {
                Some(i) => i < self.chunks@.len() && self.chunks@[i as int].0 == c
                    && Self::seq_has(self.chunks@, c) && Self::seq_idx(self.chunks@, c) == i,
                None => !Self::seq_has(self.chunks@, c),
            },
    {
        let n = self.chunks.len();
        let mut i: usize = 0;
        while i < n
            invariant
                self.wf(),
                0 <= i <= n,
                n == self.chunks@.len(),
                forall|k: int| 0 <= k < i ==> (#[trigger] self.chunks@[k]).0 != c,
            decreases n - i,
        {
            if self.chunks[i].0 == c {
                proof {
                    Self::lemma_seq_idx(self.chunks@, i as int);
                }
                return Some(i);
            }
            i += 1;
        }
        None
    }
}

impl<T: Cell, const N: usize> Grid for WorldGrid<T, N> {
    type Cell = T;

    type State = T::State;

    type Error = T::Error;

    open spec fn wf(&self) -> bool {
        Self::seq_wf(self.chunks@)
    }

    open spec fn cells(&self) -> Map<Point, T> {
        Self::seq_cells(self.chunks@)
    }

    open spec fn stained_pts(&self) -> Set<Point> {
        Self::seq_stained(self.chunks@)
    }

    open spec fn miss_error(&self, point: Point) -> PowderkegError<T::Error> {
        PowderkegError::ChunkOutOfBounds(ChunkCoords::<N>::chunk_of(point))
    }

    open spec fn state_of(&self, point: Point) -> SharedState<T::State> {
        self.chunk_at(ChunkCoords::<N>::chunk_of(point)).state
    }

    open spec fn swap_miss_error(&self, first: Point, second: Point) -> PowderkegError<T::Error> {
        if ChunkCoords::<N>::chunk_of(first) == ChunkCoords::<N>::chunk_of(second) {
            PowderkegError::ChunkOutOfBounds(ChunkCoords::<N>::chunk_of(first))
        } else {
            PowderkegError::SwapOutOfBounds {
                first: ChunkCoords::<N>::chunk_of(first),
                second: ChunkCoords::<N>::chunk_of(second),
            }
        }
    }

    open spec fn stain_point_ens(&self, point: Point, post: Self) -> bool {
        let c = ChunkCoords::<N>::chunk_of(point);
        let l = ChunkCoords::<N>::local_of(point);
        post.chunks@.len() == self.chunks@.len() && (forall|i: int|
            0 <= i < self.chunks@.len() ==> if (#[trigger] self.chunks@[i]).0 == c {
                post.chunks@[i].0 == self.chunks@[i].0 && self.chunks@[i].1.stain_point_ens(
                    l,
                    post.chunks@[i].1,
                )
            } else {
                post.chunks@[i] == self.chunks@[i]
            })
    }

    open spec fn swap_stain_ens(&self, first: Point, second: Point, post: Self) -> bool {
        let ca = ChunkCoords::<N>::chunk_of(first);
        let cb = ChunkCoords::<N>::chunk_of(second);
        let la = ChunkCoords::<N>::local_of(first);
        let lb = ChunkCoords::<N>::local_of(second);
        post.chunks@.len() == self.chunks@.len() && if ca == cb {
            forall|i: int|
                0 <= i < self.chunks@.len() ==> if (#[trigger] self.chunks@[i]).0 == ca {
                    post.chunks@[i].0 == self.chunks@[i].0 && self.chunks@[i].1.swap_stain_ens(
                        la,
                        lb,
                        post.chunks@[i].1,
                    )
                } else {
                    post.chunks@[i] == self.chunks@[i]
                }
        } else {
            forall|i: int|
                0 <= i < self.chunks@.len() ==> if (#[trigger] self.chunks@[i]).0 == ca {
                    post.chunks@[i].0 == self.chunks@[i].0 && self.chunks@[i].1.stain_point_ens(
                        la,
                        post.chunks@[i].1,
                    )
                } else if self.chunks@[i].0 == cb {
                    post.chunks@[i].0 == self.chunks@[i].0 && self.chunks@[i].1.stain_point_ens(
                        lb,
                        post.chunks@[i].1,
                    )
                } else {
                    post.chunks@[i] == self.chunks@[i]
                }
        }
    }

    fn get(&self, point: Point) -> Result<&T, PowderkegError<T::Error>> {
        let (c, l) = ChunkCoords::<N>::world_to_chunk_and_local(point);
        match self.find(c) {
            None => Err(PowderkegError::ChunkOutOfBounds(c)),
            Some(i) => {
                let chunk = &self.chunks[i].1;
                proof {
                    Self::lemma_seq_idx(self.chunks@, i as int);
                }
                match chunk.get(l) {
                    Ok(cell) => Ok(cell),
                    Err(_) => unreached(),
                }
            },
        }
    }

    fn replace(&mut self, point: Point, cell: T) -> Result<T, PowderkegError<T::Error>> {
        let (c, l) = ChunkCoords::<N>::world_to_chunk_and_local(point);
        match self.find(c) {
            None => Err(PowderkegError::ChunkOutOfBounds(c)),
            Some(i) => {
                let ghost pre = self.chunks@;
                let entry = self.chunks.remove(i);
                let coords = entry.0;
                let mut chunk = entry.1;
                let ghost pre_chunk = chunk;
                let prev = match chunk.replace(l, cell) {
                    Ok(p) => p,
                    Err(_) => {
                        return unreached();
                    },
                };
                self.chunks.insert(i, (coords, chunk));
                proof {
                    let post = self.chunks@;
                    assert(post =~= pre.update(i as int, (coords, chunk)));
                    Self::lemma_seq_update(pre, post, i as int);
                    assert(Self::seq_cells(post) =~= Self::seq_cells(pre).insert(point, cell)) by {
                        assert forall|q: Point|
                            Self::seq_cells(post).dom().contains(q) implies Self::seq_cells(
                            post,
                        )[q] == Self::seq_cells(pre).insert(point, cell)[q] by {
                            let cq = ChunkCoords::<N>::chunk_of(q);
                            let lq = ChunkCoords::<N>::local_of(q);
                            if cq == c {
                                if lq == l {
                                    Self::lemma_coords_determine_point(q, point);
                                } else {
                                    assert(q != point);
                                }
                            } else {
                                assert(q != point);
                            }
                        }
                    }
                    assert forall|k: int|
                        0 <= k < pre.len() implies (if (#[trigger] pre[k]).0 == c {
                        post[k].0 == pre[k].0 && pre[k].1.stain_point_ens(l, post[k].1)
                    } else {
                        post[k] == pre[k]
                    }) by {
                        if pre[k].0 == c && k != i {
                            Self::lemma_seq_idx(pre, k);
                            Self::lemma_seq_idx(pre, i as int);
                        }
                    }
                }
                Ok(prev)
            },
        }
    }

    fn swap(&mut self, first: Point, second: Point) -> Result<(), PowderkegError<T::Error>> {
        let (ca, la) = ChunkCoords::<N>::world_to_chunk_and_local(first);
        let (cb, lb) = ChunkCoords::<N>::world_to_chunk_and_local(second);
        if ca.x == cb.x && ca.y == cb.y {
            match self.find(ca) {
                None => Err(PowderkegError::ChunkOutOfBounds(ca)),
                Some(i) => {
                    let ghost pre = self.chunks@;
                    let entry = self.chunks.remove(i);
                    let coords = entry.0;
                    let mut chunk = entry.1;
                    let ghost pre_chunk = chunk;
                    match chunk.swap(la, lb) {
                        Ok(_) => {},
                        Err(_) => {
                            return unreached();
                        },
                    }
                    self.chunks.insert(i, (coords, chunk));
                    proof {
                        let post = self.chunks@;
                        assert(post =~= pre.update(i as int, (coords, chunk)));
                        Self::lemma_seq_update(pre, post, i as int);
                        assert(Self::seq_cells(post) =~= Self::seq_cells(pre).insert(
                            first,
                            Self::seq_cells(pre)[second],
                        ).insert(second, Self::seq_cells(pre)[first])) by {
                            assert forall|q: Point|
                                Self::seq_cells(post).dom().contains(q) implies Self::seq_cells(
                                post,
                            )[q] == Self::seq_cells(pre).insert(
                                first,
                                Self::seq_cells(pre)[second],
                            ).insert(second, Self::seq_cells(pre)[first])[q] by {
                                let cq = ChunkCoords::<N>::chunk_of(q);
                                let lq = ChunkCoords::<N>::local_of(q);
                                if cq == ca {
                                    if lq == la {
                                        Self::lemma_coords_determine_point(q, first);
                                    }
                                    if lq == lb {
                                        Self::lemma_coords_determine_point(q, second);
                                    }
                                    if lq != la && lq != lb {
                                        assert(q != first && q != second);
                                    }
                                } else {
                                    assert(q != first && q != second);
                                }
                            }
                        }
                        assert forall|k: int|
                            0 <= k < pre.len() implies (if (#[trigger] pre[k]).0 == ca {
                            post[k].0 == pre[k].0 && pre[k].1.swap_stain_ens(la, lb, post[k].1)
                        } else {
                            post[k] == pre[k]
                        }) by {
                            if pre[k].0 == ca && k != i {
                                Self::lemma_seq_idx(pre, k);
                                Self::lemma_seq_idx(pre, i as int);
                            }
                        }
                    }
                    Ok(())
                },
            }
        } else {
            let oi = self.find(ca);
            let oj = self.find(cb);
            match (oi, oj) {
                (Some(i), Some(j)) => {
                    proof {
                        if i == j {
                            assert(false);
                        }
                    }
                    let ghost pre = self.chunks@;
                    // normalize to the lower and higher index, taking the
                    // higher-indexed chunk out first so the lower index
                    // keeps its meaning
                    let (lo, hi, l_lo, l_hi) = if i < j {
                        (i, j, la, lb)
                    } else {
                        (j, i, lb, la)
                    };
                    let hi_entry = self.chunks.remove(hi);
                    let lo_entry = self.chunks.remove(lo);
                    let (lo_coords, mut lo_chunk) = lo_entry;
                    let (hi_coords, mut hi_chunk) = hi_entry;
                    let ghost pre_lo = lo_chunk;
                    let ghost pre_hi = hi_chunk;
                    proof {
                        Chunk::<T, N>::lemma_idx_bounds(l_lo);
                        Chunk::<T, N>::lemma_idx_bounds(l_hi);
                    }
                    // exchange the two cells between the owned chunks, then
                    // stain both endpoints
                    let idx_lo = match lo_chunk.index(l_lo) {
                        Some(x) => x,
                        None => unreached(),
                    };
                    let idx_hi = match hi_chunk.index(l_hi) {
                        Some(x) => x,
                        None => unreached(),
                    };
                    let lo_val = lo_chunk.data.remove(idx_lo);
                    let hi_val = hi_chunk.data.remove(idx_hi);
                    lo_chunk.data.insert(idx_lo, hi_val);
                    hi_chunk.data.insert(idx_hi, lo_val);
                    proof {
                        assert(lo_chunk.data@ =~= pre_lo.data@.update(
                            Chunk::<T, N>::idx_spec(l_lo),
                            pre_hi.data@[Chunk::<T, N>::idx_spec(l_hi)],
                        ));
                        assert(hi_chunk.data@ =~= pre_hi.data@.update(
                            Chunk::<T, N>::idx_spec(l_hi),
                            pre_lo.data@[Chunk::<T, N>::idx_spec(l_lo)],
                        ));
                        Chunk::<T, N>::lemma_cells_update(
                            pre_lo.data@,
                            l_lo,
                            pre_hi.data@[Chunk::<T, N>::idx_spec(l_hi)],
                        );
                        Chunk::<T, N>::lemma_cells_update(
                            pre_hi.data@,
                            l_hi,
                            pre_lo.data@[Chunk::<T, N>::idx_spec(l_lo)],
                        );
                    }
                    lo_chunk.stain_point(l_lo);
                    hi_chunk.stain_point(l_hi);
                    self.chunks.insert(lo, (lo_coords, lo_chunk));
                    self.chunks.insert(hi, (hi_coords, hi_chunk));
                    proof {
                        assert(self.chunks@ =~= pre.update(
                            lo as int,
                            (lo_coords, lo_chunk),
                        ).update(hi as int, (hi_coords, hi_chunk)));
                        swap_cross_chunk_glue::<T, N>(
                            pre,
                            self.chunks@,
                            first,
                            second,
                            i as int,
                            j as int,
                        );
                    }
                    Ok(())
                },
                _ => Err(PowderkegError::SwapOutOfBounds { first: ca, second: cb }),
            }
        }
    }

    fn get_state(&self, point: Point) -> Result<SharedState<T::State>, PowderkegError<T::Error>> {
        let (c, l) = ChunkCoords::<N>::world_to_chunk_and_local(point);
        match self.find(c) {
            None => Err(PowderkegError::ChunkOutOfBounds(c)),
            Some(i) => {
                let chunk = &self.chunks[i].1;
                proof {
                    Self::lemma_seq_idx(self.chunks@, i as int);
                }
                match chunk.get_state(l) {
                    Ok(s) => Ok(s),
                    Err(_) => unreached(),
                }
            },
        }
    }

    fn covers(&self) -> (a: Area) {
        let n_chunks = self.chunks.len();
        let mut areas: Vec<Area> = Vec::new();
        let mut i: usize = 0;
        while i < n_chunks
            invariant
                self.wf(),
                0 <= i <= n_chunks,
                n_chunks == self.chunks@.len(),
                rects_of(areas@) =~= Seq::new(
                    i as nat,
                    |k: int| Self::world_rect(self.chunks@[k].0),
                ),
            decreases n_chunks - i,
        {
            let coords = self.chunks[i].0;
            let n_i32 = N as i32;
            let off = Point { x: coords.x * n_i32, y: coords.y * n_i32 };
            let rect = Rect { min: off, max: Point { x: off.x + (n_i32 - 1), y: off.y + (n_i32 - 1) } };
            let ghost pre_areas = areas@;
            areas.push(Area::Area(rect));
            proof {
                lemma_rects_of_app(pre_areas, seq![Area::Area(rect)]);
                lemma_rects_of_singleton(Area::Area(rect));
                assert(pre_areas + seq![Area::Area(rect)] =~= areas@);
                assert(rects_of(areas@) =~= Seq::new(
                    (i + 1) as nat,
                    |k: int| Self::world_rect(self.chunks@[k].0),
                ));
            }
            i += 1;
        }
        let a = Area::from_areas(areas);
        proof {
            assert forall|p: Point| #[trigger] a.contains_spec(p) <==> self.cells().dom().contains(
                p,
            ) by {
                if a.contains_spec(p) {
                    let k = choose|k: int|
                        0 <= k < a.rects().len() && #[trigger] a.rects()[k].contains_spec(p);
                    Self::lemma_world_rect_contains(self.chunks@[k].0, p);
                }
                if self.cells().dom().contains(p) {
                    let k = choose|k: int|
                        0 <= k < self.chunks@.len() && (#[trigger] self.chunks@[k]).0
                            == ChunkCoords::<N>::chunk_of(p);
                    Self::lemma_world_rect_contains(self.chunks@[k].0, p);
                    assert(a.rects()[k].contains_spec(p));
                }
            }
        }
        a
    }
}

impl<T: Cell, const N: usize> WorldGrid<T, N> {
    /// What staining a world rectangle does to one entry: entries whose
    /// lattice position falls in the rectangle's chunk range take the
    /// rectangle translated into their local space; the rest stay put.
    pub open spec fn stain_entry_ens(pre: Entry<T, N>, post: Entry<T, N>, area: Rect) -> bool {
        let cmin = ChunkCoords::<N>::chunk_of(area.min);
        let cmax = ChunkCoords::<N>::chunk_of(area.max);
        if cmin.x <= pre.0.x <= cmax.x && cmin.y <= pre.0.y <= cmax.y {
            post.0 == pre.0 && pre.1.stain_rect_ens(
                area.translate_spec(
                    Point {
                        x: (-(pre.0.x * (N as int))) as i32,
                        y: (-(pre.0.y * (N as int))) as i32,
                    },
                ),
                post.1,
            )
        } else {
            post == pre
        }
    }
}

/// Whether some rectangle of the list holds `p`.
pub open spec fn covered_by_rects(rs: Seq<Rect>, p: Point) -> bool {
    exists|k: int| 0 <= k < rs.len() && (#[trigger] rs[k]).contains_spec(p)
}

impl<T: Cell, const N: usize> WorldGrid<T, N> {
    /// Whether one of the first `i` entries holds `p` as a dirty point.
    pub open spec fn stained_up_to(chunks: Seq<Entry<T, N>>, i: int, p: Point) -> bool {
        exists|k: int|
            0 <= k < i && (#[trigger] chunks[k]).0 == ChunkCoords::<N>::chunk_of(p) && chunks[
                k
            ].1.stained_pts().contains(ChunkCoords::<N>::local_of(p))
    }
}

impl<T: Cell, const N: usize> Stainable for WorldGrid<T, N> {
    open spec fn stain_rect_ens(&self, area: Rect, post: Self) -> bool {
        post.chunks@.len() == self.chunks@.len() && (forall|i: int|
            0 <= i < self.chunks@.len() ==> Self::stain_entry_ens(
                #[trigger] self.chunks@[i],
                post.chunks@[i],
                area,
            ))
    }

    /// The union of the loaded chunks' clipped dirty regions, translated to
    /// world space.
    fn stained(&self) -> (a: Area) {
        let n_chunks = self.chunks.len();
        let mut areas: Vec<Area> = Vec::new();
        let mut i: usize = 0;
        while i < n_chunks
            invariant
                self.wf(),
                0 <= i <= n_chunks,
                n_chunks == self.chunks@.len(),
                forall|p: Point| #[trigger] covered_by_rects(rects_of(areas@), p)
                    == Self::stained_up_to(self.chunks@, i as int, p),
            decreases n_chunks - i,
        {
            let ghost pre_areas = areas@;
            let coords = self.chunks[i].0;
            let n_i32 = N as i32;
            match self.chunks[i].1.stain {
                None => {
                    proof {
                        assert(self.chunks@[i as int].1.stained_pts() =~= Set::<Point>::empty());
                    }
                },
                Some(s) => {
                    let clipped = s.intersect(Chunk::<T, N>::area());
                    if clipped.is_empty() {
                        proof {
                            assert forall|lq: Point|
                                !(#[trigger] self.chunks@[i as int].1.stained_pts().contains(
                                    lq,
                                )) by {
                                if Chunk::<T, N>::in_bounds(lq) && s.contains_spec(lq) {
                                    assert(clipped.contains_spec(lq));
                                }
                            }
                        }
                    } else {
                        let off = Point { x: coords.x * n_i32, y: coords.y * n_i32 };
                        let translated = clipped.translate(off);
                        areas.push(Area::Area(translated));
                        proof {
                            lemma_rects_of_app(pre_areas, seq![Area::Area(translated)]);
                            lemma_rects_of_singleton(Area::Area(translated));
                            assert(pre_areas + seq![Area::Area(translated)] =~= areas@);
                            assert(rects_of(areas@) =~= rects_of(pre_areas) + seq![translated]);
                            assert forall|p: Point| #[trigger] translated.contains_spec(p)
                                <==> (self.chunks@[i as int].0 == ChunkCoords::<N>::chunk_of(p)
                                && self.chunks@[i as int].1.stained_pts().contains(
                                ChunkCoords::<N>::local_of(p),
                            )) by {
                                Self::lemma_local_rect_to_world(coords, clipped, p);
                                Self::lemma_local_in_bounds(p);
                            }
                        }
                    }
                },
            }
            proof {
                let rs = rects_of(areas@);
                let pre_rs = rects_of(pre_areas);
                assert forall|p: Point| #[trigger] covered_by_rects(rs, p) == Self::stained_up_to(
                    self.chunks@,
                    i + 1,
                    p,
                ) by {
                    if covered_by_rects(rs, p) {
                        let k = choose|k: int|
                            0 <= k < rs.len() && (#[trigger] rs[k]).contains_spec(p);
                        if k < pre_rs.len() {
                            assert(pre_rs[k].contains_spec(p));
                            assert(covered_by_rects(pre_rs, p));
                            assert(Self::stained_up_to(self.chunks@, i as int, p));
                            let kk = choose|kk: int|
                                0 <= kk < i && (#[trigger] self.chunks@[kk]).0
                                    == ChunkCoords::<N>::chunk_of(p) && self.chunks@[
                                    kk
                                ].1.stained_pts().contains(ChunkCoords::<N>::local_of(p));
                            assert(Self::stained_up_to(self.chunks@, i + 1, p));
                        } else {
                            assert(Self::stained_up_to(self.chunks@, i + 1, p));
                        }
                    }
                    if Self::stained_up_to(self.chunks@, i + 1, p) {
                        let k = choose|k: int|
                            0 <= k < i + 1 && (#[trigger] self.chunks@[k]).0
                                == ChunkCoords::<N>::chunk_of(p) && self.chunks@[
                                k
                            ].1.stained_pts().contains(ChunkCoords::<N>::local_of(p));
                        if k < i {
                            assert(Self::stained_up_to(self.chunks@, i as int, p));
                            assert(covered_by_rects(pre_rs, p));
                            let kk = choose|kk: int|
                                0 <= kk < pre_rs.len() && (#[trigger] pre_rs[kk]).contains_spec(
                                    p,
                                );
                            assert(rs[kk].contains_spec(p));
                            assert(covered_by_rects(rs, p));
                        } else {
                            assert(rs[rs.len() - 1].contains_spec(p));
                            assert(covered_by_rects(rs, p));
                        }
                    }
                }
            }
            i += 1;
        }
        let a = Area::from_areas(areas);
        proof {
            assert forall|p: Point| #[trigger] a.contains_spec(p) <==> self.stained_pts().contains(
                p,
            ) by {
                if a.contains_spec(p) {
                    let k = choose|k: int|
                        0 <= k < a.rects().len() && #[trigger] a.rects()[k].contains_spec(p);
                    assert(covered_by_rects(rects_of(areas@), p));
                    let kk = choose|kk: int|
                        0 <= kk < n_chunks && (#[trigger] self.chunks@[kk]).0
                            == ChunkCoords::<N>::chunk_of(p) && self.chunks@[
                            kk
                        ].1.stained_pts().contains(ChunkCoords::<N>::local_of(p));
                    Self::lemma_seq_idx(self.chunks@, kk);
                }
                if self.stained_pts().contains(p) {
                    let c = ChunkCoords::<N>::chunk_of(p);
                    let k = Self::seq_idx(self.chunks@, c);
                    assert(0 <= k < self.chunks@.len() && self.chunks@[k].0 == c);
                    assert(Self::stained_up_to(self.chunks@, n_chunks as int, p));
                    assert(covered_by_rects(rects_of(areas@), p));
                    let kk = choose|kk: int|
                        0 <= kk < rects_of(areas@).len() && (#[trigger] rects_of(areas@)[
                            kk
                        ]).contains_spec(p);
                    assert(a.rects()[kk].contains_spec(p));
                }
            }
        }
        a
    }

    /// Splits the rectangle across every loaded chunk it touches.
    fn stain(&mut self, area: Rect) {
        let ghost pre = self.chunks@;
        let (cmin, _) = ChunkCoords::<N>::world_to_chunk_and_local(area.min);
        let (cmax, _) = ChunkCoords::<N>::world_to_chunk_and_local(area.max);
        let n_chunks = self.chunks.len();
        let mut i: usize = 0;
        while i < n_chunks
            invariant
                Self::seq_wf(self.chunks@),
                0 <= i <= n_chunks,
                n_chunks == pre.len(),
                self.chunks@.len() == pre.len(),
                valid_size(N),
                cmin == ChunkCoords::<N>::chunk_of(area.min),
                cmax == ChunkCoords::<N>::chunk_of(area.max),
                forall|k: int| i <= k < pre.len() ==> #[trigger] self.chunks@[k] == pre[k],
                forall|k: int|
                    0 <= k < i ==> Self::stain_entry_ens(#[trigger] pre[k], self.chunks@[k], area),
                Self::seq_cells(self.chunks@) == Self::seq_cells(pre),
            decreases n_chunks - i,
        {
            let coords = self.chunks[i].0;
            if cmin.x <= coords.x && coords.x <= cmax.x && cmin.y <= coords.y && coords.y
                <= cmax.y {
                let ghost snap = self.chunks@;
                let entry = self.chunks.remove(i);
                let coords2 = entry.0;
                let mut chunk = entry.1;
                let n_i32 = N as i32;
                let neg = Point { x: -(coords2.x * n_i32), y: -(coords2.y * n_i32) };
                let translated = area.translate(neg);
                chunk.stain(translated);
                self.chunks.insert(i, (coords2, chunk));
                proof {
                    assert(self.chunks@ =~= snap.update(i as int, (coords2, chunk)));
                    Self::lemma_seq_update(snap, self.chunks@, i as int);
                    Self::lemma_seq_idx(snap, i as int);
                    assert(Self::seq_cells(self.chunks@) =~= Self::seq_cells(snap)) by {
                        assert forall|q: Point|
                            Self::seq_cells(self.chunks@).dom().contains(q) implies Self::seq_cells(
                            self.chunks@,
                        )[q] == Self::seq_cells(snap)[q] by {
                            let cq = ChunkCoords::<N>::chunk_of(q);
                            if cq == snap[i as int].0 {
                                assert(Self::seq_idx(snap, cq) == i as int);
                            }
                        }
                    }
                }
            }
            i += 1;
        }
    }

    /// Stains one world point in whichever chunk holds it, if any is loaded.
    fn stain_point(&mut self, point: Point) {
        let (c, l) = ChunkCoords::<N>::world_to_chunk_and_local(point);
        match self.find(c) {
            None => {},
            Some(i) => {
                let ghost pre = self.chunks@;
                let entry = self.chunks.remove(i);
                let coords = entry.0;
                let mut chunk = entry.1;
                chunk.stain_point(l);
                self.chunks.insert(i, (coords, chunk));
                proof {
                    let post = self.chunks@;
                    assert(post =~= pre.update(i as int, (coords, chunk)));
                    Self::lemma_seq_update(pre, post, i as int);
                    assert(Self::seq_cells(post) =~= Self::seq_cells(pre)) by {
                        assert forall|q: Point|
                            Self::seq_cells(post).dom().contains(q) implies Self::seq_cells(
                            post,
                        )[q] == Self::seq_cells(pre)[q] by {
                            let cq = ChunkCoords::<N>::chunk_of(q);
                            if cq == pre[i as int].0 {
                                assert(Self::seq_idx(pre, cq) == i as int);
                            }
                        }
                    }
                    assert forall|k: int|
                        0 <= k < pre.len() implies (if (#[trigger] pre[k]).0 == c {
                        post[k].0 == pre[k].0 && pre[k].1.stain_point_ens(l, post[k].1)
                    } else {
                        post[k] == pre[k]
                    }) by {
                        if pre[k].0 == c && k != i {
                            Self::lemma_seq_idx(pre, k);
                            Self::lemma_seq_idx(pre, i as int);
                        }
                    }
                }
            },
        }
    }

    /// Forgets every chunk's stain.
    fn clear_stain(&mut self) {
        let ghost pre = self.chunks@;
        let n_chunks = self.chunks.len();
        let mut i: usize = 0;
        while i < n_chunks
            invariant
                Self::seq_wf(self.chunks@),
                0 <= i <= n_chunks,
                n_chunks == pre.len(),
                self.chunks@.len() == pre.len(),
                valid_size(N),
                forall|k: int| i <= k < pre.len() ==> #[trigger] self.chunks@[k] == pre[k],
                forall|k: int|
                    0 <= k < i ==> ((#[trigger] self.chunks@[k]).0 == pre[k].0 && self.chunks@[
                        k
                    ].1.stained_pts() == Set::<Point>::empty() && self.chunks@[k].1.state
                        == pre[k].1.state),
                Self::seq_cells(self.chunks@) == Self::seq_cells(pre),
            decreases n_chunks - i,
        {
            let ghost snap = self.chunks@;
            let entry = self.chunks.remove(i);
            let coords = entry.0;
            let mut chunk = entry.1;
            let ghost pre_chunk = chunk;
            chunk.clear_stain();
            proof {
                let origin = Point { x: 0, y: 0 };
                assert(Chunk::<T, N>::in_bounds(origin));
                assert(pre_chunk.cells().dom().contains(origin));
                assert(chunk.state_of(origin) == pre_chunk.state_of(origin));
                assert(chunk.state == pre_chunk.state);
            }
            self.chunks.insert(i, (coords, chunk));
            proof {
                assert(self.chunks@ =~= snap.update(i as int, (coords, chunk)));
                Self::lemma_seq_update(snap, self.chunks@, i as int);
                Self::lemma_seq_idx(snap, i as int);
                assert(Self::seq_cells(self.chunks@) =~= Self::seq_cells(snap)) by {
                    assert forall|q: Point|
                        Self::seq_cells(self.chunks@).dom().contains(q) implies Self::seq_cells(
                        self.chunks@,
                    )[q] == Self::seq_cells(snap)[q] by {
                        let cq = ChunkCoords::<N>::chunk_of(q);
                        if cq == snap[i as int].0 {
                            assert(Self::seq_idx(snap, cq) == i as int);
                        }
                    }
                }
            }
            i += 1;
        }
        proof {
            assert(Self::seq_stained(self.chunks@) =~= Set::<Point>::empty()) by {
                assert forall|p: Point|
                    !(#[trigger] Self::seq_stained(self.chunks@).contains(p)) by {
                    let c = ChunkCoords::<N>::chunk_of(p);
                    if Self::seq_has(self.chunks@, c) {
                        let k = Self::seq_idx(self.chunks@, c);
                        assert(0 <= k < self.chunks@.len() && self.chunks@[k].0 == c);
                    }
                }
            }
            assert forall|q: Point|
                Self::seq_cells(pre).dom().contains(q) implies #[trigger] Self::seq_cells(
                self.chunks@,
            ).dom().contains(q) && Self::seq_cells(self.chunks@).dom() == Self::seq_cells(
                pre,
            ).dom() && self.chunk_at(ChunkCoords::<N>::chunk_of(q)).state == pre[
                Self::seq_idx(pre, ChunkCoords::<N>::chunk_of(q))
            ].1.state by {
                let c = ChunkCoords::<N>::chunk_of(q);
                let k = Self::seq_idx(pre, c);
                assert(0 <= k < pre.len() && pre[k].0 == c);
                assert(self.chunks@[k].0 == c);
                assert(Self::seq_has(self.chunks@, c));
                let k2 = Self::seq_idx(self.chunks@, c);
                assert(0 <= k2 < self.chunks@.len() && self.chunks@[k2].0 == c);
                assert(pre[k2].0 == c);
                assert(k2 == k);
            }
        }
    }
}

/// Discharges the world-level swap contract for the cross-chunk case, from
/// the two chunks' own updates.
proof fn swap_cross_chunk_glue<T: Cell, const N: usize>(
    pre: Seq<Entry<T, N>>,
    post: Seq<Entry<T, N>>,
    first: Point,
    second: Point,
    i: int,
    j: int,
)
    requires
        WorldGrid::<T, N>::seq_wf(pre),
        0 <= i < pre.len(),
        0 <= j < pre.len(),
        i != j,
        pre[i].0 == ChunkCoords::<N>::chunk_of(first),
        pre[j].0 == ChunkCoords::<N>::chunk_of(second),
        post.len() == pre.len(),
        forall|k: int| 0 <= k < pre.len() && k != i && k != j ==> #[trigger] post[k] == pre[k],
        post[i].0 == pre[i].0,
        post[j].0 == pre[j].0,
        post[i].1.wf(),
        post[j].1.wf(),
        post[i].1.cells() == pre[i].1.cells().insert(
            ChunkCoords::<N>::local_of(first),
            pre[j].1.cells()[ChunkCoords::<N>::local_of(second)],
        ),
        post[j].1.cells() == pre[j].1.cells().insert(
            ChunkCoords::<N>::local_of(second),
            pre[i].1.cells()[ChunkCoords::<N>::local_of(first)],
        ),
        pre[i].1.stain_point_ens(ChunkCoords::<N>::local_of(first), post[i].1),
        pre[j].1.stain_point_ens(ChunkCoords::<N>::local_of(second), post[j].1),
    ensures
        WorldGrid::<T, N>::seq_wf(post),
        WorldGrid::<T, N>::seq_cells(post).dom() == WorldGrid::<T, N>::seq_cells(pre).dom(),
        WorldGrid::<T, N>::seq_cells(pre).dom().contains(first),
        WorldGrid::<T, N>::seq_cells(pre).dom().contains(second),
        WorldGrid::<T, N>::seq_cells(post) == WorldGrid::<T, N>::seq_cells(pre).insert(
            first,
            WorldGrid::<T, N>::seq_cells(pre)[second],
        ).insert(second, WorldGrid::<T, N>::seq_cells(pre)[first]),
        forall|k: int|
            0 <= k < pre.len() ==> (if (#[trigger] pre[k]).0 == ChunkCoords::<N>::chunk_of(first) {
                post[k].0 == pre[k].0 && pre[k].1.stain_point_ens(
                    ChunkCoords::<N>::local_of(first),
                    post[k].1,
                )
            } else if pre[k].0 == ChunkCoords::<N>::chunk_of(second) {
                post[k].0 == pre[k].0 && pre[k].1.stain_point_ens(
                    ChunkCoords::<N>::local_of(second),
                    post[k].1,
                )
            } else {
                post[k] == pre[k]
            }),
{
    let ca = ChunkCoords::<N>::chunk_of(first);
    let cb = ChunkCoords::<N>::chunk_of(second);
    let la = ChunkCoords::<N>::local_of(first);
    let lb = ChunkCoords::<N>::local_of(second);
    WorldGrid::<T, N>::lemma_seq_idx(pre, i);
    WorldGrid::<T, N>::lemma_seq_idx(pre, j);
    assert(ca != cb);
    assert forall|c: Point| #[trigger] WorldGrid::<T, N>::seq_has(post, c)
        == WorldGrid::<T, N>::seq_has(pre, c) by {
        if WorldGrid::<T, N>::seq_has(pre, c) {
            let k = choose|k: int| 0 <= k < pre.len() && (#[trigger] pre[k]).0 == c;
            assert(post[k].0 == c);
        }
        if WorldGrid::<T, N>::seq_has(post, c) {
            let k = choose|k: int| 0 <= k < post.len() && (#[trigger] post[k]).0 == c;
            assert(pre[k].0 == c);
        }
    }
    assert forall|k1: int, k2: int|
        0 <= k1 < post.len() && 0 <= k2 < post.len() && k1 != k2 implies (#[trigger] post[k1]).0
        != (#[trigger] post[k2]).0 by {
        assert(post[k1].0 == pre[k1].0);
        assert(post[k2].0 == pre[k2].0);
    }
    assert(WorldGrid::<T, N>::seq_wf(post));
    assert forall|c: Point| WorldGrid::<T, N>::seq_has(pre, c) implies #[trigger] WorldGrid::<
        T,
        N,
    >::seq_idx(post, c) == WorldGrid::<T, N>::seq_idx(pre, c) by {
        let k = WorldGrid::<T, N>::seq_idx(pre, c);
        assert(0 <= k < pre.len() && pre[k].0 == c);
        assert(post[k].0 == c);
        WorldGrid::<T, N>::lemma_seq_idx(pre, k);
        WorldGrid::<T, N>::lemma_seq_idx(post, k);
    }
    assert(WorldGrid::<T, N>::seq_cells(post).dom() =~= WorldGrid::<T, N>::seq_cells(pre).dom());
    lemma_mod_bound(first.x as int, N as int);
    lemma_mod_bound(first.y as int, N as int);
    lemma_mod_bound(second.x as int, N as int);
    lemma_mod_bound(second.y as int, N as int);
    assert(WorldGrid::<T, N>::seq_cells(pre).dom().contains(first));
    assert(WorldGrid::<T, N>::seq_cells(pre).dom().contains(second));
    assert(WorldGrid::<T, N>::seq_cells(post) =~= WorldGrid::<T, N>::seq_cells(pre).insert(
        first,
        WorldGrid::<T, N>::seq_cells(pre)[second],
    ).insert(second, WorldGrid::<T, N>::seq_cells(pre)[first])) by {
        assert forall|q: Point|
            WorldGrid::<T, N>::seq_cells(post).dom().contains(q) implies WorldGrid::<T, N>::seq_cells(
            post,
        )[q] == WorldGrid::<T, N>::seq_cells(pre).insert(
            first,
            WorldGrid::<T, N>::seq_cells(pre)[second],
        ).insert(second, WorldGrid::<T, N>::seq_cells(pre)[first])[q] by {
            let cq = ChunkCoords::<N>::chunk_of(q);
            let lq = ChunkCoords::<N>::local_of(q);
            let k = WorldGrid::<T, N>::seq_idx(pre, cq);
            if cq == ca {
                assert(k == i);
                if lq == la {
                    WorldGrid::<T, N>::lemma_coords_determine_point(q, first);
                } else {
                    assert(q != first && q != second);
                }
            } else if cq == cb {
                assert(k == j);
                if lq == lb {
                    WorldGrid::<T, N>::lemma_coords_determine_point(q, second);
                } else {
                    assert(q != first && q != second);
                }
            } else {
                assert(q != first && q != second);
            }
        }
    }
    assert forall|k: int|
        0 <= k < pre.len() implies (if (#[trigger] pre[k]).0 == ca {
        post[k].0 == pre[k].0 && pre[k].1.stain_point_ens(la, post[k].1)
    } else if pre[k].0 == cb {
        post[k].0 == pre[k].0 && pre[k].1.stain_point_ens(lb, post[k].1)
    } else {
        post[k] == pre[k]
    }) by {
        if pre[k].0 == ca && k != i {
            WorldGrid::<T, N>::lemma_seq_idx(pre, k);
        }
        if pre[k].0 == cb && k != j {
            WorldGrid::<T, N>::lemma_seq_idx(pre, k);
        }
    }
}

impl<T: Cell, const N: usize> WorldGrid<T, N> {
    /// A swap through the world view leaves the two cells exchanged and both
    /// world points dirty, whether the points share a chunk or not.
    pub proof fn lemma_world_swap_exchanges(pre: Self, a: Point, b: Point, post: Self)
        requires
            pre.wf(),
            pre.cells().dom().contains(a),
            pre.cells().dom().contains(b),
            post.cells() == pre.cells().insert(a, pre.cells()[b]).insert(b, pre.cells()[a]),
            pre.swap_stain_ens(a, b, post),
        ensures
            post.cells()[a] == pre.cells()[b],
            post.cells()[b] == pre.cells()[a],
            post.stained_pts().contains(a),
            post.stained_pts().contains(b),
    {
        let ca = ChunkCoords::<N>::chunk_of(a);
        let cb = ChunkCoords::<N>::chunk_of(b);
        let la = ChunkCoords::<N>::local_of(a);
        let lb = ChunkCoords::<N>::local_of(b);
        if a == b {
            assert(post.cells()[a] == pre.cells()[a]);
        }
        Self::lemma_local_in_bounds(a);
        Self::lemma_local_in_bounds(b);
        let ka = Self::seq_idx(pre.chunks@, ca);
        let kb = Self::seq_idx(pre.chunks@, cb);
        assert(0 <= ka < pre.chunks@.len() && pre.chunks@[ka].0 == ca);
        assert(0 <= kb < pre.chunks@.len() && pre.chunks@[kb].0 == cb);
        assert(post.chunks@[ka].0 == ca && post.chunks@[kb].0 == cb);
        assert forall|c: Point| Self::seq_has(pre.chunks@, c) implies #[trigger] Self::seq_has(
            post.chunks@,
            c,
        ) && Self::seq_idx(post.chunks@, c) == Self::seq_idx(pre.chunks@, c) by {
            let k = Self::seq_idx(pre.chunks@, c);
            assert(0 <= k < pre.chunks@.len() && pre.chunks@[k].0 == c);
            assert(post.chunks@[k].0 == pre.chunks@[k].0);
            assert(Self::seq_has(post.chunks@, c));
            let k2 = Self::seq_idx(post.chunks@, c);
            assert(0 <= k2 < post.chunks@.len() && post.chunks@[k2].0 == c);
            assert(pre.chunks@[k2].0 == post.chunks@[k2].0);
        }
        if ca == cb {
            assert(pre.chunks@[ka].1.swap_stain_ens(la, lb, post.chunks@[ka].1));
            assert(post.chunks@[ka].1.stained_pts().contains(la));
            assert(post.chunks@[ka].1.stained_pts().contains(lb));
        } else {
            assert(pre.chunks@[ka].1.stain_point_ens(la, post.chunks@[ka].1));
            assert(pre.chunks@[kb].1.stain_point_ens(lb, post.chunks@[kb].1));
            assert(post.chunks@[ka].1.stained_pts().contains(la));
            assert(post.chunks@[kb].1.stained_pts().contains(lb));
        }
        assert(Self::seq_has(pre.chunks@, ca) && Self::seq_has(pre.chunks@, cb));
        assert(Self::seq_has(post.chunks@, ca) && Self::seq_has(post.chunks@, cb));
        assert(Self::seq_idx(post.chunks@, ca) == ka);
        assert(Self::seq_idx(post.chunks@, cb) == kb);
    }
}

/// A non-fatal failure at one evaluated point, with its world coordinate.
pub struct SimulationError<E> {
    pub point: Point,
    pub error: PowderkegError<E>,
}

/// What the scheduler did with one point visited during a chunk's own phase.
pub enum PointOutcome<E> {
    /// The cell's translated reach escaped the chunk: nothing was evaluated,
    /// the chunk is untouched, and the carried world point was postponed to
    /// the serial cross-chunk pass.
    Deferred(Point),
    /// The cell was evaluated and settled; the scheduler re-stained nothing.
    Stable,
    /// The cell was evaluated and reported change; its origin was re-stained
    /// so it runs again next tick.
    Restained,
    /// The cell was evaluated and failed; the failure is carried out to the
    /// error log and evaluation goes on.
    Failed(PowderkegError<E>),
}

/// What the serial pass did with one deferred point.
pub enum SerialOutcome<E> {
    /// Part of the point's reach is not loaded: nothing was evaluated, the
    /// point was re-stained so it is retried once the missing chunk loads.
    Skipped,
    /// The cell was evaluated against the world view and settled.
    Stable,
    /// The cell was evaluated and reported change; the point was re-stained.
    Restained,
    /// The cell was evaluated and failed; the failure is carried out.
    Failed(PowderkegError<E>),
}

/// What one chunk's own phase of a tick hands back to the scheduler.
pub struct ChunkTickOutput<T: Cell, const N: usize> {
    /// World points whose reach escaped the chunk, postponed to the serial
    /// cross-chunk pass, in visit order.
    pub deferred: Vec<Point>,
    /// Failures of the cells evaluated locally, in visit order.
    pub errors: Vec<SimulationError<T::Error>>,
    /// The chunk's dirty region translated to world space, handed over only
    /// when it spills past the chunk's own bounds so the scheduler can
    /// forward the overflow to the neighbours.
    pub boundary: Option<Rect>,
    /// The visit trail: each previously dirty point once, with the chunk
    /// state it was visited against and what the scheduler did there.
    pub visits: Ghost<Seq<(Chunk<T, N>, Point, PointOutcome<T::Error>)>>,
}

/// The world point at `local` of the chunk at lattice position `coords`.
pub open spec fn world_of<const N: usize>(coords: Point, local: Point) -> Point {
    Point {
        x: (coords.x * (N as int) + local.x) as i32,
        y: (coords.y * (N as int) + local.y) as i32,
    }
}

/// A chunk whose stain was just cleared: same cells, nothing dirty.
pub open spec fn cleared_of<T: Cell, const N: usize>(pre: Chunk<T, N>, c: Chunk<T, N>) -> bool {
    &&& c.wf()
    &&& c.cells() == pre.cells()
    &&& c.stained_pts() == Set::<Point>::empty()
}

/// Exactly what one local visit does. A cell whose translated reach escapes
/// the chunk's bounds is never evaluated locally: the chunk stays untouched
/// and the visit comes out deferred under its world point. Otherwise the
/// cell's own `tick` runs once against the chunk (its effect bounded only by
/// its contract: well-formedness and the addressable domain are kept), and
/// the scheduler reacts: a cell reporting change has its origin re-stained,
/// a failing cell has its failure carried out, a settled cell gets nothing.
pub open spec fn local_visit_ens<T: Cell, const N: usize>(
    coords: Point,
    pre: Chunk<T, N>,
    point: Point,
    post: Chunk<T, N>,
    out: PointOutcome<T::Error>,
) -> bool {
    let range_t = pre.cells()[point].range_spec().translate_spec(point);
    let fits = Chunk::<T, N>::area_rect_spec().contains_spec(range_t.min) && Chunk::<
        T,
        N,
    >::area_rect_spec().contains_spec(range_t.max);
    &&& post.wf()
    &&& post.cells().dom() == pre.cells().dom()
    &&& if fits {
        match out {
            PointOutcome::Deferred(_) => false,
            PointOutcome::Stable => true,
            PointOutcome::Restained => post.stained_pts().contains(point),
            PointOutcome::Failed(_) => true,
        }
    } else {
        out == PointOutcome::<T::Error>::Deferred(world_of::<N>(coords, point)) && post == pre
    }
}

/// The visited points of a trail, in order.
pub open spec fn visited_points<T: Cell, const N: usize>(
    visits: Seq<(Chunk<T, N>, Point, PointOutcome<T::Error>)>,
) -> Seq<Point> {
    visits.map_values(|v: (Chunk<T, N>, Point, PointOutcome<T::Error>)| v.1)
}

/// The world points a trail deferred, in visit order.
pub open spec fn deferred_of<T: Cell, const N: usize>(
    visits: Seq<(Chunk<T, N>, Point, PointOutcome<T::Error>)>,
) -> Seq<Point>
    decreases visits.len(),
{
    if visits.len() == 0 {
        Seq::empty()
    } else {
        deferred_of(visits.drop_last()) + (match visits.last().2 {
            PointOutcome::Deferred(w) => seq![w],
            _ => Seq::empty(),
        })
    }
}

/// The failures a trail collected, in visit order, each under the world
/// translation of the point it struck.
pub open spec fn errors_of<T: Cell, const N: usize>(
    coords: Point,
    visits: Seq<(Chunk<T, N>, Point, PointOutcome<T::Error>)>,
) -> Seq<SimulationError<T::Error>>
    decreases visits.len(),
{
    if visits.len() == 0 {
        Seq::empty()
    } else {
        errors_of(coords, visits.drop_last()) + (match visits.last().2 {
            PointOutcome::Failed(e) => seq![
                SimulationError {
                    point: world_of::<N>(coords, visits.last().1),
                    error: e,
                },
            ],
            _ => Seq::empty(),
        })
    }
}

/// The visits run back to back: each against the state the previous one
/// left, the last one leaving `last_post`.
pub open spec fn local_visits_chain<T: Cell, const N: usize>(
    coords: Point,
    visits: Seq<(Chunk<T, N>, Point, PointOutcome<T::Error>)>,
    last_post: Chunk<T, N>,
) -> bool {
    forall|k: int|
        0 <= k < visits.len() ==> local_visit_ens(
            coords,
            (#[trigger] visits[k]).0,
            visits[k].1,
            if k + 1 < visits.len() {
                visits[k + 1].0
            } else {
                last_post
            },
            visits[k].2,
        )
}

/// The whole contract of a chunk's own phase: the dirty set is read and
/// cleared first; every previously dirty point — and nothing else — is then
/// visited exactly once, back to back, each visit behaving as
/// [`local_visit_ens`] says; the deferred points and failures handed back
/// are exactly the trail's, in visit order; and the final dirty region comes
/// back world-translated exactly when it spills past the chunk's bounds.
pub open spec fn tick_chunk_ens<T: Cell, const N: usize>(
    coords: Point,
    pre: Chunk<T, N>,
    post: Chunk<T, N>,
    out: ChunkTickOutput<T, N>,
) -> bool {
    let visits = out.visits@;
    &&& post.wf()
    &&& post.cells().dom() == pre.cells().dom()
    &&& visited_points(visits).no_duplicates()
    &&& forall|p: Point|
        #[trigger] visited_points(visits).contains(p) <==> pre.stained_pts().contains(p)
    &&& if visits.len() == 0 {
        cleared_of(pre, post)
    } else {
        cleared_of(pre, visits[0].0) && local_visits_chain(coords, visits, post)
    }
    &&& out.deferred@ == deferred_of(visits)
    &&& out.errors@ == errors_of(coords, visits)
    &&& forall|k: int|
        0 <= k < out.deferred@.len() ==> ChunkCoords::<N>::chunk_of(#[trigger] out.deferred@[k])
            == coords
    &&& match out.boundary {
        Some(b) => post.stain matches Some(s) && !(Chunk::<T, N>::area_rect_spec().contains_spec(
            s.min,
        ) && Chunk::<T, N>::area_rect_spec().contains_spec(s.max)) && b == s.translate_spec(
            Point { x: (coords.x * (N as int)) as i32, y: (coords.y * (N as int)) as i32 },
        ),
        None => post.stain matches Some(s) ==> Chunk::<T, N>::area_rect_spec().contains_spec(s.min)
            && Chunk::<T, N>::area_rect_spec().contains_spec(s.max),
    }
}

/// Visits one point of a chunk: evaluates the cell there when its translated
/// reach stays inside the chunk, defers it otherwise, and applies the
/// scheduler's reaction to the outcome.
pub fn evaluate_point<T: Cell, const N: usize>(
    coords: ChunkCoords<N>,
    chunk: &mut Chunk<T, N>,
    point: Point,
) -> (out: PointOutcome<T::Error>)
    requires
        old(chunk).wf(),
        ChunkCoords::<N>::offset_in_range(coords.0),
        Chunk::<T, N>::in_bounds(point),
    ensures
        local_visit_ens(coords.0, *old(chunk), point, *final(chunk), out),
{
    let area = Chunk::<T, N>::area();
    let range_t = {
        let cell = chunk.at(point);
        cell.range().translate(point)
    };
    if area.contains(range_t.min) && area.contains(range_t.max) {
        match T::tick(point, chunk) {
            Ok(TickSuccess::Unstable) => {
                chunk.stain_point(point);
                PointOutcome::Restained
            },
            Ok(TickSuccess::Stable) => PointOutcome::Stable,
            Err(error) => PointOutcome::Failed(error),
        }
    } else {
        let world = coords.local_to_world(point);
        PointOutcome::Deferred(world)
    }
}

/// Runs one chunk's own phase of a discrete tick: reads and clears the
/// stain, then visits each previously dirty point exactly once, in a freshly
/// randomized order, each visit per [`local_visit_ens`]. A dirty region that
/// spilled past the chunk's bounds is handed back, world-translated, for
/// forwarding to the neighbours.
#[verifier::rlimit(100)]
#[verifier::spinoff_prover]
pub fn tick_chunk<T: Cell, const N: usize>(
    coords: ChunkCoords<N>,
    chunk: &mut Chunk<T, N>,
    rng: &mut rand::rngs::ThreadRng,
) -> (out: ChunkTickOutput<T, N>)
    requires
        old(chunk).wf(),
        ChunkCoords::<N>::offset_in_range(coords.0),
    ensures
        tick_chunk_ens(coords.0, *old(chunk), *final(chunk), out),
{
    let stain0 = match chunk.stain {
        None => Area::Empty,
        Some(s) => Area::Area(s.intersect(Chunk::<T, N>::area())),
    };
    proof {
        assert forall|p: Point| #[trigger] stain0.contains_spec(p) <==> old(
            chunk,
        ).stained_pts().contains(p) by {
            if stain0 is Area {
                let clipped = stain0->Area_0;
                assert(stain0.rects()[0] == clipped);
                if old(chunk).stained_pts().contains(p) {
                    assert(clipped.contains_spec(p));
                    assert(stain0.rects()[0].contains_spec(p));
                }
            }
        }
    }
    chunk.clear_stain();
    let ghost cleared = *chunk;
    let points = stain0.apply_randomly(rng);
    proof {
        broadcast use vstd::seq_lib::group_to_multiset_ensures;

        assert forall|p: Point| points@.contains(p) <==> old(chunk).stained_pts().contains(
            p,
        ) by {
            if points@.contains(p) {
                assert(points@.to_multiset().count(p) > 0);
                assert(stain0.points_seq().contains(p));
                crate::area::lemma_points_seq_contains(stain0, p);
            }
            if old(chunk).stained_pts().contains(p) {
                crate::area::lemma_points_seq_contains(stain0, p);
                assert(stain0.points_seq().contains(p));
                assert(stain0.points_seq().to_multiset().count(p) > 0);
                assert(points@.to_multiset().count(p) > 0);
            }
        }
        assert(points@.no_duplicates()) by {
            if stain0 is Area {
                let clipped = stain0->Area_0;
                crate::area::lemma_points_of_singleton(clipped);
                assert(stain0.rects() =~= seq![clipped]);
                assert forall|p: Point|
                    points@.to_multiset().contains(p) implies points@.to_multiset().count(p)
                    == 1 by {
                    crate::area::lemma_rect_visited_exactly_once(clipped, p);
                }
                points@.lemma_multiset_has_no_duplicates_conv();
            } else {
                assert(stain0.points_seq() =~= Seq::<Point>::empty());
                assert(points@.to_multiset().len() == points@.len());
                assert(stain0.points_seq().to_multiset().len() == stain0.points_seq().len());
                assert(points@.len() == 0);
            }
        }
        assert forall|k: int| 0 <= k < points@.len() implies Chunk::<T, N>::in_bounds(
            #[trigger] points@[k],
        ) by {
            assert(points@.contains(points@[k]));
        }
    }
    let mut deferred: Vec<Point> = Vec::new();
    let mut errors: Vec<SimulationError<T::Error>> = Vec::new();
    let ghost mut visits: Seq<(Chunk<T, N>, Point, PointOutcome<T::Error>)> = Seq::empty();
    let n_points = points.len();
    let mut k: usize = 0;
    while k < n_points
        invariant
            chunk.wf(),
            valid_size(N),
            ChunkCoords::<N>::offset_in_range(coords.0),
            0 <= k <= n_points,
            n_points == points@.len(),
            forall|kk: int| 0 <= kk < points@.len() ==> Chunk::<T, N>::in_bounds(
                #[trigger] points@[kk],
            ),
            chunk.cells().dom() == cleared.cells().dom(),
            visits.len() == k,
            forall|kk: int| 0 <= kk < k ==> (#[trigger] visits[kk]).1 == points@[kk],
            k > 0 ==> visits[0].0 == cleared,
            k == 0 ==> *chunk == cleared,
            local_visits_chain(coords.0, visits, *chunk),
            deferred@ == deferred_of(visits),
            errors@ == errors_of(coords.0, visits),
        decreases n_points - k,
    {
        let point = points[k];
        let ghost pre_visit = *chunk;
        let ghost old_visits = visits;
        let outcome = evaluate_point(coords, chunk, point);
        proof {
            visits = visits.push((pre_visit, point, outcome));
            assert(visits.drop_last() =~= old_visits);
            assert forall|kk: int|
                0 <= kk < visits.len() implies local_visit_ens(
                coords.0,
                (#[trigger] visits[kk]).0,
                visits[kk].1,
                if kk + 1 < visits.len() {
                    visits[kk + 1].0
                } else {
                    *chunk
                },
                visits[kk].2,
            ) by {
                if kk + 1 < visits.len() {
                    assert(visits[kk].0 == old_visits[kk].0);
                }
            }
        }
        match outcome {
            PointOutcome::Deferred(world) => {
                deferred.push(world);
                proof {
                    ChunkCoords::<N>::lemma_local_world_roundtrip(coords.0, point);
                    assert(deferred@ =~= deferred_of(visits));
                    assert(errors@ =~= errors_of(coords.0, visits));
                }
            },
            PointOutcome::Failed(error) => {
                let world = coords.local_to_world(point);
                errors.push(SimulationError { point: world, error });
                proof {
                    assert(deferred@ =~= deferred_of(visits));
                    assert(errors@ =~= errors_of(coords.0, visits));
                }
            },
            PointOutcome::Stable => {
                proof {
                    assert(deferred@ =~= deferred_of(visits));
                    assert(errors@ =~= errors_of(coords.0, visits));
                }
            },
            PointOutcome::Restained => {
                proof {
                    assert(deferred@ =~= deferred_of(visits));
                    assert(errors@ =~= errors_of(coords.0, visits));
                }
            },
        }
        k += 1;
    }
    proof {
        assert(visited_points(visits) =~= points@);
        lemma_deferred_in_chunk::<T, N>(coords.0, visits);
    }
    let area = Chunk::<T, N>::area();
    let boundary = match chunk.stain {
        Some(s) => {
            if !(area.contains(s.min) && area.contains(s.max)) {
                let off = coords.offset();
                Some(s.translate(off))
            } else {
                None
            }
        },
        None => None,
    };
    ChunkTickOutput { deferred, errors, boundary, visits: Ghost(visits) }
}

/// Every point a trail defers maps back to the trail's own chunk.
proof fn lemma_deferred_in_chunk<T: Cell, const N: usize>(
    coords: Point,
    visits: Seq<(Chunk<T, N>, Point, PointOutcome<T::Error>)>,
)
    requires
        valid_size(N),
        ChunkCoords::<N>::offset_in_range(coords),
        forall|k: int| 0 <= k < visits.len() ==> Chunk::<T, N>::in_bounds(
            (#[trigger] visits[k]).1,
        ),
        forall|k: int|
            0 <= k < visits.len() ==> ((#[trigger] visits[k]).2 matches PointOutcome::Deferred(w)
                ==> w == world_of::<N>(coords, visits[k].1)),
    ensures
        forall|k: int|
            0 <= k < deferred_of(visits).len() ==> ChunkCoords::<N>::chunk_of(
                #[trigger] deferred_of(visits)[k],
            ) == coords,
    decreases visits.len(),
{
    if visits.len() > 0 {
        lemma_deferred_in_chunk::<T, N>(coords, visits.drop_last());
        match visits.last().2 {
            PointOutcome::Deferred(w) => {
                ChunkCoords::<N>::lemma_local_world_roundtrip(coords, visits.last().1);
                assert forall|k: int|
                    0 <= k < deferred_of(visits).len() implies ChunkCoords::<N>::chunk_of(
                    #[trigger] deferred_of(visits)[k],
                ) == coords by {
                    if k < deferred_of(visits.drop_last()).len() {
                        assert(deferred_of(visits)[k] == deferred_of(visits.drop_last())[k]);
                    } else {
                        assert(deferred_of(visits)[k] == w);
                    }
                }
            },
            _ => {
                assert(deferred_of(visits) =~= deferred_of(visits.drop_last()));
            },
        }
    }
}

/// Whether the whole rectangle lies inside the area.
fn area_contains(rect: Rect, area: &Area) -> (r: bool)
    ensures
        r == (forall|p: Point| #[trigger] rect.contains_spec(p) ==> area.contains_spec(p)),
{
    let min_x = rect.min.x as i64;
    let max_x = rect.max.x as i64;
    let min_y = rect.min.y as i64;
    let max_y = rect.max.y as i64;
    let mut x: i64 = min_x;
    while x <= max_x
        invariant
            min_x == rect.min.x as int && max_x == rect.max.x as int,
            min_y == rect.min.y as int && max_y == rect.max.y as int,
            min_x <= x <= max_x + 1 || (x == min_x && max_x < min_x),
            forall|p: Point| #[trigger] rect.contains_spec(p) && p.x < x ==> area.contains_spec(
                p,
            ),
        decreases max_x + 1 - x,
    {
        let mut y: i64 = min_y;
        while y <= max_y
            invariant
                min_x == rect.min.x as int && max_x == rect.max.x as int,
                min_y == rect.min.y as int && max_y == rect.max.y as int,
                min_x <= x <= max_x,
                min_y <= y <= max_y + 1 || (y == min_y && max_y < min_y),
                forall|p: Point| #[trigger] rect.contains_spec(p) && p.x < x
                    ==> area.contains_spec(p),
                forall|p: Point| #[trigger] rect.contains_spec(p) && p.x == x && p.y < y
                    ==> area.contains_spec(p),
            decreases max_y + 1 - y,
    {
            let p = Point { x: x as i32, y: y as i32 };
            if !area.contains(p) {
                proof {
                    assert(rect.contains_spec(p));
                }
                return false;
            }
            y += 1;
        }
        x += 1;
    }
    true
}

/// Exactly what the serial pass does with one deferred point. When the
/// point's translated reach lies fully inside the loaded region, the cell's
/// own `tick` runs once against the world view and the scheduler reacts as
/// in the local phase. When part of the reach is not loaded, nothing is
/// evaluated: the point is re-stained, so it stays dirty and is retried on a
/// later tick once the missing chunk loads.
pub open spec fn serial_visit_ens<T: Cell, const N: usize>(
    pre: WorldGrid<T, N>,
    point: Point,
    post: WorldGrid<T, N>,
    out: SerialOutcome<T::Error>,
) -> bool {
    let range_t = pre.cells()[point].range_spec().translate_spec(point);
    let covered = forall|q: Point| #[trigger] range_t.contains_spec(q)
        ==> pre.cells().dom().contains(q);
    &&& post.wf()
    &&& post.cells().dom() == pre.cells().dom()
    &&& if covered {
        match out {
            SerialOutcome::Skipped => false,
            SerialOutcome::Stable => true,
            SerialOutcome::Restained => post.stained_pts().contains(point),
            SerialOutcome::Failed(_) => true,
        }
    } else {
        &&& out is Skipped
        &&& post.cells() == pre.cells()
        &&& pre.stain_point_ens(point, post)
        &&& post.stained_pts().contains(point)
    }
}

/// One forwarded boundary rectangle applied to the world view: the cells
/// stay put and every loaded chunk the rectangle touches takes its stain.
pub open spec fn boundary_step<T: Cell, const N: usize>(
    pre: WorldGrid<T, N>,
    rect: Rect,
    post: WorldGrid<T, N>,
) -> bool {
    &&& post.wf()
    &&& post.cells() == pre.cells()
    &&& pre.stain_rect_ens(rect, post)
}

/// The failures of the serial outcomes, in processing order, each under the
/// deferred point it struck.
pub open spec fn serial_errors_of<E>(
    deferred: Seq<Point>,
    outs: Seq<SerialOutcome<E>>,
) -> Seq<SimulationError<E>>
    decreases outs.len(),
{
    if outs.len() == 0 {
        Seq::empty()
    } else {
        serial_errors_of(deferred, outs.drop_last()) + (match outs.last() {
            SerialOutcome::Failed(e) => seq![
                SimulationError { point: deferred[outs.len() - 1], error: e },
            ],
            _ => Seq::empty(),
        })
    }
}

/// The whole serial pass, spelled out state by state: first every forwarded
/// boundary rectangle is applied, in order; only then is each deferred point
/// visited, in order, per [`serial_visit_ens`]; the failures handed back are
/// exactly the visits' failures in processing order.
pub open spec fn serial_chain<T: Cell, const N: usize>(
    pre: WorldGrid<T, N>,
    deferred: Seq<Point>,
    boundary: Seq<Rect>,
    post: WorldGrid<T, N>,
    errors: Seq<SimulationError<T::Error>>,
    states: Seq<WorldGrid<T, N>>,
    outs: Seq<SerialOutcome<T::Error>>,
) -> bool {
    let b = boundary.len() as int;
    let d = deferred.len() as int;
    &&& states.len() == b + d + 1
    &&& states[0] == pre
    &&& states[b + d] == post
    &&& forall|k: int| 0 <= k < b ==> boundary_step(#[trigger] states[k], boundary[k], states[k + 1])
    &&& outs.len() == d
    &&& forall|j: int|
        0 <= j < d ==> serial_visit_ens(#[trigger] states[b + j], deferred[j], states[b + j + 1], outs[j])
    &&& errors == serial_errors_of(deferred, outs)
}

/// The serial pass's contract: some state chain and some outcome sequence
/// witness [`serial_chain`].
pub open spec fn serial_phase_ens<T: Cell, const N: usize>(
    pre: WorldGrid<T, N>,
    deferred: Seq<Point>,
    boundary: Seq<Rect>,
    post: WorldGrid<T, N>,
    errors: Seq<SimulationError<T::Error>>,
) -> bool {
    exists|states: Seq<WorldGrid<T, N>>, outs: Seq<SerialOutcome<T::Error>>|
        #[trigger] serial_chain(pre, deferred, boundary, post, errors, states, outs)
}

/// A world point stained through the view is dirty afterwards.
proof fn lemma_world_stain_point_stains<T: Cell, const N: usize>(
    pre: WorldGrid<T, N>,
    point: Point,
    post: WorldGrid<T, N>,
)
    requires
        pre.wf(),
        pre.cells().dom().contains(point),
        pre.stain_point_ens(point, post),
    ensures
        post.stained_pts().contains(point),
{
    let c = ChunkCoords::<N>::chunk_of(point);
    let l = ChunkCoords::<N>::local_of(point);
    WorldGrid::<T, N>::lemma_local_in_bounds(point);
    let k = WorldGrid::<T, N>::seq_idx(pre.chunks@, c);
    assert(0 <= k < pre.chunks@.len() && pre.chunks@[k].0 == c);
    assert(pre.chunks@[k].1.stain_point_ens(l, post.chunks@[k].1));
    assert(post.chunks@[k].1.stained_pts().contains(l));
    assert forall|kk: int|
        0 <= kk < post.chunks@.len() implies (#[trigger] post.chunks@[kk]).0
        == pre.chunks@[kk].0 by {}
    assert(WorldGrid::<T, N>::seq_has(post.chunks@, c));
    let k2 = WorldGrid::<T, N>::seq_idx(post.chunks@, c);
    assert(0 <= k2 < post.chunks@.len() && post.chunks@[k2].0 == c);
    assert(pre.chunks@[k2].0 == c);
    assert(k2 == k);
}

/// Runs the serial cross-chunk pass of one discrete step: applies the
/// forwarded boundary stains to whichever chunks they fall in, then
/// evaluates each deferred point against the whole world view wherever its
/// full reach is loaded, re-staining the origin of every unstable cell. A
/// point whose reach is not fully loaded is not evaluated: it is re-stained,
/// silently, so it stays dirty for a later tick. The failures come back in
/// deferred-point processing order.
#[verifier::rlimit(100)]
#[verifier::spinoff_prover]
pub fn serial_phase<T: Cell, const N: usize>(
    grid: &mut WorldGrid<T, N>,
    deferred: Vec<Point>,
    boundary: Vec<Rect>,
) -> (errors: Vec<SimulationError<T::Error>>)
    requires
        old(grid).wf(),
        forall|k: int|
            0 <= k < deferred@.len() ==> #[trigger] old(grid).cells().dom().contains(
                deferred@[k],
            ),
    ensures
        final(grid).wf(),
        final(grid).cells().dom() == old(grid).cells().dom(),
        serial_phase_ens(*old(grid), deferred@, boundary@, *final(grid), errors@),
{
    let mut errors: Vec<SimulationError<T::Error>> = Vec::new();
    proof {
        assert forall|k: int| 0 <= k < deferred@.len() implies #[trigger] WorldGrid::<
            T,
            N,
        >::seq_cells(grid.chunks@).dom().contains(deferred@[k]) by {
            assert(old(grid).cells().dom().contains(deferred@[k]));
        }
    }
    let ghost mut states: Seq<WorldGrid<T, N>> = seq![*grid];
    let ghost mut outs: Seq<SerialOutcome<T::Error>> = Seq::empty();
    let n_boundary = boundary.len();
    let mut bi: usize = 0;
    while bi < n_boundary
        invariant
            grid.wf(),
            0 <= bi <= n_boundary,
            n_boundary == boundary@.len(),
            states.len() == bi + 1,
            states[0] == *old(grid),
            states[bi as int] == *grid,
            forall|k: int|
                0 <= k < bi ==> boundary_step(#[trigger] states[k], boundary@[k], states[k + 1]),
            WorldGrid::<T, N>::seq_cells(grid.chunks@).dom() == WorldGrid::<T, N>::seq_cells(
                old(grid).chunks@,
            ).dom(),
            forall|k: int|
                0 <= k < deferred@.len() ==> #[trigger] WorldGrid::<T, N>::seq_cells(
                    grid.chunks@,
                ).dom().contains(deferred@[k]),
        decreases n_boundary - bi,
    {
        let rect = boundary[bi];
        grid.stain(rect);
        proof {
            states = states.push(*grid);
        }
        bi += 1;
    }
    let covers = grid.covers();
    let ghost g_mid = *grid;
    let n_deferred = deferred.len();
    let mut d: usize = 0;
    while d < n_deferred
        invariant
            grid.wf(),
            0 <= d <= n_deferred,
            n_deferred == deferred@.len(),
            n_boundary == boundary@.len(),
            states.len() == n_boundary + d + 1,
            states[0] == *old(grid),
            states[n_boundary + d] == *grid,
            forall|k: int|
                0 <= k < n_boundary ==> boundary_step(
                    #[trigger] states[k],
                    boundary@[k],
                    states[k + 1],
                ),
            outs.len() == d,
            forall|j: int|
                0 <= j < d ==> serial_visit_ens(
                    #[trigger] states[n_boundary + j],
                    deferred@[j],
                    states[n_boundary + j + 1],
                    outs[j],
                ),
            errors@ == serial_errors_of(deferred@, outs),
            WorldGrid::<T, N>::seq_cells(grid.chunks@).dom() == WorldGrid::<T, N>::seq_cells(
                old(grid).chunks@,
            ).dom(),
            WorldGrid::<T, N>::seq_cells(g_mid.chunks@).dom() == WorldGrid::<T, N>::seq_cells(
                old(grid).chunks@,
            ).dom(),
            forall|k: int|
                0 <= k < deferred@.len() ==> #[trigger] WorldGrid::<T, N>::seq_cells(
                    grid.chunks@,
                ).dom().contains(deferred@[k]),
            forall|p: Point| #[trigger] covers.contains_spec(p) <==> WorldGrid::<T, N>::seq_cells(
                g_mid.chunks@,
            ).dom().contains(p),
        decreases n_deferred - d,
    {
        let point = deferred[d];
        let ghost g_pre = *grid;
        let ghost old_outs = outs;
        let range_t = {
            let cell = grid.at(point);
            cell.range().translate(point)
        };
        let ghost covered = forall|q: Point| #[trigger] range_t.contains_spec(q)
            ==> g_pre.cells().dom().contains(q);
        let fully_covered = area_contains(range_t, &covers);
        proof {
            assert(fully_covered == covered) by {
                if fully_covered {
                    assert forall|q: Point| #[trigger] range_t.contains_spec(q) implies
                        g_pre.cells().dom().contains(q) by {
                        assert(covers.contains_spec(q));
                    }
                }
                if covered {
                    assert forall|q: Point| #[trigger] range_t.contains_spec(q) implies
                        covers.contains_spec(q) by {
                        assert(g_pre.cells().dom().contains(q));
                    }
                }
            }
        }
        if fully_covered {
            match T::tick(point, grid) {
                Ok(TickSuccess::Unstable) => {
                    let ghost g_tick = *grid;
                    grid.stain_point(point);
                    proof {
                        lemma_world_stain_point_stains(g_tick, point, *grid);
                        outs = outs.push(SerialOutcome::Restained);
                        states = states.push(*grid);
                    }
                },
                Ok(TickSuccess::Stable) => {
                    proof {
                        outs = outs.push(SerialOutcome::Stable);
                        states = states.push(*grid);
                    }
                },
                Err(error) => {
                    proof {
                        outs = outs.push(SerialOutcome::Failed(error));
                        states = states.push(*grid);
                    }
                    errors.push(SimulationError { point, error });
                },
            }
        } else {
            grid.stain_point(point);
            proof {
                lemma_world_stain_point_stains(g_pre, point, *grid);
                outs = outs.push(SerialOutcome::Skipped);
                states = states.push(*grid);
            }
        }
        proof {
            assert(outs.drop_last() =~= old_outs);
            assert(serial_visit_ens(g_pre, point, states[n_boundary + d + 1], outs[d as int]));
            assert(errors@ =~= serial_errors_of(deferred@, outs));
        }
        d += 1;
    }
    proof {
        assert(serial_chain(
            *old(grid),
            deferred@,
            boundary@,
            *grid,
            errors@,
            states,
            outs,
        ));
    }
    errors
}

/// The local-phase failures of a run of chunk outputs, chunk by chunk.
pub open spec fn local_errors_concat<T: Cell, const N: usize>(
    outs: Seq<ChunkTickOutput<T, N>>,
) -> Seq<SimulationError<T::Error>>
    decreases outs.len(),
{
    if outs.len() == 0 {
        Seq::empty()
    } else {
        local_errors_concat(outs.drop_last()) + outs.last().errors@
    }
}

/// The deferred points of a run of chunk outputs, chunk by chunk.
pub open spec fn deferred_concat<T: Cell, const N: usize>(
    outs: Seq<ChunkTickOutput<T, N>>,
) -> Seq<Point>
    decreases outs.len(),
{
    if outs.len() == 0 {
        Seq::empty()
    } else {
        deferred_concat(outs.drop_last()) + outs.last().deferred@
    }
}

/// The boundary rectangles of a run of chunk outputs, chunk by chunk.
pub open spec fn boundary_concat<T: Cell, const N: usize>(
    outs: Seq<ChunkTickOutput<T, N>>,
) -> Seq<Rect>
    decreases outs.len(),
{
    if outs.len() == 0 {
        Seq::empty()
    } else {
        boundary_concat(outs.drop_last()) + (match outs.last().boundary {
            Some(b) => seq![b],
            None => Seq::empty(),
        })
    }
}

/// One discrete step, spelled out: every chunk underwent its own phase per
/// [`tick_chunk_ens`], position kept, giving the intermediate view `mid`;
/// the serial pass then ran over `mid` with exactly the chunks' deferred
/// points and boundary rectangles, chunk by chunk in order; the errors are
/// the chunks' local failures, chunk by chunk, followed by the serial
/// pass's.
pub open spec fn step_split<T: Cell, const N: usize>(
    pre: WorldGrid<T, N>,
    outs: Seq<ChunkTickOutput<T, N>>,
    mid: WorldGrid<T, N>,
    post: WorldGrid<T, N>,
    errors: Seq<SimulationError<T::Error>>,
) -> bool {
    let local_errors = local_errors_concat(outs);
    &&& outs.len() == pre.chunks@.len()
    &&& mid.chunks@.len() == pre.chunks@.len()
    &&& mid.wf()
    &&& forall|i: int|
        0 <= i < pre.chunks@.len() ==> (#[trigger] mid.chunks@[i]).0 == pre.chunks@[i].0
    &&& forall|i: int|
        0 <= i < pre.chunks@.len() ==> tick_chunk_ens(
            pre.chunks@[i].0,
            pre.chunks@[i].1,
            (#[trigger] mid.chunks@[i]).1,
            outs[i],
        )
    &&& local_errors.len() <= errors.len()
    &&& errors.take(local_errors.len() as int) == local_errors
    &&& serial_phase_ens(
        mid,
        deferred_concat(outs),
        boundary_concat(outs),
        post,
        errors.skip(local_errors.len() as int),
    )
}

/// The step's contract: some run of per-chunk outputs and some intermediate
/// view witness [`step_split`].
pub open spec fn step_ens<T: Cell, const N: usize>(
    pre: WorldGrid<T, N>,
    post: WorldGrid<T, N>,
    errors: Seq<SimulationError<T::Error>>,
) -> bool {
    exists|outs: Seq<ChunkTickOutput<T, N>>, mid: WorldGrid<T, N>|
        #[trigger] step_split(pre, outs, mid, post, errors)
}

/// Runs one discrete simulation step over the world view: every chunk's own
/// phase first (each against its own bounds only), then the boundary-stain
/// forwarding, then the serial pass evaluating the deferred points against
/// the stitched view wherever their whole reach is loaded. A deferred point
/// whose reach is not fully loaded is re-stained and left for a later tick.
/// The collected failures come back in order: each chunk's own failures
/// first, then the serial pass's in processing order.
#[verifier::rlimit(100)]
#[verifier::spinoff_prover]
pub fn step<T: Cell, const N: usize>(
    grid: &mut WorldGrid<T, N>,
    rng: &mut rand::rngs::ThreadRng,
) -> (errors: Vec<SimulationError<T::Error>>)
    requires
        old(grid).wf(),
    ensures
        final(grid).wf(),
        final(grid).cells().dom() == old(grid).cells().dom(),
        step_ens(*old(grid), *final(grid), errors@),
{
    let ghost pre = grid.chunks@;
    let mut deferred: Vec<Point> = Vec::new();
    let mut errors: Vec<SimulationError<T::Error>> = Vec::new();
    let mut boundary: Vec<Rect> = Vec::new();
    let ghost mut outs: Seq<ChunkTickOutput<T, N>> = Seq::empty();
    let n_chunks = grid.chunks.len();
    let mut i: usize = 0;
    while i < n_chunks
        invariant
            WorldGrid::<T, N>::seq_wf(grid.chunks@),
            0 <= i <= n_chunks,
            n_chunks == pre.len(),
            grid.chunks@.len() == pre.len(),
            outs.len() == i,
            forall|k: int| i <= k < pre.len() ==> #[trigger] grid.chunks@[k] == pre[k],
            forall|k: int| 0 <= k < pre.len() ==> (#[trigger] grid.chunks@[k]).0 == pre[k].0,
            forall|k: int|
                0 <= k < i ==> tick_chunk_ens(
                    pre[k].0,
                    pre[k].1,
                    (#[trigger] grid.chunks@[k]).1,
                    outs[k],
                ),
            deferred@ == deferred_concat(outs),
            errors@ == local_errors_concat(outs),
            boundary@ == boundary_concat(outs),
            WorldGrid::<T, N>::seq_cells(grid.chunks@).dom() == WorldGrid::<T, N>::seq_cells(
                pre,
            ).dom(),
            forall|k: int|
                0 <= k < deferred@.len() ==> #[trigger] WorldGrid::<T, N>::seq_cells(
                    grid.chunks@,
                ).dom().contains(deferred@[k]),
        decreases n_chunks - i,
    {
        let ghost snap = grid.chunks@;
        let entry = grid.chunks.remove(i);
        let coords = entry.0;
        let mut chunk = entry.1;
        let mut out = tick_chunk(ChunkCoords::<N>(coords), &mut chunk, rng);
        grid.chunks.insert(i, (coords, chunk));
        let ghost out_snapshot = out;
        let ghost old_outs = outs;
        proof {
            assert(grid.chunks@ =~= snap.update(i as int, (coords, chunk)));
            WorldGrid::<T, N>::lemma_seq_update(snap, grid.chunks@, i as int);
            WorldGrid::<T, N>::lemma_seq_idx(grid.chunks@, i as int);
            assert forall|k: int| 0 <= k < out.deferred@.len() implies #[trigger] WorldGrid::<
                T,
                N,
            >::seq_cells(grid.chunks@).dom().contains(out.deferred@[k]) by {
                assert(ChunkCoords::<N>::chunk_of(out.deferred@[k]) == coords);
                assert(grid.chunks@[i as int].0 == coords);
                assert(WorldGrid::<T, N>::seq_has(grid.chunks@, coords));
            }
            outs = outs.push(out_snapshot);
            assert(outs.drop_last() =~= old_outs);
        }
        deferred.append(&mut out.deferred);
        errors.append(&mut out.errors);
        match out.boundary {
            Some(b) => boundary.push(b),
            None => {},
        }
        proof {
            assert(deferred@ =~= deferred_concat(outs));
            assert(errors@ =~= local_errors_concat(outs));
            assert(boundary@ =~= boundary_concat(outs));
        }
        i += 1;
    }
    let ghost g_mid = *grid;
    let ghost local_errors = errors@;
    let serial_errors = serial_phase(grid, deferred, boundary);
    let mut serial_errors = serial_errors;
    let ghost serial_errors_view = serial_errors@;
    errors.append(&mut serial_errors);
    proof {
        assert(errors@.take(local_errors.len() as int) =~= local_errors);
        assert(errors@.skip(local_errors.len() as int) =~= serial_errors_view);
        assert(step_split(*old(grid), outs, g_mid, *grid, errors@));
    }
    errors
}

/// The scale of the virtual-tick accumulator: this many accumulator units
/// make one discrete step.
pub const TICKS_PER_STEP: u64 = 1000000;

/// The virtual-tick accumulator deciding, frame by frame, whether a discrete
/// step is owed. It counts in units of one millionth of a tick, so a tick
/// rate and an elapsed time only need converting once, at the edge.
pub struct TickAccumulator {
    /// Accumulated virtual ticks, scaled by [`TICKS_PER_STEP`].
    pub ticks: u64,
}

impl TickAccumulator {
    pub fn new() -> (r: Self)
        ensures
            r.ticks == 0,
    {
        TickAccumulator { ticks: 0 }
    }

    /// Adds one frame's worth of virtual ticks and reports whether a
    /// discrete step must run now. At most one step runs per frame: when one
    /// does, the accumulator drops by a whole step and is then clamped back
    /// into one step's range, so backlog beyond one step is discarded rather
    /// than paid off later.
    pub fn advance(&mut self, amount: u64) -> (run: bool)
        ensures
            ({
                let gained: int = if old(self).ticks + amount > u64::MAX {
                    u64::MAX as int
                } else {
                    old(self).ticks + amount
                };
                if gained >= TICKS_PER_STEP {
                    run && final(self).ticks == (if gained - TICKS_PER_STEP < TICKS_PER_STEP {
                        gained - TICKS_PER_STEP
                    } else {
                        TICKS_PER_STEP as int
                    })
                } else {
                    !run && final(self).ticks == gained
                }
            }),
    {
        self.ticks = self.ticks.saturating_add(amount);
        if self.ticks >= TICKS_PER_STEP {
            let rest = self.ticks - TICKS_PER_STEP;
            self.ticks = if rest < TICKS_PER_STEP {
                rest
            } else {
                TICKS_PER_STEP
            };
            true
        } else {
            false
        }
    }
}

} // verus!
