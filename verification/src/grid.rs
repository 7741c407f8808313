//! The addressing capability every grid view offers.
//!
//! [`Grid`] is implemented both by a single chunk (local coordinates) and by
//! a world view stitching several chunks together (world coordinates). Its
//! model is a partial map from points to cells plus a dirty set; each
//! implementor also fixes, through the spec members, which error it reports
//! for an unreachable point and how its dirty region reshapes when a point
//! is stained.

use vstd::prelude::*;
use vstd::pervasive::unreached;
use crate::PowderkegError;
use crate::area::Area;
use crate::lock::SharedState;
use crate::math::{Point, Rect};

verus! {

pub trait Grid: Sized {
    /// The cell value this view holds.
    type Cell;

    /// The auxiliary state kind the cells share.
    type State;

    /// The error kind of the cells' own logic.
    type Error;

    /// The view's internal invariant; every operation assumes and keeps it.
    spec fn wf(&self) -> bool;

    /// The cell at each addressable point.
    spec fn cells(&self) -> Map<Point, Self::Cell>;

    /// The points marked dirty, clipped to the addressable region.
    spec fn stained_pts(&self) -> Set<Point>;

    /// The error reported for a point outside the addressable region.
    spec fn miss_error(&self, point: Point) -> PowderkegError<Self::Error>;

    /// The shared auxiliary-state handle behind an addressable point.
    spec fn state_of(&self, point: Point) -> SharedState<Self::State>;

    /// The error reported when a swap cannot reach both points.
    spec fn swap_miss_error(&self, first: Point, second: Point) -> PowderkegError<
        Self::Error,
    >;

    /// How the dirty region (and nothing else but the cells) reshapes when
    /// `point` is stained.
    spec fn stain_point_ens(&self, point: Point, post: Self) -> bool;

    /// How the dirty region reshapes when both endpoints of a swap are
    /// stained.
    spec fn swap_stain_ens(&self, first: Point, second: Point, post: Self) -> bool;

    fn get(&self, point: Point) -> (r: Result<
        &Self::Cell,
        PowderkegError<Self::Error>,
    >)
        requires
            self.wf(),
        ensures
            match r {
                Ok(c) => self.cells().dom().contains(point) && *c == self.cells()[point],
                Err(e) => !self.cells().dom().contains(point) && e == self.miss_error(point),
            },
    ;

    /// Exchanges the cells at the two points and stains both.
    fn swap(&mut self, first: Point, second: Point) -> (r: Result<
        (),
        PowderkegError<Self::Error>,
    >)
        requires
            old(self).wf(),
        ensures
            final(self).wf(),
            final(self).cells().dom() == old(self).cells().dom(),
            match r {
                Ok(_) => old(self).cells().dom().contains(first) && old(
                    self,
                ).cells().dom().contains(second) && final(self).cells() == old(
                    self,
                ).cells().insert(first, old(self).cells()[second]).insert(
                    second,
                    old(self).cells()[first],
                ) && old(self).swap_stain_ens(first, second, *final(self)),
                Err(e) => *final(self) == *old(self) && !(old(self).cells().dom().contains(first)
                    && old(self).cells().dom().contains(second)) && e == old(self).swap_miss_error(
                    first,
                    second,
                ),
            },
    ;

    /// A shared handle to the auxiliary state backing `point`.
    fn get_state(&self, point: Point) -> (r: Result<
        SharedState<Self::State>,
        PowderkegError<Self::Error>,
    >)
        requires
            self.wf(),
        ensures
            r matches Ok(h) ==> self.cells().dom().contains(point) && h == self.state_of(point),
            r matches Err(e) ==> !self.cells().dom().contains(point) && e == self.miss_error(
                point,
            ),
    ;

    /// The region this view can address.
    fn covers(&self) -> (a: Area)
        requires
            self.wf(),
        ensures
            forall|p: Point| #[trigger] a.contains_spec(p) <==> self.cells().dom().contains(p),
    ;

    /// Puts `cell` at `point`, staining it, and hands back what was there.
    /// Together with `swap` this is the mutation path: a cell value is
    /// replaced wholesale, never edited in place by callers outside its
    /// own grid view.
    fn replace(&mut self, point: Point, cell: Self::Cell) -> (r: Result<
        Self::Cell,
        PowderkegError<Self::Error>,
    >)
        requires
            old(self).wf(),
        ensures
            final(self).wf(),
            final(self).cells().dom() == old(self).cells().dom(),
            match r {
                Ok(prev) => old(self).cells().dom().contains(point) && prev == old(self).cells()[
                    point
                ] && final(self).cells() == old(self).cells().insert(point, cell) && old(
                    self,
                ).stain_point_ens(point, *final(self)),
                Err(e) => *final(self) == *old(self) && !old(self).cells().dom().contains(point)
                    && e == old(self).miss_error(point),
            },
    ;

    /// Reads the cell at `point` through `f`.
    fn map<U, F: FnOnce(&Self::Cell) -> U>(&self, point: Point, f: F) -> (r: Result<
        U,
        PowderkegError<Self::Error>,
    >)
        requires
            self.wf(),
            self.cells().dom().contains(point) ==> f.requires((&self.cells()[point],)),
        ensures
            match r {
                Ok(u) => self.cells().dom().contains(point) && f.ensures(
                    (&self.cells()[point],),
                    u,
                ),
                Err(e) => !self.cells().dom().contains(point) && e == self.miss_error(point),
            },
    {
        match self.get(point) {
            Ok(c) => Ok(f(c)),
            Err(e) => Err(e),
        }
    }

    /// The cell at a point the caller has already shown to be addressable.
    fn at(&self, point: Point) -> (r: &Self::Cell)
        requires
            self.wf(),
            self.cells().dom().contains(point),
        ensures
            *r == self.cells()[point],
    {
        match self.get(point) {
            Ok(c) => c,
            Err(_) => unreached(),
        }
    }

    /// The state handle behind a point the caller has already shown to be
    /// addressable.
    fn state_at(&self, point: Point) -> (r: SharedState<Self::State>)
        requires
            self.wf(),
            self.cells().dom().contains(point),
        ensures
            r == self.state_of(point),
    {
        match self.get_state(point) {
            Ok(s) => s,
            Err(_) => unreached(),
        }
    }
}

/// The dirty-region capability of a grid view.
pub trait Stainable: Grid {
    /// How the dirty region reshapes when the rectangle `area` is stained.
    spec fn stain_rect_ens(&self, area: Rect, post: Self) -> bool;

    /// The dirty region, clipped to the addressable bounds.
    fn stained(&self) -> (a: Area)
        requires
            self.wf(),
        ensures
            forall|p: Point| #[trigger] a.contains_spec(p) <==> self.stained_pts().contains(p),
    ;

    /// Grows the dirty region by a rectangle.
    fn stain(&mut self, area: Rect)
        requires
            old(self).wf(),
        ensures
            final(self).wf(),
            final(self).cells() == old(self).cells(),
            old(self).stain_rect_ens(area, *final(self)),
    ;

    /// Grows the dirty region by one point.
    fn stain_point(&mut self, point: Point)
        requires
            old(self).wf(),
        ensures
            final(self).wf(),
            final(self).cells() == old(self).cells(),
            old(self).stain_point_ens(point, *final(self)),
    ;

    /// Forgets every stain: nothing is dirty afterwards. The cells and the
    /// shared state handles stay put.
    fn clear_stain(&mut self)
        requires
            old(self).wf(),
        ensures
            final(self).wf(),
            final(self).cells() == old(self).cells(),
            final(self).stained_pts() == Set::<Point>::empty(),
            forall|q: Point|
                old(self).cells().dom().contains(q) ==> #[trigger] final(self).state_of(q) == old(
                    self,
                ).state_of(q),
    ;

    /// Stains the square reaching `radius` cells out from `point`.
    fn stain_around(&mut self, point: Point, radius: i32)
        requires
            old(self).wf(),
            radius >= 0,
        ensures
            final(self).wf(),
            final(self).cells() == old(self).cells(),
            old(self).stain_rect_ens(
                Rect {
                    min: point.sat_offset_spec(Point { x: (-radius) as i32, y: (-radius) as i32 }),
                    max: point.sat_offset_spec(Point { x: radius, y: radius }),
                },
                *final(self),
            ),
    {
        self.stain(Rect::from_center_half_size(point, radius))
    }

    /// Whether `point` is marked dirty.
    fn is_stained(&self, point: Point) -> (r: bool)
        requires
            self.wf(),
        ensures
            r == self.stained_pts().contains(point),
    {
        self.stained().contains(point)
    }
}

} // verus!
