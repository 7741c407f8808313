//! The dirty-region algebra.
//!
//! An [`Area`] is a possibly-empty, possibly-disjoint region of the integer
//! grid, held as zero, one or many rectangles. Union is append-only: the
//! rectangles need not be disjoint or minimal. Traversal enumerates every
//! point of every constituent rectangle, row by row within each rectangle.

use vstd::prelude::*;
use vstd::arithmetic::div_mod::{
    lemma_fundamental_div_mod, lemma_fundamental_div_mod_converse, lemma_mod_bound,
    lemma_div_pos_is_pos,
};
use crate::math::{Point, Rect};
use crate::rng::shuffle_points;

verus! {

/// A region of the grid: no rectangle, one, or many.
#[derive(Clone, Debug)]
pub enum Area {
    Empty,
    Area(Rect),
    Many(Vec<Rect>),
}

/// How many columns a non-empty rectangle spans.
pub open spec fn rect_w(r: Rect) -> int {
    r.max.x - r.min.x + 1
}

/// How many rows a non-empty rectangle spans.
pub open spec fn rect_h(r: Rect) -> int {
    r.max.y - r.min.y + 1
}

/// Every point of `r` in row-major order: the `k`-th point sits `k % width`
/// columns and `k / width` rows past the lower corner.
pub open spec fn rect_points(r: Rect) -> Seq<Point> {
    if r.is_empty_spec() {
        Seq::empty()
    } else {
        Seq::new(
            (rect_h(r) * rect_w(r)) as nat,
            |k: int|
                Point {
                    x: (r.min.x + k % rect_w(r)) as i32,
                    y: (r.min.y + k / rect_w(r)) as i32,
                },
        )
    }
}

/// The row-major points of each rectangle in turn.
pub open spec fn points_of(rs: Seq<Rect>) -> Seq<Point>
    decreases rs.len(),
{
    if rs.len() == 0 {
        Seq::empty()
    } else {
        rect_points(rs[0]) + points_of(rs.drop_first())
    }
}

/// A single rectangle's traversal is that rectangle's row-major points.
pub proof fn lemma_points_of_singleton(r: Rect)
    ensures
        points_of(seq![r]) == rect_points(r),
{
    assert(seq![r].drop_first() =~= Seq::<Rect>::empty());
    assert(points_of(Seq::<Rect>::empty()) =~= Seq::<Point>::empty());
    assert(points_of(seq![r]) =~= rect_points(r));
}

/// Concatenation distributes over the traversal order.
pub proof fn lemma_points_of_app(a: Seq<Rect>, b: Seq<Rect>)
    ensures
        points_of(a + b) == points_of(a) + points_of(b),
    decreases a.len(),
{
    if a.len() == 0 {
        assert(a + b =~= b);
        assert(points_of(a) + points_of(b) =~= points_of(b));
    } else {
        assert((a + b).drop_first() =~= a.drop_first() + b);
        lemma_points_of_app(a.drop_first(), b);
        assert(points_of(a + b) =~= points_of(a) + points_of(b));
    }
}

/// Each index of the row-major enumeration lands inside the rectangle.
pub proof fn lemma_rect_points_index(r: Rect, k: int)
    requires
        !r.is_empty_spec(),
        0 <= k < rect_h(r) * rect_w(r),
    ensures
        r.contains_spec(rect_points(r)[k]),
        rect_points(r)[k].x == r.min.x + k % rect_w(r),
        rect_points(r)[k].y == r.min.y + k / rect_w(r),
{
    let w = rect_w(r);
    let h = rect_h(r);
    lemma_mod_bound(k, w);
    lemma_div_pos_is_pos(k, w);
    lemma_fundamental_div_mod(k, w);
    assert(k / w < h) by (nonlinear_arith)
        requires
            k < h * w,
            w > 0,
            k == w * (k / w) + k % w,
            0 <= k % w < w,
            0 <= k / w,
    ;
}

/// The row-major enumeration reaches a point if and only if the rectangle
/// holds it.
pub proof fn lemma_rect_points_contains(r: Rect, p: Point)
    ensures
        rect_points(r).contains(p) <==> r.contains_spec(p),
{
    let w = rect_w(r);
    let h = rect_h(r);
    if r.contains_spec(p) {
        let k = (p.y - r.min.y) * w + (p.x - r.min.x);
        assert(0 <= k < h * w) by (nonlinear_arith)
            requires
                k == (p.y - r.min.y) * w + (p.x - r.min.x),
                0 <= p.y - r.min.y < h,
                0 <= p.x - r.min.x < w,
                w > 0,
        ;
        lemma_fundamental_div_mod_converse(k, w, p.y - r.min.y, p.x - r.min.x);
        assert(rect_points(r)[k] == p);
        assert(rect_points(r).contains(p));
    }
    if rect_points(r).contains(p) {
        let k = choose|k: int| 0 <= k < rect_points(r).len() && rect_points(r)[k] == p;
        lemma_rect_points_index(r, k);
    }
}

/// No point appears twice in one rectangle's enumeration.
pub proof fn lemma_rect_points_no_dup(r: Rect)
    ensures
        rect_points(r).no_duplicates(),
{
    let s = rect_points(r);
    let w = rect_w(r);
    assert forall|i: int, j: int| 0 <= i < s.len() && 0 <= j < s.len() && i != j implies s[i]
        != s[j] by {
        if !r.is_empty_spec() {
            lemma_rect_points_index(r, i);
            lemma_rect_points_index(r, j);
            if s[i] == s[j] {
                lemma_fundamental_div_mod(i, w);
                lemma_fundamental_div_mod(j, w);
                assert(i == j);
            }
        }
    }
}

/// A rectangle's enumeration visits each of its points exactly once, and no
/// other point at all.
pub proof fn lemma_rect_visited_exactly_once(r: Rect, p: Point)
    ensures
        rect_points(r).to_multiset().count(p) == if r.contains_spec(p) {
            1nat
        } else {
            0nat
        },
{
    broadcast use vstd::seq_lib::group_to_multiset_ensures;

    lemma_rect_points_contains(r, p);
    lemma_rect_points_no_dup(r);
    rect_points(r).lemma_multiset_has_no_duplicates();
    if !r.contains_spec(p) {
        assert(!rect_points(r).contains(p));
        assert(rect_points(r).to_multiset().count(p) == 0);
    } else {
        assert(rect_points(r).to_multiset().contains(p));
    }
}

/// The traversal of a rectangle list reaches a point if and only if some
/// rectangle holds it.
pub proof fn lemma_points_of_contains(rs: Seq<Rect>, p: Point)
    ensures
        points_of(rs).contains(p) <==> exists|i: int|
            0 <= i < rs.len() && #[trigger] rs[i].contains_spec(p),
    decreases rs.len(),
{
    if rs.len() > 0 {
        lemma_rect_points_contains(rs[0], p);
        lemma_points_of_contains(rs.drop_first(), p);
        if points_of(rs).contains(p) {
            let k = choose|k: int|
                0 <= k < points_of(rs).len() && points_of(rs)[k] == p;
            if k < rect_points(rs[0]).len() {
                assert(rect_points(rs[0]).contains(p));
                assert(rs[0].contains_spec(p));
            } else {
                assert(points_of(rs.drop_first())[k - rect_points(rs[0]).len()] == p);
                assert(points_of(rs.drop_first()).contains(p));
                let i = choose|i: int|
                    0 <= i < rs.drop_first().len() && #[trigger] rs.drop_first()[i].contains_spec(
                        p,
                    );
                assert(rs[i + 1].contains_spec(p));
            }
        }
        if exists|i: int| 0 <= i < rs.len() && #[trigger] rs[i].contains_spec(p) {
            let i = choose|i: int| 0 <= i < rs.len() && #[trigger] rs[i].contains_spec(p);
            if i == 0 {
                let k = choose|k: int|
                    0 <= k < rect_points(rs[0]).len() && rect_points(rs[0])[k] == p;
                assert(points_of(rs)[k] == p);
            } else {
                assert(rs.drop_first()[i - 1].contains_spec(p));
                assert(points_of(rs.drop_first()).contains(p));
                let k = choose|k: int|
                    0 <= k < points_of(rs.drop_first()).len() && points_of(rs.drop_first())[k]
                        == p;
                assert(points_of(rs)[rect_points(rs[0]).len() + k] == p);
            }
        }
    }
}

impl Area {
    /// The constituent rectangles, in order.
    pub open spec fn rects(self) -> Seq<Rect> {
        match self {
            Area::Empty => Seq::empty(),
            Area::Area(r) => seq![r],
            Area::Many(rs) => rs@,
        }
    }

    /// Whether some constituent rectangle holds `p`.
    pub open spec fn contains_spec(self, p: Point) -> bool {
        exists|i: int| 0 <= i < self.rects().len() && #[trigger] self.rects()[i].contains_spec(p)
    }

    /// Whether the region holds no point: every constituent rectangle,
    /// degenerate ones included, is empty.
    pub open spec fn is_empty_spec(self) -> bool {
        forall|i: int| 0 <= i < self.rects().len() ==> #[trigger] self.rects()[i].is_empty_spec()
    }

    /// Every point of every constituent rectangle, rectangle by rectangle in
    /// row-major order. A point two rectangles share appears once for each.
    pub open spec fn points_seq(self) -> Seq<Point> {
        points_of(self.rects())
    }

    pub fn is_empty(&self) -> (r: bool)
        ensures
            r == self.is_empty_spec(),
    {
        match self {
            Area::Empty => true,
            Area::Area(rect) => {
                let e = rect.is_empty();
                proof {
                    assert(self.rects()[0] == *rect);
                    if !e {
                        assert(!self.rects()[0].is_empty_spec());
                    }
                }
                e
            },
            Area::Many(rects) => {
                let mut i: usize = 0;
                while i < rects.len()
                    invariant
                        0 <= i <= rects@.len(),
                        rects@ == self.rects(),
                        forall|j: int| 0 <= j < i ==> #[trigger] self.rects()[j].is_empty_spec(),
                    decreases rects@.len() - i,
                {
                    if !rects[i].is_empty() {
                        proof {
                            assert(!self.rects()[i as int].is_empty_spec());
                        }
                        return false;
                    }
                    i += 1;
                }
                true
            },
        }
    }

    pub fn contains(&self, point: Point) -> (r: bool)
        ensures
            r == self.contains_spec(point),
    {
        match self {
            Area::Empty => false,
            Area::Area(rect) => {
                let c = rect.contains(point);
                proof {
                    assert(self.rects()[0] == *rect);
                    if c {
                        assert(self.rects()[0].contains_spec(point));
                    }
                }
                c
            },
            Area::Many(rects) => {
                let mut i: usize = 0;
                while i < rects.len()
                    invariant
                        0 <= i <= rects@.len(),
                        rects@ == self.rects(),
                        forall|j: int| 0 <= j < i ==> !(#[trigger] self.rects()[j].contains_spec(
                            point,
                        )),
                    decreases rects@.len() - i,
                {
                    if rects[i].contains(point) {
                        proof {
                            assert(self.rects()[i as int].contains_spec(point));
                        }
                        return true;
                    }
                    i += 1;
                }
                false
            },
        }
    }

    /// Translates every constituent rectangle by `offset`, coordinates
    /// clamped to the `i32` range.
    pub fn translate(&mut self, offset: Point)
        ensures
            final(self).rects() == old(self).rects().map_values(
                |r: Rect| r.translate_spec(offset),
            ),
            (*final(self)) is Empty <==> (*old(self)) is Empty,
            (*final(self)) is Area <==> (*old(self)) is Area,
            (*final(self)) is Many <==> (*old(self)) is Many,
    {
        let ghost target = old(self).rects().map_values(|r: Rect| r.translate_spec(offset));
        let mut taken = Area::Empty;
        core::mem::swap(self, &mut taken);
        match taken {
            Area::Empty => {
                assert(final(self).rects() =~= target);
            },
            Area::Area(rect) => {
                *self = Area::Area(rect.translate(offset));
                assert(final(self).rects() =~= target);
            },
            Area::Many(rects) => {
                let n = rects.len();
                let mut out: Vec<Rect> = Vec::new();
                let mut i: usize = 0;
                while i < n
                    invariant
                        0 <= i <= n,
                        rects@.len() == n,
                        rects@ == old(self).rects(),
                        out@.len() == i,
                        forall|j: int| 0 <= j < i ==> out@[j] == #[trigger] rects@[
                            j
                        ].translate_spec(offset),
                    decreases n - i,
                {
                    let r = rects[i];
                    out.push(r.translate(offset));
                    i += 1;
                }
                *self = Area::Many(out);
                assert(final(self).rects() =~= target);
            },
        }
    }

    /// Collects the constituent rectangles of all given areas, in order,
    /// discarding the areas that hold no rectangle at all.
    pub fn from_areas(areas: Vec<Area>) -> (r: Area)
        ensures
            r.rects() == rects_of(areas@),
            r is Empty <==> rects_of(areas@).len() == 0,
            r is Many <==> rects_of(areas@).len() != 0,
    {
        let mut collected: Vec<Rect> = Vec::new();
        let n = areas.len();
        let mut areas = areas;
        let ghost all = areas@;
        let mut i: usize = 0;
        while i < n
            invariant
                0 <= i <= n,
                areas@ == all.skip(i as int),
                all.len() == n,
                collected@ == rects_of(all.take(i as int)),
            decreases n - i,
        {
            proof {
                lemma_rects_of_app(all.take(i as int), seq![all[i as int]]);
                lemma_rects_of_singleton(all[i as int]);
                assert(all.take(i as int) + seq![all[i as int]] =~= all.take(i + 1));
            }
            let area = areas.remove(0);
            proof {
                assert(all.skip(i as int).drop_first() =~= all.skip(i + 1));
            }
            match area {
                Area::Area(rect) => {
                    collected.push(rect);
                    assert(collected@ =~= rects_of(all.take(i + 1)));
                },
                Area::Many(mut rects) => {
                    collected.append(&mut rects);
                    assert(collected@ =~= rects_of(all.take(i + 1)));
                },
                Area::Empty => {
                    assert(collected@ =~= rects_of(all.take(i + 1)));
                },
            }
            i += 1;
        }
        proof {
            assert(all.take(n as int) =~= all);
        }
        if collected.len() == 0 {
            Area::Empty
        } else {
            Area::Many(collected)
        }
    }

    /// Every point of the region in deterministic row-major order, rectangle
    /// by rectangle. Two calls on the same region hand back the same
    /// sequence, and each constituent rectangle's points appear exactly once
    /// for that rectangle.
    pub fn apply(&self) -> (v: Vec<Point>)
        ensures
            v@ == self.points_seq(),
    {
        match self {
            Area::Empty => {
                let v: Vec<Point> = Vec::new();
                v
            },
            Area::Area(rect) => {
                let v = rect_points_vec(*rect);
                proof {
                    lemma_points_of_singleton(*rect);
                    assert(self.rects() =~= seq![*rect]);
                }
                v
            },
            Area::Many(rects) => {
                let mut v: Vec<Point> = Vec::new();
                let n = rects.len();
                let mut i: usize = 0;
                while i < n
                    invariant
                        0 <= i <= n,
                        rects@.len() == n,
                        v@ == points_of(rects@.take(i as int)),
                    decreases n - i,
                {
                    let mut block = rect_points_vec(rects[i]);
                    proof {
                        lemma_points_of_app(rects@.take(i as int), seq![rects@[i as int]]);
                        lemma_points_of_singleton(rects@[i as int]);
                        assert(rects@.take(i as int) + seq![rects@[i as int]] =~= rects@.take(
                            i + 1,
                        ));
                    }
                    v.append(&mut block);
                    i += 1;
                }
                proof {
                    assert(rects@.take(n as int) =~= rects@);
                }
                v
            },
        }
    }

    /// The same points as [`Area::apply`], in an order drawn fresh from the
    /// given random source. Randomizing the scan order avoids directional
    /// bias in the simulation.
    pub fn apply_randomly(&self, rng: &mut rand::rngs::ThreadRng) -> (v: Vec<Point>)
        ensures
            v@.to_multiset() == self.points_seq().to_multiset(),
    {
        let mut v = self.apply();
        shuffle_points(&mut v, rng);
        v
    }
}

/// The constituent rectangles of each area in turn.
pub open spec fn rects_of(areas: Seq<Area>) -> Seq<Rect>
    decreases areas.len(),
{
    if areas.len() == 0 {
        Seq::empty()
    } else {
        areas[0].rects() + rects_of(areas.drop_first())
    }
}

/// A single area contributes exactly its own rectangles.
pub proof fn lemma_rects_of_singleton(a: Area)
    ensures
        rects_of(seq![a]) == a.rects(),
{
    assert(seq![a].drop_first() =~= Seq::<Area>::empty());
    assert(rects_of(Seq::<Area>::empty()) =~= Seq::<Rect>::empty());
    assert(rects_of(seq![a]) =~= a.rects());
}

/// Concatenation distributes over rectangle collection.
pub proof fn lemma_rects_of_app(a: Seq<Area>, b: Seq<Area>)
    ensures
        rects_of(a + b) == rects_of(a) + rects_of(b),
    decreases a.len(),
{
    if a.len() == 0 {
        assert(a + b =~= b);
        assert(rects_of(a) + rects_of(b) =~= rects_of(b));
    } else {
        assert((a + b).drop_first() =~= a.drop_first() + b);
        lemma_rects_of_app(a.drop_first(), b);
        assert(rects_of(a + b) =~= rects_of(a) + rects_of(b));
    }
}

/// A region built from the rectangles of `a` followed by those of `b` holds
/// a point exactly when `a` or `b` holds it.
pub proof fn lemma_combined_contains(combined: Area, a: Area, b: Area, p: Point)
    requires
        combined.rects() == a.rects() + b.rects(),
    ensures
        combined.contains_spec(p) <==> a.contains_spec(p) || b.contains_spec(p),
{
    let al = a.rects().len() as int;
    if combined.contains_spec(p) {
        let i = choose|i: int|
            0 <= i < combined.rects().len() && #[trigger] combined.rects()[i].contains_spec(p);
        if i < al {
            assert(a.rects()[i].contains_spec(p));
        } else {
            assert(b.rects()[i - al].contains_spec(p));
        }
    }
    if a.contains_spec(p) {
        let i = choose|i: int| 0 <= i < a.rects().len() && #[trigger] a.rects()[i].contains_spec(p);
        assert(combined.rects()[i].contains_spec(p));
    }
    if b.contains_spec(p) {
        let i = choose|i: int| 0 <= i < b.rects().len() && #[trigger] b.rects()[i].contains_spec(p);
        assert(combined.rects()[al + i].contains_spec(p));
    }
}

/// The deterministic traversal reaches a point if and only if the region
/// holds it.
pub proof fn lemma_points_seq_contains(a: Area, p: Point)
    ensures
        a.points_seq().contains(p) <==> a.contains_spec(p),
{
    lemma_points_of_contains(a.rects(), p);
}

/// How many of the rectangles hold `p`.
pub open spec fn rects_holding(rs: Seq<Rect>, p: Point) -> nat
    decreases rs.len(),
{
    if rs.len() == 0 {
        0
    } else {
        (if rs[0].contains_spec(p) {
            1nat
        } else {
            0nat
        }) + rects_holding(rs.drop_first(), p)
    }
}

/// The deterministic traversal reaches each point exactly once for each
/// constituent rectangle that holds it: a point in one rectangle is visited
/// once, a point two rectangles share is visited once for each.
pub proof fn lemma_points_seq_exactly_once(a: Area, p: Point)
    ensures
        a.points_seq().to_multiset().count(p) == rects_holding(a.rects(), p),
{
    lemma_points_of_count(a.rects(), p);
}

proof fn lemma_points_of_count(rs: Seq<Rect>, p: Point)
    ensures
        points_of(rs).to_multiset().count(p) == rects_holding(rs, p),
    decreases rs.len(),
{
    broadcast use vstd::seq_lib::group_to_multiset_ensures;
    broadcast use vstd::multiset::group_multiset_axioms;

    if rs.len() == 0 {
        assert(!points_of(rs).contains(p));
    } else {
        lemma_points_of_count(rs.drop_first(), p);
        vstd::seq_lib::lemma_multiset_commutative(
            rect_points(rs[0]),
            points_of(rs.drop_first()),
        );
        lemma_rect_visited_exactly_once(rs[0], p);
    }
}

/// The points of one rectangle in row-major order, as a vector.
fn rect_points_vec(r: Rect) -> (v: Vec<Point>)
    ensures
        v@ == rect_points(r),
{
    let mut v: Vec<Point> = Vec::new();
    if r.min.x > r.max.x || r.min.y > r.max.y {
        return v;
    }
    let min_x = r.min.x as i64;
    let min_y = r.min.y as i64;
    let max_x = r.max.x as i64;
    let max_y = r.max.y as i64;
    let w = max_x - min_x + 1;
    let mut y: i64 = min_y;
    while y <= max_y
        invariant
            !r.is_empty_spec(),
            min_x == r.min.x as int && min_y == r.min.y as int,
            max_x == r.max.x as int && max_y == r.max.y as int,
            w == rect_w(r),
            min_y <= y <= max_y + 1,
            v@ == rect_points(r).take((y - min_y) * w),
        decreases max_y + 1 - y,
    {
        let mut x: i64 = min_x;
        assert((y - min_y) * w + (x - min_x) == (y - min_y) * w);
        while x <= max_x
            invariant
                !r.is_empty_spec(),
                min_x == r.min.x as int && min_y == r.min.y as int,
                max_x == r.max.x as int && max_y == r.max.y as int,
                w == rect_w(r),
                min_y <= y <= max_y,
                min_x <= x <= max_x + 1,
                v@ == rect_points(r).take((y - min_y) * w + (x - min_x)),
            decreases max_x + 1 - x,
        {
            let ghost k = (y - min_y) * w + (x - min_x);
            proof {
                assert(0 <= k && k < rect_h(r) * rect_w(r)) by (nonlinear_arith)
                    requires
                        k == (y - min_y) * w + (x - min_x),
                        w == rect_w(r),
                        rect_h(r) == max_y - min_y + 1,
                        min_y <= y <= max_y,
                        min_x <= x <= max_x,
                        w == max_x - min_x + 1,
                ;
                lemma_fundamental_div_mod_converse(k, w as int, y - min_y, x - min_x);
                assert(rect_points(r)[k] == Point { x: x as i32, y: y as i32 });
            }
            v.push(Point { x: x as i32, y: y as i32 });
            proof {
                assert(v@ =~= rect_points(r).take(k + 1));
            }
            x += 1;
        }
        proof {
            assert((y - min_y) * w + (max_x + 1 - min_x) == (y + 1 - min_y) * w)
                by (nonlinear_arith)
                requires
                    w == max_x - min_x + 1,
            ;
        }
        y += 1;
    }
    proof {
        assert((max_y + 1 - min_y) * w == rect_h(r) * rect_w(r)) by (nonlinear_arith)
            requires
                w == rect_w(r),
                rect_h(r) == max_y - min_y + 1,
        ;
        assert(v@ =~= rect_points(r));
    }
    v
}

} // verus!
