//! Elevation: what a hill hides, and what a ledge refuses.
//!
//! Height is game state, not geometry, so this module holds no heights. It holds the two rules
//! that read them, as gates you put in front of your own closures. Both gates are integer
//! throughout, so sight and cost give the same answer on every machine.

use vstd::prelude::*;
use crate::coord::{Coord, Idx};
use crate::grid::{Grid, Model, Sight};
use crate::path::{Step, pure_sight, sight_on, verdict};

verus! {

broadcast use crate::coord::group_idx;

/// What a function of a cell answers for cell `i`.
pub open spec fn value_at<F: Fn(Idx) -> i32>(f: &F, i: Idx) -> i32 {
    choose|v: i32| f.ensures((i,), v)
}

/// `f` always answers the same for the same cell.
pub open spec fn steady<F: Fn(Idx) -> i32>(f: &F) -> bool {
    forall|i: Idx, v: i32, w: i32| #![trigger f.ensures((i,), v), f.ensures((i,), w)] f.ensures((i,), v) && f.ensures((i,), w) ==> v == w
}

/// `f` answers every cell of a board of `n` cells, and always the same.
pub open spec fn pure_values<F: Fn(Idx) -> i32>(f: &F, n: int) -> bool {
    &&& forall|i: Idx| i.id() < n ==> #[trigger] f.requires((i,))
    &&& steady(f)
}

/// Whether the cell a sighting tests pokes above the straight line from the eye to the target:
/// `(top - eye) · n > (target - eye) · t`, with `t` the distance from the eye to the cell and `n`
/// the distance from the eye to the target.
pub open spec fn pokes_above<C: Coord>(m: Model<C>, top: int, eye: int, target: int, s: Sight) -> bool {
    (top - eye) * m.dist(s.eye.id(), s.target.id()) > (target - eye) * m.dist(s.eye.id(), s.at.id())
}

/// Whether `top` pokes above the sight line of `s`, with `looks_from` giving where the eye and the
/// target sit.
pub open spec fn blocks_sight<C: Coord, T: Fn(Idx) -> i32, L: Fn(Idx) -> i32>(m: Model<C>, top: &T, looks_from: &L, s: Sight) -> bool {
    pokes_above(
        m,
        value_at(top, s.at) as int,
        value_at(looks_from, s.eye) as int,
        value_at(looks_from, s.target) as int,
        s,
    )
}

/// A cell blocks a view exactly when its top rises above the straight sight line at its place.
/// From the eye at height `eye` to the target at height `target`, `n` apart, the sight line
/// stands `t` along at the weighted height `(eye · (n - t) + target · t) / n`, and the cell blocks
/// exactly when `top · n` exceeds `eye · (n - t) + target · t`. A cell at or below the line never
/// blocks, however much higher than either end it stands.
pub proof fn lemma_blocks_above_line<C: Coord>(m: Model<C>, top: int, eye: int, target: int, s: Sight)
    ensures
        ({
            let n = m.dist(s.eye.id(), s.target.id()) as int;
            let t = m.dist(s.eye.id(), s.at.id()) as int;
            pokes_above(m, top, eye, target, s) == (top * n > eye * (n - t) + target * t)
        }),
{
    let n = m.dist(s.eye.id(), s.target.id()) as int;
    let t = m.dist(s.eye.id(), s.at.id()) as int;
    assert((top - eye) * n - (target - eye) * t == top * n - (eye * (n - t) + target * t)) by (nonlinear_arith);
}

/// What the height gate answers, read off the heights: the cell under test blocks exactly when
/// its `top` rises above the straight line between where `looks_from` puts the eye and the
/// target, at the cell's distance along it.
pub proof fn lemma_gate_reads_line<C: Coord, T: Fn(Idx) -> i32, L: Fn(Idx) -> i32>(m: Model<C>, top: &T, looks_from: &L, s: Sight)
    ensures
        ({
            let n = m.dist(s.eye.id(), s.target.id()) as int;
            let t = m.dist(s.eye.id(), s.at.id()) as int;
            let (h, a, b) = (value_at(top, s.at) as int, value_at(looks_from, s.eye) as int, value_at(looks_from, s.target) as int);
            blocks_sight(m, top, looks_from, s) == (h * n > a * (n - t) + b * t)
        }),
{
    lemma_blocks_above_line(m, value_at(top, s.at) as int, value_at(looks_from, s.eye) as int, value_at(looks_from, s.target) as int, s);
}

/// Raising a cell never unblocks a view, and lowering it never blocks one: of two tops at one
/// place, the higher blocks whenever the lower does.
pub proof fn lemma_blocks_monotone<C: Coord>(m: Model<C>, low: int, high: int, eye: int, target: int, s: Sight)
    requires
        low <= high,
    ensures
        pokes_above(m, low, eye, target, s) ==> pokes_above(m, high, eye, target, s),
{
    let n = m.dist(s.eye.id(), s.target.id()) as int;
    assert((high - eye) * n >= (low - eye) * n) by (nonlinear_arith)
        requires
            low <= high,
            n >= 0,
    ;
}

/// A sight gate that answers by the height test: for every sighting on the board, whatever it
/// answers is whether the cell under test pokes above the sight line.
pub open spec fn reads_height<C: Coord, T: Fn(Idx) -> i32, L: Fn(Idx) -> i32, B: Fn(Sight) -> bool>(
    m: Model<C>,
    top: &T,
    looks_from: &L,
    gate: B,
) -> bool {
    forall|s: Sight, b: bool| sight_on(s, m.len() as int) && #[trigger] gate.ensures((s,), b) ==> b == blocks_sight(m, top, looks_from, s)
}

/// A height difference times a distance fits well inside `i128`.
proof fn lemma_product_fits(d: int, n: int)
    requires
        -0x1_0000_0000 <= d <= 0x1_0000_0000,
        0 <= n <= 0xffff_ffff,
    ensures
        -0x1_0000_0000_0000_0000 <= d * n <= 0x1_0000_0000_0000_0000,
{
    assert(-0x1_0000_0000_0000_0000 <= d * n <= 0x1_0000_0000_0000_0000) by (nonlinear_arith)
        requires
            -0x1_0000_0000 <= d <= 0x1_0000_0000,
            0 <= n <= 0xffff_ffff,
    ;
}

/// A gate that answers: does the cell under test rise high enough to stop this view?
///
/// Returns a blocker predicate for [`Grid::los_by`] and [`Grid::visible_from_by`]. `top` is the
/// height sight must clear at a cell; `looks_from` is where an eye or a mark sits at a cell. The
/// same `looks_from` is asked about the eye and the target, which keeps sight symmetric. Computed
/// in `i128`, which holds any `i32` height difference times any `u32` distance.
pub fn height_gate<'a, B: Grid, T: Fn(Idx) -> i32 + 'a, L: Fn(Idx) -> i32 + 'a>(
    g: &'a B,
    top: T,
    looks_from: L,
) -> (r: impl Fn(Sight) -> bool + 'a)
    requires
        g.wf(),
        pure_values(&top, g.model().len() as int),
        pure_values(&looks_from, g.model().len() as int),
    ensures
        pure_sight(r, g.model().len() as int),
        reads_height(g.model(), &top, &looks_from, r),
{
    move |s: Sight| -> (b: bool)
        requires
            g.wf(),
            sight_on(s, g.model().len() as int),
            pure_values(&top, g.model().len() as int),
            pure_values(&looks_from, g.model().len() as int),
        ensures
            b == blocks_sight(g.model(), &top, &looks_from, s),
        {
            let eye = looks_from(s.eye);
            let at_top = top(s.at);
            let mark = looks_from(s.target);
            let far = g.distance(s.eye, s.target);
            let near = g.distance(s.eye, s.at);
            let rise: i128 = at_top as i128 - eye as i128;
            let fall: i128 = mark as i128 - eye as i128;
            proof {
                lemma_product_fits(rise as int, far as int);
                lemma_product_fits(fall as int, near as int);
            }
            rise * (far as i128) > fall * (near as i128)
        }
}

/// A gate that answers: may this step be taken, given how far it climbs?
///
/// `z` is the ground level of a cell, and `max_rise` the greatest ascent one step may make. Zero
/// forbids all climbing; with a non-negative limit, descent is unrestricted. Computed in `i64`, so
/// no pair of `i32` heights can overflow the difference.
pub fn climb_gate<'a, C: Coord, Z: Fn(Idx) -> i32 + 'a>(z: Z, max_rise: i32) -> (r: impl Fn(Step<C>) -> bool + 'a)
    requires
        steady(&z),
    ensures
        forall|s: Step<C>| z.requires((s.from,)) && z.requires((s.to,)) ==> #[trigger] r.requires((s,)),
        forall|s: Step<C>, b: bool| #[trigger] r.ensures((s,), b) ==> b == (value_at(&z, s.to) - value_at(&z, s.from) <= max_rise),
{
    move |s: Step<C>| -> (b: bool)
        requires
            steady(&z),
            z.requires((s.from,)),
            z.requires((s.to,)),
        ensures
            b == (value_at(&z, s.to) - value_at(&z, s.from) <= max_rise),
        {
            let up = z(s.to);
            let down = z(s.from);
            (up as i64) - (down as i64) <= (max_rise as i64)
        }
}

} // verus!
