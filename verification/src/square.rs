//! Square-grid movement rules: cutting corners on a diagonal.
//!
//! A diagonal step squeezes between the two orthogonal cells beside it, its flanks. Whether a wall
//! or a unit on a flank stops the step is a rule of the game, not of the lattice, so it is a gate
//! you put in front of your own cost function.

use vstd::prelude::*;
use crate::coord::{Dir8, Idx, Sq, dir8_offset, idx};
use crate::grid::{Grid, Model};
use crate::path::{Step, pure_test_on, verdict};

verus! {

broadcast use crate::coord::group_idx;

/// How a diagonal step treats the two cells it squeezes between.
#[derive(Debug, Clone, Copy, PartialEq, Eq, Structural, Default)]
pub enum CornerRule {
    /// Both flanks must be enterable. A unit cannot clip past a single wall.
    #[default]
    Strict,
    /// One enterable flank is enough.
    Loose,
    /// Diagonals ignore their flanks entirely.
    Free,
}

/// The two orthogonals a diagonal squeezes between; `None` for an orthogonal.
pub open spec fn flanks_of(d: Dir8) -> Option<(Dir8, Dir8)> {
    match d {
        Dir8::Ne => Some((Dir8::N, Dir8::E)),
        Dir8::Se => Some((Dir8::S, Dir8::E)),
        Dir8::Sw => Some((Dir8::S, Dir8::W)),
        Dir8::Nw => Some((Dir8::N, Dir8::W)),
        _ => None,
    }
}

/// Whether the flank of cell `from` in direction `d` is a cell that `enterable` admits.
pub open spec fn flank_open<F: Fn(Idx) -> bool>(m: Model<Sq>, enterable: &F, from: int, d: Dir8) -> bool {
    match (m.step)(from, d) {
        Some(j) => verdict(*enterable, idx(j)),
        None => false,
    }
}

/// Whether a step may be taken under a corner rule.
pub open spec fn corner_ok<F: Fn(Idx) -> bool>(m: Model<Sq>, rule: CornerRule, enterable: &F, s: Step<Sq>) -> bool {
    match flanks_of(s.dir) {
        None => true,
        Some((a, b)) => match rule {
            CornerRule::Strict => flank_open(m, enterable, s.from.id(), a) && flank_open(m, enterable, s.from.id(), b),
            CornerRule::Loose => flank_open(m, enterable, s.from.id(), a) || flank_open(m, enterable, s.from.id(), b),
            CornerRule::Free => true,
        },
    }
}

/// Whether `o` is an orthogonal direction that a diagonal `d` squeezes past: its offset is one
/// of the two components of `d`'s.
pub open spec fn beside(d: Dir8, o: Dir8) -> bool {
    let (dx, dy) = dir8_offset(d);
    let (ox, oy) = dir8_offset(o);
    dx != 0 && dy != 0 && ((ox == dx && oy == 0) || (ox == 0 && oy == dy))
}

/// Whether the cell one step from `from` in direction `o` is on the board and enterable.
pub open spec fn enterable_beside<F: Fn(Idx) -> bool>(m: Model<Sq>, enterable: &F, from: int, o: Dir8) -> bool {
    exists|j: int| (m.step)(from, o) == Some(j) && #[trigger] verdict(*enterable, idx(j))
}

/// What each corner rule lets through, read off the board: a step that is not diagonal always
/// passes and so does any step under `Free`; under `Strict` a diagonal passes exactly when both
/// cells it squeezes past are on the board and enterable, and under `Loose` exactly when one of
/// them is. So every step `Strict` allows, `Loose` allows too.
pub proof fn lemma_corner_rules<F: Fn(Idx) -> bool>(m: Model<Sq>, enterable: &F, s: Step<Sq>)
    ensures
        (dir8_offset(s.dir).0 == 0 || dir8_offset(s.dir).1 == 0) ==> corner_ok(m, CornerRule::Strict, enterable, s),
        corner_ok(m, CornerRule::Free, enterable, s),
        (dir8_offset(s.dir).0 != 0 && dir8_offset(s.dir).1 != 0) ==> (corner_ok(m, CornerRule::Strict, enterable, s) <==> (
        forall|o: Dir8| beside(s.dir, o) ==> #[trigger] enterable_beside(m, enterable, s.from.id(), o))),
        (dir8_offset(s.dir).0 != 0 && dir8_offset(s.dir).1 != 0) ==> (corner_ok(m, CornerRule::Loose, enterable, s) <==> (
        exists|o: Dir8| beside(s.dir, o) && #[trigger] enterable_beside(m, enterable, s.from.id(), o))),
        corner_ok(m, CornerRule::Strict, enterable, s) ==> corner_ok(m, CornerRule::Loose, enterable, s),
{
    let f = s.from.id();
    assert forall|o: Dir8| #[trigger] enterable_beside(m, enterable, f, o) == flank_open(m, enterable, f, o) by {
        match (m.step)(f, o) {
            Some(j) => {
                if flank_open(m, enterable, f, o) {
                    assert((m.step)(f, o) == Some(j) && verdict(*enterable, idx(j)));
                }
            },
            None => {},
        }
    }
    if dir8_offset(s.dir).0 != 0 && dir8_offset(s.dir).1 != 0 {
        let (a, b) = flanks_of(s.dir)->0;
        assert(beside(s.dir, a) && beside(s.dir, b));
        assert(forall|o: Dir8| beside(s.dir, o) ==> o == a || o == b);
        if exists|o: Dir8| beside(s.dir, o) && #[trigger] enterable_beside(m, enterable, f, o) {
            let o = choose|o: Dir8| beside(s.dir, o) && #[trigger] enterable_beside(m, enterable, f, o);
            assert(o == a || o == b);
        }
        assert(enterable_beside(m, enterable, f, a) == flank_open(m, enterable, f, a));
        assert(enterable_beside(m, enterable, f, b) == flank_open(m, enterable, f, b));
        if forall|o: Dir8| beside(s.dir, o) ==> #[trigger] enterable_beside(m, enterable, f, o) {
            assert(enterable_beside(m, enterable, f, a));
            assert(enterable_beside(m, enterable, f, b));
        }
        if flank_open(m, enterable, f, a) && flank_open(m, enterable, f, b) {
            assert forall|o: Dir8| beside(s.dir, o) implies #[trigger] enterable_beside(m, enterable, f, o) by {
                assert(o == a || o == b);
            }
        }
    }
}

/// A gate that answers: may this step cut its corner?
///
/// Returns a predicate over a [`Step`] for your cost function. An orthogonal step has no corner to
/// cut and always passes. A flank that is off the board counts as a wall.
pub fn corner_gate<'a, B: Grid<Cell = Sq>, F: Fn(Idx) -> bool + 'a>(g: &'a B, rule: CornerRule, enterable: F) -> (r: impl Fn(
    Step<Sq>,
) -> bool + 'a)
    requires
        g.wf(),
        pure_test_on(enterable, g.model().len() as int),
    ensures
        forall|s: Step<Sq>| s.from.id() < g.model().len() ==> #[trigger] r.requires((s,)),
        forall|s: Step<Sq>, b: bool|
            s.from.id() < g.model().len() && #[trigger] r.ensures((s,), b) ==> b == corner_ok(g.model(), rule, &enterable, s),
{
    move |s: Step<Sq>| -> (b: bool)
        requires
            g.wf(),
            s.from.id() < g.model().len(),
            pure_test_on(enterable, g.model().len() as int),
        ensures
            b == corner_ok(g.model(), rule, &enterable, s),
        {
            proof {
                g.lemma_grid();
            }
            match s.dir.flanks() {
                None => true,
                Some((a, b)) => match rule {
                    CornerRule::Strict => {
                        let open_a = match g.step(s.from, a) {
                            Some(j) => enterable(j),
                            None => false,
                        };
                        open_a && match g.step(s.from, b) {
                            Some(j) => enterable(j),
                            None => false,
                        }
                    },
                    CornerRule::Loose => {
                        let open_a = match g.step(s.from, a) {
                            Some(j) => enterable(j),
                            None => false,
                        };
                        open_a || match g.step(s.from, b) {
                            Some(j) => enterable(j),
                            None => false,
                        }
                    },
                    CornerRule::Free => true,
                },
            }
        }
}

} // verus!
