//! Paths and reach, over a cost function you supply.
//!
//! # Cost is what it costs to *enter* a cell, from a *direction*
//!
//! Not the cost of the cell, and not the cost of an edge. The distinction is what lets a grid hold
//! a river: entering the river cell heading downstream is cheap, heading upstream is dear. The
//! cost belongs to the river; the direction you arrive from picks which one applies. A conveyor
//! belt and a ledge you can drop off but not climb back up are the same shape.
//!
//! So the graph is **directed**, and three things follow that you must not forget:
//!
//! - A [`Path`] **cannot be reversed**. `path(a, b)` is not `path(b, a)` walked backwards.
//! - [`reachable`](crate::Grid::reachable) means reachable-*out*.
//! - Costs are **non-negative**, which is what makes Dijkstra and A\* correct.
//!
//! # One function does the work of four
//!
//! The closure you hand [`Movement`] returns `Option<Cost>`, and `None` means "you cannot come in
//! that way". That single answer covers terrain cost, impassable terrain, cells blocked by other
//! pieces, and one-way movement.
//!
//! # Pure rules
//!
//! The contracts speak of what a rule *answers* for a step, so they ask that it answer every step
//! and always answer the same: [`pure_rule`]. Reading your own terrain and unit tables is exactly
//! right; a random number generator or a counter is not.

use vstd::prelude::*;
use crate::coord::{Coord, Idx, idx};
use crate::grid::{Grid, Model, Sight, ceiling_of, max_cells};
use crate::tag::Tag;
use crate::search::{priced, priced_in};

verus! {

broadcast use crate::coord::group_idx;

/// What a step costs.
///
/// An integer, because A\* needs a totally ordered cost and floats are not. **The scale is yours.**
/// The usual choice is to make an ordinary step 10, which leaves room underneath for a road at 5
/// and a diagonal at 14.
pub type Cost = u32;

/// One step: leaving `from`, entering `to`, travelling in `dir`.
///
/// `dir` is handed to you rather than derived, so a cost function never has to work out which way
/// it is facing.
#[derive(Debug, Clone, Copy, PartialEq, Eq)]
pub struct Step<C: Coord> {
    /// The cell being left. Never charged for — you are already standing on it.
    pub from: Idx,
    /// The cell being entered. This is the one the cost belongs to.
    pub to: Idx,
    /// The direction of travel, `from` towards `to`.
    pub dir: <C as Coord>::Dir,
}

/// What a rule answers for a step.
pub open spec fn price<C: Coord, F: Fn(Step<C>) -> Option<Cost>>(f: F, s: Step<C>) -> Option<Cost> {
    choose|r: Option<Cost>| f.ensures((s,), r)
}

/// A rule that answers every step, and always answers the same.
pub open spec fn pure_rule<C: Coord, F: Fn(Step<C>) -> Option<Cost>>(f: F) -> bool {
    &&& forall|s: Step<C>| #[trigger] f.requires((s,))
    &&& forall|s: Step<C>, r: Option<Cost>| #[trigger] f.ensures((s,), r) ==> r == price(f, s)
}

/// What a predicate says of a value.
pub open spec fn verdict<A, F: Fn(A) -> bool>(f: F, a: A) -> bool {
    f.ensures((a,), true)
}

/// A predicate over a board's indices, read as a predicate over cell numbers.
pub open spec fn passes<F: Fn(Idx) -> bool>(f: F) -> spec_fn(int) -> bool {
    |q: int| verdict(f, idx(q))
}

/// A predicate that answers every value, and always answers the same.
pub open spec fn pure_test<A, F: Fn(A) -> bool>(f: F) -> bool {
    &&& forall|a: A| #[trigger] f.requires((a,))
    &&& forall|a: A, b: bool| #[trigger] f.ensures((a,), b) ==> b == verdict(f, a)
}

/// A predicate over a board's indices that answers every cell of a board of `n` cells, and always
/// answers the same.
pub open spec fn pure_test_on<F: Fn(Idx) -> bool>(f: F, n: int) -> bool {
    &&& forall|i: Idx| i.id() < n ==> #[trigger] f.requires((i,))
    &&& forall|i: Idx, b: bool| i.id() < n && #[trigger] f.ensures((i,), b) ==> b == verdict(f, i)
}

/// All three cells of a sighting lie on a board of `n` cells.
pub open spec fn sight_on(s: Sight, n: int) -> bool {
    s.eye.id() < n && s.at.id() < n && s.target.id() < n
}

/// A predicate over sightings that answers every sighting on a board of `n` cells, and always
/// answers the same.
pub open spec fn pure_sight<B: Fn(Sight) -> bool>(f: B, n: int) -> bool {
    &&& forall|s: Sight| sight_on(s, n) ==> #[trigger] f.requires((s,))
    &&& forall|s: Sight, b: bool| sight_on(s, n) && #[trigger] f.ensures((s,), b) ==> b == verdict(f, s)
}

/// The `k`th step out of cell `i` of a board.
pub open spec fn step_at<C: Coord>(m: Model<C>, i: int, k: int) -> Step<C> {
    Step { from: idx(i), to: m.outs(i)[k].1, dir: m.outs(i)[k].0 }
}

/// Whether `k` numbers a step out of cell `i`.
pub open spec fn is_step<C: Coord>(m: Model<C>, i: int, k: int) -> bool {
    0 <= i < m.len() && 0 <= k < m.outs(i).len()
}

/// No step of the board that the rule allows costs less than `floor`.
pub open spec fn honest<C: Coord, F: Fn(Step<C>) -> Option<Cost>>(m: Model<C>, f: F, floor: Cost) -> bool {
    forall|i: int, k: int|
        is_step(m, i, k) && (#[trigger] price(f, step_at(m, i, k))) is Some ==> floor <= price(
            f,
            step_at(m, i, k),
        )->0
}

/// No step of the board that the rule allows costs more than `ceiling`.
pub open spec fn bounded<C: Coord, F: Fn(Step<C>) -> Option<Cost>>(m: Model<C>, f: F, ceiling: int) -> bool {
    forall|i: int, k: int|
        is_step(m, i, k) && (#[trigger] price(f, step_at(m, i, k))) is Some ==> price(
            f,
            step_at(m, i, k),
        )->0 <= ceiling
}

/// Some step of the board costs exactly `c`.
pub open spec fn some_step_costs<C: Coord, F: Fn(Step<C>) -> Option<Cost>>(m: Model<C>, f: F, c: Cost) -> bool {
    exists|i: int, k: int| is_step(m, i, k) && #[trigger] price(f, step_at(m, i, k)) == Some(c)
}

/// The rule allows some step of the board.
pub open spec fn any_step<C: Coord, F: Fn(Step<C>) -> Option<Cost>>(m: Model<C>, f: F) -> bool {
    exists|i: int, k: int| is_step(m, i, k) && (#[trigger] price(f, step_at(m, i, k))) is Some
}

/// Your game's movement rules: what a step costs, and what the cheapest step on the board is.
///
/// `enter` must be **pure** — the same step must always cost the same. A\* asks about a step more
/// than once, and a closure that answers differently each time can be made to "improve" a route
/// forever.
pub struct Movement<F> {
    enter: F,
    min_step: Cost,
}

impl<F> Movement<F> {
    /// The rule this movement prices steps by.
    pub closed spec fn rule(&self) -> F {
        self.enter
    }

    /// The cheapest step this movement promises.
    pub closed spec fn floor(&self) -> Cost {
        self.min_step
    }

    /// Work out the cheapest step on the board by looking at every one of them.
    ///
    /// This is the constructor to use. `min_step` scales the A\* heuristic, and a value even one
    /// too high makes the heuristic overestimate — at which point A\* still returns *a* path, but
    /// no longer the cheapest one. Measuring is O(cells × directions), which is cheap and always
    /// right.
    ///
    /// Steps must be **small enough for this board**: no step the rule allows may cost more than
    /// `Cost::MAX / (cells - 1)`, or a path's total could overflow. The ceiling is generous at any
    /// sane scale; it is this function's precondition.
    pub fn scan<B: Grid>(g: &B, enter: F) -> (m: Self)
        where
            F: Fn(Step<B::Cell>) -> Option<Cost>,
        requires
            g.wf(),
            pure_rule(enter),
            bounded(g.model(), enter, ceiling_of(g.model().len() as int)),
        ensures
            m.rule() == enter,
            honest(g.model(), enter, m.floor()),
            any_step(g.model(), enter) ==> some_step_costs(g.model(), enter, m.floor()),
            !any_step(g.model(), enter) ==> m.floor() == 0,
    {
        proof {
            g.lemma_grid();
        }
        let n = g.len();
        let tag = g.tag();
        let mut least: Option<Cost> = None;
        let mut i: usize = 0;
        while i < n
            invariant
                g.wf(),
                n == g.model().len(),
                n <= max_cells(),
                i <= n,
                pure_rule(enter),
                match least {
                    Some(c) => some_step_costs(g.model(), enter, c) && forall|i2: int, k2: int|
                        0 <= i2 < i && is_step(g.model(), i2, k2) && (#[trigger] price(enter, step_at(g.model(), i2, k2))) is Some
                            ==> c <= price(enter, step_at(g.model(), i2, k2))->0,
                    None => forall|i2: int, k2: int|
                        0 <= i2 < i && is_step(g.model(), i2, k2) ==> (#[trigger] price(enter, step_at(g.model(), i2, k2))) is None,
                },
            decreases n - i,
        {
            let from = Idx::new(tag, i as u32);
            let out = g.neighbors(from);
            let mut k: usize = 0;
            while k < out.len()
                invariant
                    g.wf(),
                    n == g.model().len(),
                    n <= max_cells(),
                    i < n,
                    from == idx(i as int),
                    out@ == g.model().outs(i as int),
                    k <= out@.len(),
                    pure_rule(enter),
                    match least {
                        Some(c) => some_step_costs(g.model(), enter, c) && (forall|i2: int, k2: int|
                            0 <= i2 < i && is_step(g.model(), i2, k2) && (#[trigger] price(enter, step_at(g.model(), i2, k2))) is Some
                                ==> c <= price(enter, step_at(g.model(), i2, k2))->0) && (forall|k2: int|
                            0 <= k2 < k && (#[trigger] price(enter, step_at(g.model(), i as int, k2))) is Some
                                ==> c <= price(enter, step_at(g.model(), i as int, k2))->0),
                        None => (forall|i2: int, k2: int|
                            0 <= i2 < i && is_step(g.model(), i2, k2) ==> (#[trigger] price(enter, step_at(g.model(), i2, k2))) is None)
                            && (forall|k2: int| 0 <= k2 < k ==> (#[trigger] price(enter, step_at(g.model(), i as int, k2))) is None),
                    },
                decreases out@.len() - k,
            {
                let (dir, to) = out[k];
                let s = Step { from, to, dir };
                proof {
                    assert(s == step_at(g.model(), i as int, k as int));
                    assert(is_step(g.model(), i as int, k as int));
                }
                let priced = enter(s);
                match priced {
                    Some(c) => {
                        match least {
                            Some(best) => {
                                if c < best {
                                    least = Some(c);
                                }
                            },
                            None => {
                                least = Some(c);
                            },
                        }
                    },
                    None => {},
                }
                k = k + 1;
            }
            proof {
                match least {
                    Some(c) => {
                        assert forall|i2: int, k2: int|
                            0 <= i2 < i + 1 && is_step(g.model(), i2, k2) && (#[trigger] price(enter, step_at(g.model(), i2, k2))) is Some
                            implies c <= price(enter, step_at(g.model(), i2, k2))->0 by {
                        }
                    },
                    None => {
                        assert forall|i2: int, k2: int|
                            0 <= i2 < i + 1 && is_step(g.model(), i2, k2) implies (#[trigger] price(enter, step_at(g.model(), i2, k2))) is None by {
                        }
                    },
                }
            }
            i = i + 1;
        }
        let floor = match least {
            Some(c) => c,
            None => 0,
        };
        Movement { enter, min_step: floor }
    }

    /// Promise the cheapest step yourself, and skip the scan.
    ///
    /// Faster to build, and **unchecked in both directions**. Promise a `min_step` that is too high
    /// and the heuristic overestimates, so A\* quietly stops returning the cheapest path. When in
    /// doubt, promise 0: A\* degrades into Dijkstra, and the answer stays correct.
    pub fn new(enter: F, min_step: Cost) -> (m: Self)
        ensures
            m.rule() == enter,
            m.floor() == min_step,
    {
        Movement { enter, min_step }
    }

    /// The cheapest step this movement can make anywhere on the board.
    pub fn min_step(&self) -> (c: Cost)
        ensures
            c == self.floor(),
    {
        self.min_step
    }

    /// The priced steps out of `from` along its neighbours, in order: each neighbour the rule lets
    /// you enter, with what entering it costs.
    pub(crate) fn price_out<C: Coord>(&self, from: Idx, nbrs: &Vec<(<C as Coord>::Dir, Idx)>) -> (r: Vec<(u32, Cost)>)
        where
            F: Fn(Step<C>) -> Option<Cost>,
        requires
            pure_rule(self.rule()),
        ensures
            r@ == priced(self.rule(), from.id(), nbrs@),
    {
        let mut r: Vec<(u32, Cost)> = Vec::new();
        let mut k: usize = 0;
        proof {
            assert(nbrs@.take(0) =~= Seq::<(<C as Coord>::Dir, Idx)>::empty());
        }
        while k < nbrs.len()
            invariant
                k <= nbrs@.len(),
                pure_rule(self.rule()),
                r@ == priced(self.rule(), from.id(), nbrs@.take(k as int)),
            decreases nbrs@.len() - k,
        {
            let (d, to) = nbrs[k];
            proof {
                assert(nbrs@.take(k + 1).drop_last() =~= nbrs@.take(k as int));
                assert(nbrs@.take(k + 1).last() == (d, to));
            }
            let s = Step { from, to, dir: d };
            proof {
                assert(s == (Step::<C> { from: idx(from.id()), to, dir: d }));
            }
            match self.enter(s) {
                Some(c) => r.push((to.raw(), c)),
                None => {},
            }
            k = k + 1;
        }
        proof {
            assert(nbrs@.take(k as int) =~= nbrs@);
        }
        r
    }

    /// The priced steps into `to` from the cells that step into it, in order.
    pub(crate) fn price_in<C: Coord>(&self, to: Idx, nbrs: &Vec<(<C as Coord>::Dir, Idx)>) -> (r: Vec<(u32, Cost)>)
        where
            F: Fn(Step<C>) -> Option<Cost>,
        requires
            pure_rule(self.rule()),
        ensures
            r@ == priced_in(self.rule(), to.id(), nbrs@),
    {
        let mut r: Vec<(u32, Cost)> = Vec::new();
        let mut k: usize = 0;
        proof {
            assert(nbrs@.take(0) =~= Seq::<(<C as Coord>::Dir, Idx)>::empty());
        }
        while k < nbrs.len()
            invariant
                k <= nbrs@.len(),
                pure_rule(self.rule()),
                r@ == priced_in(self.rule(), to.id(), nbrs@.take(k as int)),
            decreases nbrs@.len() - k,
        {
            let (d, from) = nbrs[k];
            proof {
                assert(nbrs@.take(k + 1).drop_last() =~= nbrs@.take(k as int));
                assert(nbrs@.take(k + 1).last() == (d, from));
            }
            let s = Step { from, to, dir: d };
            proof {
                assert(s == (Step::<C> { from, to: idx(to.id()), dir: d }));
            }
            match self.enter(s) {
                Some(c) => r.push((from.raw(), c)),
                None => {},
            }
            k = k + 1;
        }
        proof {
            assert(nbrs@.take(k as int) =~= nbrs@);
        }
        r
    }

    /// What one step costs, or `None` where the rules forbid it.
    pub(crate) fn enter<C: Coord>(&self, s: Step<C>) -> (r: Option<Cost>)
        where
            F: Fn(Step<C>) -> Option<Cost>,
        requires
            pure_rule(self.rule()),
        ensures
            r == price(self.rule(), s),
    {
        (self.enter)(s)
    }
}

impl Movement<()> {
    /// Every step costs the same, and every cell is passable.
    ///
    /// The right answer whenever the board itself is the only constraint — a reachability question,
    /// a connectivity check, a distance in steps rather than in terrain. `cost` may not exceed the
    /// ceiling [`Movement::scan`] enforces, for the same reason.
    pub fn uniform<B: Grid>(g: &B, cost: Cost) -> (m: Movement<impl Fn(Step<B::Cell>) -> Option<Cost>>)
        requires
            g.wf(),
            cost <= ceiling_of(g.model().len() as int),
        ensures
            m.floor() == cost,
            pure_rule(m.rule()),
            forall|s: Step<B::Cell>, r: Option<Cost>| #[trigger] m.rule().ensures((s,), r) ==> r == Some(cost),
    {
        let _ = g.len();
        let f = move |s: Step<B::Cell>| -> (r: Option<Cost>)
            ensures
                r == Some(cost),
            { Some(cost) };
        Movement { enter: f, min_step: cost }
    }
}

/// A route, and what walking it costs.
///
/// [`steps`](Path::steps)`[0]` is where you started — you are never charged for the cell you are
/// already on — and the last is where you end up. A path of one cell is a path that goes nowhere,
/// at no cost. Only a search builds one, so it always has a first cell.
///
/// **Do not reverse it.** The graph is directed; the way back may be dearer, or may not exist.
#[derive(Debug, PartialEq, Eq)]
pub struct Path {
    steps: Vec<Idx>,
    cost: Cost,
}

/// A copy of a list of plain values, element for element.
pub(crate) fn copied<T: Copy>(v: &Vec<T>) -> (r: Vec<T>)
    ensures
        r@ == v@,
{
    let mut r: Vec<T> = Vec::new();
    let mut k: usize = 0;
    while k < v.len()
        invariant
            k <= v@.len(),
            r@ == v@.take(k as int),
        decreases v@.len() - k,
    {
        r.push(v[k]);
        k = k + 1;
        proof {
            assert(r@ =~= v@.take(k as int));
        }
    }
    proof {
        assert(r@ =~= v@);
    }
    r
}

impl Clone for Path {
    fn clone(&self) -> (p: Path)
        ensures
            p.spec_steps() == self.spec_steps(),
            p.spec_cost() == self.spec_cost(),
    {
        proof {
            use_type_invariant(self);
        }
        Path { steps: copied(&self.steps), cost: self.cost }
    }
}

impl Path {
    /// The cells walked through, starting with the one set out from.
    pub closed spec fn spec_steps(&self) -> Seq<Idx> {
        self.steps@
    }

    /// What walking it costs.
    pub closed spec fn spec_cost(&self) -> Cost {
        self.cost
    }

    /// A path always sets out from somewhere.
    #[verifier::type_invariant]
    closed spec fn sets_out(&self) -> bool {
        self.steps@.len() > 0
    }

    /// Build one. Crate-internal: a route is something a search found, not something you assert.
    pub(crate) fn of(steps: Vec<Idx>, cost: Cost) -> (p: Path)
        requires
            steps@.len() > 0,
        ensures
            p.spec_steps() == steps@,
            p.spec_cost() == cost,
    {
        Path { steps, cost }
    }

    /// Every cell walked through, starting with the one you set out from.
    pub fn steps(&self) -> (r: &[Idx])
        ensures
            r@ == self.spec_steps(),
    {
        self.steps.as_slice()
    }

    /// What walking it costs. Entering cells only — standing still is free.
    pub fn cost(&self) -> (c: Cost)
        ensures
            c == self.spec_cost(),
    {
        self.cost
    }

    /// Where the path ends.
    pub fn destination(&self) -> (i: Idx)
        ensures
            self.spec_steps().len() > 0,
            i == self.spec_steps().last(),
    {
        proof {
            use_type_invariant(self);
        }
        self.steps[self.steps.len() - 1]
    }

    /// Where the path sets out from.
    pub fn start(&self) -> (i: Idx)
        ensures
            self.spec_steps().len() > 0,
            i == self.spec_steps()[0],
    {
        proof {
            use_type_invariant(self);
        }
        self.steps[0]
    }

    /// How many cells are actually moved through — one fewer than [`steps`](Path::steps), which
    /// counts the cell you set out from.
    pub fn len(&self) -> (n: usize)
        ensures
            n == self.spec_steps().len() - 1,
    {
        proof {
            use_type_invariant(self);
        }
        self.steps.len() - 1
    }

    /// Whether the path goes nowhere: it starts and ends on the same cell.
    pub fn is_empty(&self) -> (b: bool)
        ensures
            b == (self.spec_steps().len() == 1),
    {
        proof {
            use_type_invariant(self);
        }
        self.steps.len() == 1
    }
}

} // verus!
