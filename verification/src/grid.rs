//! What every board can answer, whatever it is made of.
//!
//! [`Grid`] is the vocabulary: cells, the steps between them, distance, sight, and reach. Three
//! things speak it, and code written against it does not care which it was handed —
//! [`FullGrid`](crate::FullGrid), a board you built; [`RectGrid`](crate::RectGrid), a rectangle it
//! computes; and [`SubGrid`], a region of either.
//!
//! The trait asks for a handful of geometry primitives and gives back everything else, written
//! once in terms of them. Each board states what it is as a mathematical model — a count of cells,
//! the coordinate of each, the step each direction takes — and every answer here is specified
//! against that model.
//!
//! Answers that are naturally a walk over cells come back as `Vec`s, in the order the walk visits
//! them.

use vstd::prelude::*;
use crate::coord::{Coord, Idx, Metric, idx};
use crate::tag::Tag;
use crate::sub::SubGrid;
use crate::line::{
    clear, clear_by, seen_by, lemma_sorted_unique, lemma_sparse_sorted, line_of, nums, on_line, reversed, sample, samples, seconds, sort_pairs,
    sparse_line, sparse_ok, steps_of,
};
use crate::path::{Cost, Movement, Path, Step, honest, passes, pure_rule, pure_sight, pure_test_on, verdict};
use crate::search::{
    lemma_keep_some_mem, astar, back_graph, capped_mul, connects, estimate_of, explore, ids, least_cost, lemma_estimate_consistent,
    lemma_least_unique, lemma_minted_reach, lemma_step_graph_ok, lex_le, mint, minted, priced, priced_in, reach_ok,
    route_ok, sat, sat_mul, step_graph, total, walk_between, yields_edges, yields_estimates, positive, ties_by_index,
};


verus! {

broadcast use crate::coord::group_idx;

/// The largest sight radius [`Grid::visible_from`] will attempt: 64.
///
/// Raycasting draws a line to every candidate cell, so its cost grows as the **cube** of the radius.
pub const MAX_SIGHT: u32 = 64;

/// The most cells a board may hold: 2²⁴.
pub open spec fn max_cells() -> int {
    0x100_0000
}

/// The direction type of a board's coordinate.
pub type Dir<B> = <<B as Grid>::Cell as Coord>::Dir;

/// One cell on a sight line: who is looking, what they are looking at, and the cell in between
/// being tested. All three are numbered by the board that was asked.
#[derive(Debug, Clone, Copy, PartialEq, Eq, Structural)]
pub struct Sight {
    /// Where the looker stands. Never itself tested.
    pub eye: Idx,
    /// The cell being tested. This is the one that may stop sight.
    pub at: Idx,
    /// What the looker is trying to see. Never itself tested.
    pub target: Idx,
}

/// The most a single step may cost on a board of `len` cells before a path could overflow a
/// [`Cost`](crate::Cost): `Cost::MAX / max(len - 1, 1)`.
pub open spec fn ceiling_of(len: int) -> int {
    if len <= 2 {
        0xffff_ffff
    } else {
        0xffff_ffffint / (len - 1)
    }
}

/// The most a single step may cost on a board of `len` cells.
///
/// No simple path visits a cell twice, so it takes at most `len - 1` steps. Keep every step under
/// this and no total can overflow.
pub fn cost_ceiling(len: usize) -> (c: u32)
    ensures
        c == ceiling_of(len as int),
{
    if len <= 2 {
        0xffff_ffff
    } else {
        let d: u64 = (len - 1) as u64;
        assert(d >= 2);
        let q: u64 = 0xffff_ffffu64 / d;
        assert(q <= 0xffff_ffff) by (nonlinear_arith)
            requires
                d >= 2,
                q == 0xffff_ffffu64 / d,
        ;
        q as u32
    }
}

// ---------------------------------------------------------------------------------------------
// The model every answer is stated against
// ---------------------------------------------------------------------------------------------

/// The directions of `ds` whose step `f` lands somewhere, each with where it lands, in order.
pub open spec fn keep_some<D>(ds: Seq<D>, f: spec_fn(D) -> Option<int>) -> Seq<(D, Idx)>
    decreases ds.len(),
{
    if ds.len() == 0 {
        Seq::empty()
    } else {
        let rest = keep_some(ds.drop_last(), f);
        match f(ds.last()) {
            Some(j) => rest.push((ds.last(), idx(j))),
            None => rest,
        }
    }
}

/// The cell `k + 1` steps from `i` along direction `d`, following `f`, or `None` once the walk
/// has left the board.
pub open spec fn walk_along<D>(f: spec_fn(int, D) -> Option<int>, i: int, d: D, k: nat) -> Option<int>
    decreases k,
{
    if k == 0 {
        f(i, d)
    } else {
        match walk_along(f, i, d, (k - 1) as nat) {
            Some(j) => f(j, d),
            None => None,
        }
    }
}

/// The first `n` cells a walk along `d` reaches, as long as they last and `ok` holds of them.
pub open spec fn walk_taken<D>(
    f: spec_fn(int, D) -> Option<int>,
    i: int,
    d: D,
    n: nat,
    ok: spec_fn(int) -> bool,
    r: Seq<Idx>,
) -> bool {
    &&& r.len() <= n
    &&& forall|k: int| 0 <= k < r.len() ==> walk_along(f, i, d, k as nat) == Some(#[trigger] r[k].id()) && ok(r[k].id())
    &&& r.len() == n || walk_along(f, i, d, r.len()) is None || !ok(walk_along(f, i, d, r.len())->0)
}

/// A trail of cells through the board: each a cell for which `ok` holds, each a step from the one
/// before.
pub open spec fn is_trail<C: Coord>(m: Model<C>, ok: spec_fn(int) -> bool, t: Seq<int>) -> bool {
    &&& t.len() >= 1
    &&& forall|k: int| 0 <= k < t.len() ==> m.valid(#[trigger] t[k]) && ok(t[k])
    &&& forall|k: int| #![trigger t[k]] 0 <= k < t.len() - 1 ==> adjacent(m, t[k], t[k + 1])
}

/// Whether some single step leads from cell `a` to cell `b`.
pub open spec fn adjacent<C: Coord>(m: Model<C>, a: int, b: int) -> bool {
    exists|d: <C as Coord>::Dir| #[trigger] (m.step)(a, d) == Some(b)
}

/// A trail through cells for which `ok` holds leads from `i` to `j`.
pub open spec fn linked<C: Coord>(m: Model<C>, ok: spec_fn(int) -> bool, i: int, j: int) -> bool {
    exists|t: Seq<int>| is_trail(m, ok, t) && t[0] == i && t.last() == j
}

/// The cells of a board for which `ok` holds.
pub open spec fn passable_cells<C: Coord>(m: Model<C>, ok: spec_fn(int) -> bool) -> Set<int> {
    Set::new(|j: int| 0 <= j < m.len() && ok(j))
}

/// The passable cells are one piece exactly when the component of the lowest passable cell
/// holds as many cells as there are passable cells: `members` is that component, as a list of
/// the cells linked from `f`, each once.
pub proof fn lemma_connected_by_count<C: Coord>(m: Model<C>, ok: spec_fn(int) -> bool, f: int, members: Seq<u32>)
    requires
        0 <= f < m.len(),
        m.len() <= max_cells(),
        members.no_duplicates(),
        forall|x: u32| #[trigger] members.contains(x) <==> (x < m.len() && linked(m, ok, f, x as int)),
    ensures
        passable_cells(m, ok).finite(),
        (forall|j: int| 0 <= j < m.len() && ok(j) ==> #[trigger] linked(m, ok, f, j)) <==> members.len()
            == passable_cells(m, ok).len(),
{
    let p = passable_cells(m, ok);
    let ms = members.map_values(|x: u32| x as int);
    vstd::set_lib::lemma_int_range(0, m.len() as int);
    assert(p =~= vstd::set_lib::set_int_range(0, m.len() as int).filter(|j: int| ok(j)));
    vstd::set_lib::set_int_range(0, m.len() as int).lemma_len_filter(|j: int| ok(j));
    assert(ms.no_duplicates()) by {
        assert forall|i: int, k: int| 0 <= i < ms.len() && 0 <= k < ms.len() && i != k implies ms[i] != ms[k] by {
            assert(members[i] != members[k]);
        }
    }
    ms.unique_seq_to_set();
    let r = ms.to_set();
    assert forall|j: int| #[trigger] r.contains(j) <==> (0 <= j < m.len() && linked(m, ok, f, j)) by {
        if r.contains(j) {
            let i = ms.index_of(j);
            assert(members.contains(members[i]));
        }
        if 0 <= j < m.len() && linked(m, ok, f, j) {
            assert((j as u32) as int == j);
            assert(members.contains(j as u32));
            let i = members.index_of(j as u32);
            assert(ms[i] == j);
        }
    }
    assert(r.subset_of(p)) by {
        assert forall|j: int| r.contains(j) implies p.contains(j) by {
            let t = choose|t: Seq<int>| is_trail(m, ok, t) && t[0] == f && t.last() == j;
            assert(ok(t[t.len() - 1]));
        }
    }
    vstd::seq_lib::seq_to_set_is_finite(ms);
    if forall|j: int| 0 <= j < m.len() && ok(j) ==> #[trigger] linked(m, ok, f, j) {
        assert(r =~= p);
    }
    if members.len() == p.len() {
        vstd::set_lib::lemma_subset_equality(r, p);
        assert forall|j: int| 0 <= j < m.len() && ok(j) implies #[trigger] linked(m, ok, f, j) by {
            assert(p.contains(j));
        }
    }
}

/// How many entries of a table are set.
pub open spec fn marked(s: Seq<bool>) -> nat
    decreases s.len(),
{
    if s.len() == 0 {
        0
    } else {
        marked(s.drop_last()) + if s.last() { 1nat } else { 0nat }
    }
}

proof fn lemma_marked_set(s: Seq<bool>, i: int)
    requires
        0 <= i < s.len(),
        !s[i],
    ensures
        marked(s.update(i, true)) == marked(s) + 1,
    decreases s.len(),
{
    let t = s.update(i, true);
    if i == s.len() - 1 {
        assert(t.drop_last() =~= s.drop_last());
    } else {
        assert(t.drop_last() =~= s.drop_last().update(i, true));
        lemma_marked_set(s.drop_last(), i);
    }
}

proof fn lemma_marked_bound(s: Seq<bool>)
    ensures
        marked(s) <= s.len(),
    decreases s.len(),
{
    if s.len() > 0 {
        lemma_marked_bound(s.drop_last());
    }
}

/// A step that lands is among the steps `keep_some` keeps.
pub(crate) proof fn lemma_keep_some_has<D>(ds: Seq<D>, f: spec_fn(D) -> Option<int>, d: D)
    requires
        ds.contains(d),
        f(d) is Some,
    ensures
        keep_some(ds, f).contains((d, idx(f(d)->0))),
    decreases ds.len(),
{
    if ds.last() == d {
        let r = keep_some(ds, f);
        assert(r[r.len() - 1] == (d, idx(f(d)->0)));
    } else {
        let i = ds.index_of(d);
        assert(ds.drop_last()[i] == d);
        lemma_keep_some_has(ds.drop_last(), f, d);
        let rest = keep_some(ds.drop_last(), f);
        let k = rest.index_of((d, idx(f(d)->0)));
        let r = keep_some(ds, f);
        assert(r[k] == rest[k]);
    }
}

/// Each neighbour a board lists for a cell is a real step to a cell of the board.
proof fn lemma_out<C: Coord>(m: Model<C>, x: int, k: int)
    requires
        m.laws(),
        m.valid(x),
        0 <= k < m.outs(x).len(),
    ensures
        m.valid(m.outs(x)[k].1.id()),
        (m.step)(x, m.outs(x)[k].0) == Some(m.outs(x)[k].1.id()),
{
    lemma_keep_some_mem(m.dirs, |d: <C as Coord>::Dir| (m.step)(x, d), k);
}

/// A passable trail extended by one passable step is still a passable trail.
proof fn lemma_trail_push<C: Coord>(m: Model<C>, ok: spec_fn(int) -> bool, t: Seq<int>, d: <C as Coord>::Dir, j: int)
    requires
        is_trail(m, ok, t),
        m.valid(j),
        ok(j),
        (m.step)(t.last(), d) == Some(j),
    ensures
        is_trail(m, ok, t.push(j)),
        t.push(j)[0] == t[0],
        t.push(j).last() == j,
{
    let t2 = t.push(j);
    assert forall|k: int| #![trigger t2[k]] 0 <= k < t2.len() - 1 implies adjacent(m, t2[k], t2[k + 1]) by {
        if k == t.len() - 1 {
            assert((m.step)(t2[k], d) == Some(t2[k + 1]));
        } else {
            assert(t2[k] == t[k] && t2[k + 1] == t[k + 1]);
            assert(adjacent(m, t[k], t[k + 1]));
        }
    }
    assert forall|k: int| 0 <= k < t2.len() implies m.valid(#[trigger] t2[k]) && ok(t2[k]) by {
        if k < t.len() {
            assert(t2[k] == t[k]);
        }
    }
}

/// A set of cells closed under passable steps holds the end of every passable trail that starts
/// in it.
proof fn lemma_closed_reaches<C: Coord>(m: Model<C>, ok: spec_fn(int) -> bool, seen: Seq<bool>, t: Seq<int>, k: int)
    requires
        m.laws(),
        seen.len() == m.len(),
        is_trail(m, ok, t),
        0 <= k < t.len(),
        seen[t[k]],
        forall|y: int, k3: int|
            0 <= y < m.len() && seen[y] && 0 <= k3 < m.outs(y).len() && ok((#[trigger] m.outs(y)[k3]).1.id())
                ==> seen[m.outs(y)[k3].1.id()],
    ensures
        seen[t.last()],
    decreases t.len() - k,
{
    if k < t.len() - 1 {
        assert(adjacent(m, t[k], t[k + 1]));
        let d = choose|d: <C as Coord>::Dir| #[trigger] (m.step)(t[k], d) == Some(t[k + 1]);
        assert(m.valid(t[k]));
        lemma_keep_some_has(m.dirs, |d2: <C as Coord>::Dir| (m.step)(t[k], d2), d);
        let k3 = m.outs(t[k]).index_of((d, idx(t[k + 1])));
        assert(m.outs(t[k])[k3] == (d, idx(t[k + 1])));
        assert(m.valid(t[k + 1]));
        assert(ok(t[k + 1]));
        lemma_closed_reaches(m, ok, seen, t, k + 1);
    }
}

/// The offset table a metric answers range queries from is small enough to build for radius `r`.
pub open spec fn table_fits(m: Metric, r: u32, len: int) -> bool {
    crate::coord::metric_count(m.spec_kind(), r) <= len
}

/// A board as a mathematical value: its cells in index order, its direction alphabet, where each
/// step lands and which cell each step comes from, and its metric.
pub struct Model<C: Coord> {
    /// The coordinate of every cell, in index order.
    pub cells: Seq<C>,
    /// The direction alphabet, in the order every step is tried.
    pub dirs: Seq<<C as Coord>::Dir>,
    /// Where a step from cell `i` in direction `d` lands, if anywhere.
    pub step: spec_fn(int, <C as Coord>::Dir) -> Option<int>,
    /// Which cell steps into cell `j` in direction `d`, if any.
    pub back: spec_fn(int, <C as Coord>::Dir) -> Option<int>,
    /// How the board measures distance.
    pub metric: Metric,
}

impl<C: Coord> Model<C> {
    /// How many cells the board has.
    pub open spec fn len(self) -> nat {
        self.cells.len()
    }

    /// Whether `i` numbers a cell of the board.
    pub open spec fn valid(self, i: int) -> bool {
        0 <= i < self.cells.len()
    }

    /// The distance between cells `a` and `b`.
    pub open spec fn dist(self, a: int, b: int) -> u32 {
        self.cells[a].spec_distance(self.cells[b], self.metric.spec_kind())
    }

    /// The index of a coordinate, or `None` off the board.
    pub open spec fn index_of(self, c: C) -> Option<Idx> {
        if self.cells.contains(c) {
            Some(idx(self.cells.index_of(c)))
        } else {
            None
        }
    }

    /// The neighbours of cell `i`, with the direction that reaches each, in direction order.
    pub open spec fn outs(self, i: int) -> Seq<(<C as Coord>::Dir, Idx)> {
        keep_some(self.dirs, |d: <C as Coord>::Dir| (self.step)(i, d))
    }

    /// The cells that step into cell `j`, with the direction each travels, in direction order.
    pub open spec fn ins(self, j: int) -> Seq<(<C as Coord>::Dir, Idx)> {
        keep_some(self.dirs, |d: <C as Coord>::Dir| (self.back)(j, d))
    }

    /// What every well-formed board keeps.
    ///
    /// Its cells are distinct and there are at most 2²⁴ of them. A step stays on the board, never
    /// lands where it started, uses a direction of the alphabet, and covers at most one unit of
    /// the metric. A step is undone by exactly one cell, and only a step is undone.
    pub open spec fn laws(self) -> bool {
        &&& self.cells.len() <= max_cells()
        &&& self.cells.no_duplicates()
        &&& forall|i: int, d: <C as Coord>::Dir|
            self.valid(i) && (#[trigger] (self.step)(i, d)) is Some ==> {
                let j = (self.step)(i, d)->0;
                &&& self.valid(j)
                &&& j != i
                &&& self.dirs.contains(d)
                &&& self.dist(i, j) <= 1
                &&& (self.back)(j, d) == Some(i)
            }
        &&& forall|j: int, d: <C as Coord>::Dir|
            self.valid(j) && (#[trigger] (self.back)(j, d)) is Some ==> {
                let i = (self.back)(j, d)->0;
                &&& self.valid(i)
                &&& (self.step)(i, d) == Some(j)
            }
    }
}

// ---------------------------------------------------------------------------------------------
// The whole board a region is taken from
// ---------------------------------------------------------------------------------------------

/// A board that owns its cells: what a [`SubGrid`] reads of the board it was taken from.
///
/// [`FullGrid`](crate::FullGrid) and [`RectGrid`](crate::RectGrid) are whole boards. The methods
/// are the [`Grid`] primitives under the names a region asks for them by.
pub trait RootGrid: Sized {
    /// The coordinate this board is laid out on.
    type Cell: Coord;

    /// The board is well formed.
    spec fn whole_wf(&self) -> bool;

    /// The board as a mathematical value.
    spec fn whole(&self) -> Model<Self::Cell>;

    /// A well-formed whole board keeps the laws of a board.
    proof fn lemma_whole(&self)
        requires
            self.whole_wf(),
        ensures
            self.whole().laws(),
    ;

    /// How many cells the board has.
    fn whole_count(&self) -> (r: usize)
        requires
            self.whole_wf(),
        ensures
            r == self.whole().len(),
    ;

    /// The coordinate at a root index.
    fn whole_coord_at(&self, i: u32) -> (c: Self::Cell)
        requires
            self.whole_wf(),
            i < self.whole().len(),
        ensures
            c == self.whole().cells[i as int],
    ;

    /// The root index of a coordinate, or `None` off the board.
    fn whole_index_of(&self, c: Self::Cell) -> (r: Option<Idx>)
        requires
            self.whole_wf(),
        ensures
            r == self.whole().index_of(c),
    ;

    /// The direction alphabet.
    fn whole_dir_list(&self) -> (r: &[<Self::Cell as Coord>::Dir])
        requires
            self.whole_wf(),
        ensures
            r@ == self.whole().dirs,
    ;

    /// One step from a root index.
    fn whole_step_at(&self, i: u32, d: <Self::Cell as Coord>::Dir) -> (r: Option<u32>)
        requires
            self.whole_wf(),
            i < self.whole().len(),
        ensures
            match (self.whole().step)(i as int, d) {
                Some(j) => r == Some(j as u32),
                None => r is None,
            },
    ;

    /// The cell that steps into a root index in direction `d`.
    fn whole_back_at(&self, j: u32, d: <Self::Cell as Coord>::Dir) -> (r: Option<u32>)
        requires
            self.whole_wf(),
            j < self.whole().len(),
        ensures
            match (self.whole().back)(j as int, d) {
                Some(i) => r == Some(i as u32),
                None => r is None,
            },
    ;

    /// How the board measures distance.
    fn whole_metric_of(&self) -> (m: Metric)
        requires
            self.whole_wf(),
        ensures
            m == self.whole().metric,
    ;
}

// ---------------------------------------------------------------------------------------------
// The vocabulary
// ---------------------------------------------------------------------------------------------

/// A board: cells, the steps between them, and the questions you may ask about both.
///
/// # Indices are per-board
///
/// An [`Idx`] means something only to the board that issued it. A [`SubGrid`] numbers its own cells
/// from zero, so its indices and its root's are **both valid and mutually wrong**.
/// [`to_root`](Grid::to_root) and [`of_root`](Grid::of_root) are the bridge, and they are the only
/// correct one.
///
/// # What each question hands back
///
/// A [`SubGrid`] when the answer *is* a board and you will go on to ask it things
/// ([`within`](Grid::within), [`ring`](Grid::ring), [`component`](Grid::component),
/// [`visible_from`](Grid::visible_from)). A `Vec` for everything else, in the order the walk
/// produces it.
pub trait Grid: Sized {
    /// The coordinate this board is laid out on.
    type Cell: Coord;

    /// The whole board these cells belong to: `Self` for one you built, and the board it was taken
    /// from for a [`SubGrid`].
    type Root: RootGrid<Cell = Self::Cell>;

    // -- the model ---------------------------------------------------------------------------

    /// The board is well formed: every constructor establishes it.
    spec fn wf(&self) -> bool;

    /// The board as a mathematical value.
    spec fn model(&self) -> Model<Self::Cell>;

    /// The board that owns these cells.
    spec fn spec_root(&self) -> Self::Root;

    /// The root's number for cell `i`.
    spec fn spec_to_root(&self, i: int) -> int;

    /// What every well-formed board keeps: the laws of a board, and a place inside its root, cell
    /// for cell and in the root's order, measured and stepped as the root is.
    proof fn lemma_grid(&self)
        requires
            self.wf(),
        ensures
            self.model().laws(),
            self.spec_root().whole_wf(),
            self.spec_root().whole().metric == self.model().metric,
            self.spec_root().whole().dirs == self.model().dirs,
            forall|i: int|
                0 <= i < self.model().len() ==> 0 <= #[trigger] self.spec_to_root(i) < self.spec_root().whole().len()
                    && self.spec_root().whole().cells[self.spec_to_root(i)] == self.model().cells[i],
            forall|i: int, j: int|
                0 <= i < j < self.model().len() ==> #[trigger] self.spec_to_root(i) < #[trigger] self.spec_to_root(j),
    ;

    // -- required: the geometry primitives ---------------------------------------------------

    /// This board's numbering, for checking the indices handed to it.
    fn tag(&self) -> (t: Tag)
        ensures
            t == Tag,
    ;

    /// How many cells the board has.
    fn len(&self) -> (r: usize)
        requires
            self.wf(),
        ensures
            r == self.model().len(),
    ;

    /// The coordinate at an index.
    fn coord(&self, i: Idx) -> (c: Self::Cell)
        requires
            self.wf(),
            i.id() < self.model().len(),
        ensures
            c == self.model().cells[i.id()],
    ;

    /// The index of a coordinate, or `None` if it is not on the board.
    fn index_of(&self, c: Self::Cell) -> (r: Option<Idx>)
        requires
            self.wf(),
        ensures
            r == self.model().index_of(c),
    ;

    /// The direction alphabet this board was built with.
    fn dirs(&self) -> (r: &[Dir<Self>])
        requires
            self.wf(),
        ensures
            r@ == self.model().dirs,
    ;

    /// The cell one step from `i` in direction `d`, or `None` at the board's edge.
    ///
    /// It respects holes — you cannot step into a cell that is not there. For the hole-ignoring
    /// version, see [`Grid::offset`].
    fn step(&self, i: Idx, d: Dir<Self>) -> (r: Option<Idx>)
        requires
            self.wf(),
            i.id() < self.model().len(),
        ensures
            match (self.model().step)(i.id(), d) {
                Some(j) => r == Some(idx(j)),
                None => r is None,
            },
    ;

    /// The cell that steps into `j` in direction `d`, or `None` if no cell does.
    fn back(&self, j: Idx, d: Dir<Self>) -> (r: Option<Idx>)
        requires
            self.wf(),
            j.id() < self.model().len(),
        ensures
            match (self.model().back)(j.id(), d) {
                Some(i) => r == Some(idx(i)),
                None => r is None,
            },
    ;

    /// How distance is measured and range queries are answered.
    fn metric(&self) -> (m: Metric)
        requires
            self.wf(),
        ensures
            m == self.model().metric,
    ;

    /// The board that owns these cells. A whole board is its own root.
    fn root(&self) -> (r: &Self::Root)
        requires
            self.wf(),
        ensures
            *r == self.spec_root(),
    ;

    /// This board's index for a cell, as the root numbers it.
    fn to_root(&self, i: Idx) -> (r: Idx)
        requires
            self.wf(),
            i.id() < self.model().len(),
        ensures
            r == idx(self.spec_to_root(i.id())),
    ;

    /// Where a cell of the root sits on this board, or `None` if it is not on it.
    fn of_root(&self, i: Idx) -> (r: Option<Idx>)
        requires
            self.wf(),
        ensures
            match r {
                Some(k) => k.id() < self.model().len() && self.spec_to_root(k.id()) == i.id(),
                None => forall|k: int| 0 <= k < self.model().len() ==> self.spec_to_root(k) != i.id(),
            },
    ;

    // -- provided: everything else ------------------------------------------------------------

    /// Whether the board has no cells at all.
    fn is_empty(&self) -> (b: bool)
        requires
            self.wf(),
        ensures
            b == (self.model().len() == 0),
    {
        self.len() == 0
    }

    /// The index of a coordinate you already know is on the board.
    ///
    /// [`index_of`](Grid::index_of) is the same question when off the board is an answer rather
    /// than a mistake.
    fn at(&self, c: Self::Cell) -> (i: Idx)
        requires
            self.wf(),
            self.model().cells.contains(c),
        ensures
            self.model().index_of(c) == Some(i),
            i.id() < self.model().len(),
            self.model().cells[i.id()] == c,
    {
        proof {
            self.lemma_grid();
            let k = self.model().cells.index_of(c);
            assert(0 <= k < self.model().len() && self.model().cells[k] == c);
        }
        match self.index_of(c) {
            Some(i) => i,
            None => {
                proof {
                    assert(false);
                }
                idx_zero()
            },
        }
    }

    /// The cell one step from a coordinate, or `None` if either the coordinate or the destination
    /// is not on this board.
    fn step_from(&self, c: Self::Cell, d: Dir<Self>) -> (r: Option<Self::Cell>)
        requires
            self.wf(),
        ensures
            r == (match self.model().index_of(c) {
                Some(i) => match (self.model().step)(i.id(), d) {
                    Some(j) => Some(self.model().cells[j]),
                    None => None,
                },
                None => None,
            }),
    {
        proof {
            self.lemma_grid();
        }
        match self.index_of(c) {
            Some(i) => {
                match self.step(i, d) {
                    Some(j) => Some(self.coord(j)),
                    None => None,
                }
            },
            None => None,
        }
    }

    /// Every cell index, in order.
    fn indices(&self) -> (r: Vec<Idx>)
        requires
            self.wf(),
        ensures
            r@.len() == self.model().len(),
            forall|k: int| 0 <= k < r@.len() ==> #[trigger] r@[k] == idx(k),
    {
        proof {
            self.lemma_grid();
        }
        let n = self.len();
        let tag = self.tag();
        let mut r: Vec<Idx> = Vec::new();
        let mut k: usize = 0;
        while k < n
            invariant
                k <= n,
                n <= max_cells(),
                r@.len() == k,
                forall|j: int| 0 <= j < k ==> #[trigger] r@[j] == idx(j),
            decreases n - k,
        {
            r.push(Idx::new(tag, k as u32));
            k = k + 1;
        }
        r
    }

    /// Every cell's coordinate, in index order. This is what you save.
    fn cells(&self) -> (r: Vec<Self::Cell>)
        requires
            self.wf(),
        ensures
            r@ == self.model().cells,
    {
        proof {
            self.lemma_grid();
        }
        let n = self.len();
        let tag = self.tag();
        let mut r: Vec<Self::Cell> = Vec::new();
        let mut k: usize = 0;
        while k < n
            invariant
                self.wf(),
                k <= n,
                n == self.model().len(),
                n <= max_cells(),
                r@.len() == k,
                forall|j: int| 0 <= j < k ==> #[trigger] r@[j] == self.model().cells[j],
            decreases n - k,
        {
            r.push(self.coord(Idx::new(tag, k as u32)));
            k = k + 1;
        }
        assert(r@ =~= self.model().cells);
        r
    }

    /// The coordinates of some indices, in the order given.
    fn coords_of(&self, of: &[Idx]) -> (r: Vec<Self::Cell>)
        requires
            self.wf(),
            forall|k: int| 0 <= k < of@.len() ==> (#[trigger] of@[k]).id() < self.model().len(),
        ensures
            r@.len() == of@.len(),
            forall|k: int| 0 <= k < r@.len() ==> #[trigger] r@[k] == self.model().cells[of@[k].id()],
    {
        let mut r: Vec<Self::Cell> = Vec::new();
        let mut k: usize = 0;
        while k < of.len()
            invariant
                self.wf(),
                forall|j: int| 0 <= j < of@.len() ==> (#[trigger] of@[j]).id() < self.model().len(),
                k <= of@.len(),
                r@.len() == k,
                forall|j: int| 0 <= j < k ==> #[trigger] r@[j] == self.model().cells[of@[j].id()],
            decreases of@.len() - k,
        {
            r.push(self.coord(of[k]));
            k = k + 1;
        }
        r
    }

    /// Whether a coordinate is on the board.
    fn contains(&self, c: Self::Cell) -> (b: bool)
        requires
            self.wf(),
        ensures
            b == self.model().cells.contains(c),
    {
        self.index_of(c).is_some()
    }

    /// Every neighbour of `i`, with the direction that reaches it, in direction order.
    fn neighbors(&self, i: Idx) -> (r: Vec<(Dir<Self>, Idx)>)
        requires
            self.wf(),
            i.id() < self.model().len(),
        ensures
            r@ == self.model().outs(i.id()),
    {
        let ds = self.dirs();
        let mut r: Vec<(Dir<Self>, Idx)> = Vec::new();
        let mut k: usize = 0;
        proof {
            assert(ds@.take(0) =~= Seq::<Dir<Self>>::empty());
        }
        while k < ds.len()
            invariant
                self.wf(),
                i.id() < self.model().len(),
                k <= ds@.len(),
                ds@ == self.model().dirs,
                r@ == keep_some(ds@.take(k as int), |d: Dir<Self>| (self.model().step)(i.id(), d)),
            decreases ds@.len() - k,
        {
            let d = ds[k];
            proof {
                assert(ds@.take(k + 1).drop_last() =~= ds@.take(k as int));
                assert(ds@.take(k + 1).last() == d);
            }
            match self.step(i, d) {
                Some(j) => r.push((d, j)),
                None => {},
            }
            k = k + 1;
        }
        proof {
            assert(ds@.take(k as int) =~= ds@);
        }
        r
    }

    /// The cells that can step **into** `j`, and the direction each would travel to do it.
    ///
    /// The mirror of [`Grid::neighbors`], and not the same set — the graph is directed, so a cell
    /// you can leave towards is not necessarily one you can arrive from.
    fn in_neighbors(&self, j: Idx) -> (r: Vec<(Dir<Self>, Idx)>)
        requires
            self.wf(),
            j.id() < self.model().len(),
        ensures
            r@ == self.model().ins(j.id()),
    {
        let ds = self.dirs();
        let mut r: Vec<(Dir<Self>, Idx)> = Vec::new();
        let mut k: usize = 0;
        proof {
            assert(ds@.take(0) =~= Seq::<Dir<Self>>::empty());
        }
        while k < ds.len()
            invariant
                self.wf(),
                j.id() < self.model().len(),
                k <= ds@.len(),
                ds@ == self.model().dirs,
                r@ == keep_some(ds@.take(k as int), |d: Dir<Self>| (self.model().back)(j.id(), d)),
            decreases ds@.len() - k,
        {
            let d = ds[k];
            proof {
                assert(ds@.take(k + 1).drop_last() =~= ds@.take(k as int));
                assert(ds@.take(k + 1).last() == d);
            }
            match self.back(j, d) {
                Some(i) => r.push((d, i)),
                None => {},
            }
            k = k + 1;
        }
        proof {
            assert(ds@.take(k as int) =~= ds@);
        }
        r
    }

    /// The cell at `coord(i) + delta`, or `None` if there is no such cell.
    ///
    /// A *lattice* hop, not a walk: it leaps over holes and over pieces, as a knight does.
    fn offset(&self, i: Idx, delta: Self::Cell) -> (r: Option<Idx>)
        requires
            self.wf(),
            i.id() < self.model().len(),
        ensures
            r == self.model().index_of(self.model().cells[i.id()].spec_plus(delta)),
    {
        self.index_of(self.coord(i).plus(delta))
    }

    // -- regions -------------------------------------------------------------------------------

    /// A region of this board, as a board of its own.
    ///
    /// The cells you name become a [`SubGrid`] of this board's root, numbered in the root's order,
    /// each once: the order you list them in does not reach the result, and duplicates collapse.
    /// Subsets do not nest, so [`to_root`](Grid::to_root) is one hop however many times you narrow.
    fn subset(&self, cells: Vec<Idx>) -> (r: SubGrid<'_, Self::Root>)
        requires
            self.wf(),
            forall|k: int| 0 <= k < cells@.len() ==> (#[trigger] cells@[k]).id() < self.model().len(),
        ensures
            r.sound(),
            r.base() == self.spec_root(),
            forall|x: u32| #[trigger] r.members().contains(x) <==> exists|k: int|
                0 <= k < cells@.len() && self.spec_to_root(cells@[k].id()) == x,
    {
        proof {
            self.lemma_grid();
        }
        let mut lifted: Vec<Idx> = Vec::new();
        let mut k: usize = 0;
        while k < cells.len()
            invariant
                self.wf(),
                forall|j: int| 0 <= j < cells@.len() ==> (#[trigger] cells@[j]).id() < self.model().len(),
                forall|i: int| 0 <= i < self.model().len() ==> 0 <= #[trigger] self.spec_to_root(i) < self.spec_root().whole().len(),
                k <= cells@.len(),
                lifted@.len() == k,
                forall|j: int| 0 <= j < k ==> #[trigger] lifted@[j] == idx(self.spec_to_root(cells@[j].id())),
            decreases cells@.len() - k,
        {
            lifted.push(self.to_root(cells[k]));
            k = k + 1;
        }
        let r = SubGrid::of(self.root(), lifted);
        proof {
            self.spec_root().lemma_whole();
            assert forall|x: u32| #[trigger] r.members().contains(x) <==> exists|k: int|
                0 <= k < cells@.len() && self.spec_to_root(cells@[k].id()) == x by {
                if r.members().contains(x) {
                    let j = choose|j: int| 0 <= j < lifted@.len() && #[trigger] lifted@[j].id() == x;
                    assert(0 <= self.spec_to_root(cells@[j].id()) < self.spec_root().whole().len());
                    assert(self.spec_to_root(cells@[j].id()) == x);
                }
                if exists|k: int| 0 <= k < cells@.len() && self.spec_to_root(cells@[k].id()) == x {
                    let j = choose|j: int| 0 <= j < cells@.len() && self.spec_to_root(cells@[j].id()) == x;
                    assert(0 <= self.spec_to_root(cells@[j].id()) < self.spec_root().whole().len());
                    assert(lifted@[j].id() == x);
                }
            }
        }
        r
    }

    /// The cells within a coordinate range, or `None` if the origin is not on this board.
    fn within_cell(&self, c: Self::Cell, min: u32, max: u32) -> (r: Option<SubGrid<'_, Self::Root>>)
        requires
            self.wf(),
        ensures
            match self.model().index_of(c) {
                Some(i) => r matches Some(s) && s.sound() && s.base() == self.spec_root() && forall|x: u32|
                    #[trigger] s.members().contains(x) <==> exists|j: int|
                        0 <= j < self.model().len() && self.spec_to_root(j) == x && min <= self.model().dist(i.id(), j) <= max,
                None => r is None,
            },
    {
        proof {
            self.lemma_grid();
            let cs = self.model().cells;
            if cs.contains(c) {
                let k = cs.index_of(c);
                assert(0 <= k < cs.len() && cs[k] == c);
            }
        }
        match self.index_of(c) {
            Some(i) => Some(self.within(i, min, max)),
            None => None,
        }
    }

    // -- geometry ------------------------------------------------------------------------------

    /// Walk from `i` in a straight line until the board runs out.
    ///
    /// A rook, a bishop, a queen, a line of sight. The walk stops at the board's edge and at any
    /// hole, and never takes more steps than the board has cells.
    fn ray(&self, i: Idx, d: Dir<Self>) -> (r: Vec<Idx>)
        requires
            self.wf(),
            i.id() < self.model().len(),
        ensures
            walk_taken(self.model().step, i.id(), d, self.model().len(), |j: int| true, r@),
    {
        proof {
            self.lemma_grid();
        }
        let n = self.len();
        let mut r: Vec<Idx> = Vec::new();
        let mut at = self.step(i, d);
        while r.len() < n && at.is_some()
            invariant
                self.wf(),
                self.model().laws(),
                n == self.model().len(),
                i.id() < n,
                r@.len() <= n,
                forall|k: int| 0 <= k < r@.len() ==> walk_along(self.model().step, i.id(), d, k as nat) == Some(#[trigger] r@[k].id()),
                match walk_along(self.model().step, i.id(), d, r@.len()) {
                    Some(j) => at == Some(idx(j)) && 0 <= j < n,
                    None => at is None,
                },
            decreases n - r@.len(),
        {
            let j = at.unwrap();
            let ghost k0 = r@.len();
            r.push(j);
            at = self.step(j, d);
            proof {
                assert(walk_along(self.model().step, i.id(), d, (k0 + 1) as nat) == (self.model().step)(j.id(), d));
            }
        }
        r
    }

    /// The unbroken line of cells through `i` along the `d` axis, in board order.
    ///
    /// Line-of-five, a flanking check, the length of a wall segment. The answer reads along `d`:
    /// the cells behind `i` first, then `i`, then the cells ahead of it. `same` is asked about
    /// every cell except `i`, and `i` is always in the answer.
    ///
    /// Backwards it follows the cells that step *into* each cell along `d`, not `d` turned around,
    /// so a line up a one-way ledge is still whole.
    fn run<P: Fn(Idx) -> bool>(&self, i: Idx, d: Dir<Self>, same: P) -> (r: Vec<Idx>)
        requires
            self.wf(),
            i.id() < self.model().len(),
            pure_test_on(same, self.model().len() as int),
        ensures
            exists|behind: Seq<Idx>, ahead: Seq<Idx>| {
                &&& walk_taken(self.model().back, i.id(), d, self.model().len(), |j: int| verdict(same, idx(j)), behind)
                &&& walk_taken(self.model().step, i.id(), d, self.model().len(), |j: int| verdict(same, idx(j)), ahead)
                &&& r@ == behind.reverse() + seq![i] + ahead
            },
    {
        proof {
            self.lemma_grid();
        }
        let n = self.len();
        let ghost ok = |j: int| verdict(same, idx(j));
        let mut behind: Vec<Idx> = Vec::new();
        let mut at = self.back(i, d);
        let mut go = true;
        while go && behind.len() < n && at.is_some()
            invariant
                self.wf(),
                self.model().laws(),
                pure_test_on(same, self.model().len() as int),
                ok == (|j: int| verdict(same, idx(j))),
                n == self.model().len(),
                i.id() < n,
                behind@.len() <= n,
                forall|k: int| 0 <= k < behind@.len() ==> walk_along(self.model().back, i.id(), d, k as nat) == Some(#[trigger] behind@[k].id())
                    && ok(behind@[k].id()),
                match walk_along(self.model().back, i.id(), d, behind@.len()) {
                    Some(j) => at == Some(idx(j)) && 0 <= j < n && (!go ==> !ok(j)),
                    None => at is None,
                },
            decreases n - behind@.len() + (if go { 1int } else { 0int }),
        {
            let j = at.unwrap();
            if same(j) {
                let ghost k0 = behind@.len();
                behind.push(j);
                at = self.back(j, d);
                proof {
                    assert(walk_along(self.model().back, i.id(), d, (k0 + 1) as nat) == (self.model().back)(j.id(), d));
                }
            } else {
                go = false;
            }
        }
        let mut ahead: Vec<Idx> = Vec::new();
        let mut at = self.step(i, d);
        let mut go = true;
        while go && ahead.len() < n && at.is_some()
            invariant
                self.wf(),
                self.model().laws(),
                pure_test_on(same, self.model().len() as int),
                ok == (|j: int| verdict(same, idx(j))),
                n == self.model().len(),
                i.id() < n,
                ahead@.len() <= n,
                forall|k: int| 0 <= k < ahead@.len() ==> walk_along(self.model().step, i.id(), d, k as nat) == Some(#[trigger] ahead@[k].id())
                    && ok(ahead@[k].id()),
                match walk_along(self.model().step, i.id(), d, ahead@.len()) {
                    Some(j) => at == Some(idx(j)) && 0 <= j < n && (!go ==> !ok(j)),
                    None => at is None,
                },
            decreases n - ahead@.len() + (if go { 1int } else { 0int }),
        {
            let j = at.unwrap();
            if same(j) {
                let ghost k0 = ahead@.len();
                ahead.push(j);
                at = self.step(j, d);
                proof {
                    assert(walk_along(self.model().step, i.id(), d, (k0 + 1) as nat) == (self.model().step)(j.id(), d));
                }
            } else {
                go = false;
            }
        }
        let mut line: Vec<Idx> = Vec::new();
        let mut k: usize = behind.len();
        while k > 0
            invariant
                k <= behind@.len(),
                line@ == behind@.skip(k as int).reverse(),
            decreases k,
        {
            k = k - 1;
            line.push(behind[k]);
            proof {
                assert(line@ =~= behind@.skip(k as int).reverse());
            }
        }
        proof {
            assert(behind@.skip(0) =~= behind@);
        }
        line.push(i);
        let mut k: usize = 0;
        let ghost head = line@;
        while k < ahead.len()
            invariant
                k <= ahead@.len(),
                line@ == head + ahead@.take(k as int),
            decreases ahead@.len() - k,
        {
            line.push(ahead[k]);
            k = k + 1;
            proof {
                assert(line@ =~= head + ahead@.take(k as int));
            }
        }
        proof {
            assert(ahead@.take(k as int) =~= ahead@);
            assert(line@ == behind@.reverse() + seq![i] + ahead@);
            assert(walk_taken(self.model().back, i.id(), d, self.model().len(), ok, behind@));
            assert(walk_taken(self.model().step, i.id(), d, self.model().len(), ok, ahead@));
        }
        line
    }

    /// Every cell whose distance from `i` is in `min..=max`. Excludes `i` unless `min` is 0.
    ///
    /// It measures in *coordinates*, not in steps, so walls and holes do not shorten it — a range-2
    /// archer shoots over a wall. It hands back a board, so the blast you highlight is also the
    /// thing you then ask questions about.
    fn within(&self, i: Idx, min: u32, max: u32) -> (r: SubGrid<'_, Self::Root>)
        requires
            self.wf(),
            i.id() < self.model().len(),
        ensures
            r.sound(),
            r.base() == self.spec_root(),
            forall|x: u32| #[trigger] r.members().contains(x) <==> exists|j: int|
                0 <= j < self.model().len() && self.spec_to_root(j) == x && min <= self.model().dist(i.id(), j) <= max,
    {
        proof {
            self.lemma_grid();
        }
        let n = self.len();
        let tag = self.tag();
        let mut hit: Vec<Idx> = Vec::new();
        if min <= max {
            let c = self.coord(i);
            let metric = self.metric();
            if metric.count(max) <= n as u64 {
                // Walk the metric's offsets: the disc, not its rim, and never the whole board.
                proof {
                    crate::coord::lemma_table_radius(metric, max, n as int);
                }
                let deltas = metric.deltas::<Self::Cell>(max);
                let mut k: usize = 0;
                while k < deltas.len()
                    invariant
                        self.wf(),
                        self.model().laws(),
                        n == self.model().len(),
                        i.id() < n,
                        c == self.model().cells[i.id()],
                        metric == self.model().metric,
                        k <= deltas@.len(),
                        forall|q: int| 0 <= q < hit@.len() ==> (#[trigger] hit@[q]).id() < n
                            && min <= self.model().dist(i.id(), hit@[q].id()) <= max,
                        forall|q: int| 0 <= q < k ==> match #[trigger] self.model().index_of(c.spec_plus(deltas@[q].0)) {
                            Some(j) => {
                                let dj = self.model().dist(i.id(), j.id());
                                (min <= dj <= max) ==> exists|h: int| 0 <= h < hit@.len() && hit@[h] == j
                            },
                            None => true,
                        },
                    decreases deltas@.len() - k,
                {
                    let (delta, _) = deltas[k];
                    let ghost h0 = hit@;
                    match self.index_of(c.plus(delta)) {
                        Some(j) => {
                            proof {
                                let cs = self.model().cells;
                                let q = cs.index_of(c.spec_plus(delta));
                                assert(0 <= q < cs.len() && cs[q] == c.spec_plus(delta));
                            }
                            let dj = metric.distance(c, self.coord(j));
                            if min <= dj && dj <= max {
                                hit.push(j);
                                proof {
                                    assert(hit@[h0.len() as int] == j);
                                }
                            }
                        },
                        None => {},
                    }
                    proof {
                        assert forall|q: int| 0 <= q < k + 1 implies match #[trigger] self.model().index_of(c.spec_plus(deltas@[q].0)) {
                            Some(j) => {
                                let dj = self.model().dist(i.id(), j.id());
                                (min <= dj <= max) ==> exists|h: int| 0 <= h < hit@.len() && hit@[h] == j
                            },
                            None => true,
                        } by {
                            if q < k {
                                match self.model().index_of(c.spec_plus(deltas@[q].0)) {
                                    Some(j) => {
                                        if min <= self.model().dist(i.id(), j.id()) <= max {
                                            let h = choose|h: int| 0 <= h < h0.len() && h0[h] == j;
                                            assert(hit@[h] == j);
                                        }
                                    },
                                    None => {},
                                }
                            }
                        }
                    }
                    k = k + 1;
                }
                proof {
                    assert forall|j: int| 0 <= j < n && min <= #[trigger] self.model().dist(i.id(), j) <= max implies exists|h: int|
                        0 <= h < hit@.len() && hit@[h].id() == j by {
                        let cj = self.model().cells[j];
                        assert(c.spec_distance(cj, metric.spec_kind()) <= max);
                        let q = choose|q: int| 0 <= q < deltas@.len() && #[trigger] c.spec_plus(deltas@[q].0) == cj;
                        assert(self.model().cells.contains(cj));
                        let jj = self.model().cells.index_of(cj);
                        assert(self.model().cells[jj] == cj);
                        if jj != j {
                            assert(self.model().cells[jj] == self.model().cells[j]);
                        }
                        assert(self.model().index_of(c.spec_plus(deltas@[q].0)) == Some(idx(j)));
                    }
                }
            } else {
                // Scan the board: bounded by its size, whatever the radius.
                let mut j: usize = 0;
                while j < n
                    invariant
                        self.wf(),
                        self.model().laws(),
                        n == self.model().len(),
                        i.id() < n,
                        j <= n,
                        forall|q: int| 0 <= q < hit@.len() ==> (#[trigger] hit@[q]).id() < n
                            && min <= self.model().dist(i.id(), hit@[q].id()) <= max,
                        forall|q: int| 0 <= q < j && min <= #[trigger] self.model().dist(i.id(), q) <= max ==> exists|h: int|
                            0 <= h < hit@.len() && hit@[h].id() == q,
                    decreases n - j,
                {
                    let cand = Idx::new(tag, j as u32);
                    let dj = self.distance(i, cand);
                    let ghost h0 = hit@;
                    if min <= dj && dj <= max {
                        hit.push(cand);
                    }
                    proof {
                        assert forall|q: int| 0 <= q < j + 1 && min <= #[trigger] self.model().dist(i.id(), q) <= max implies exists|h: int|
                            0 <= h < hit@.len() && hit@[h].id() == q by {
                            if q < j {
                                let h = choose|h: int| 0 <= h < h0.len() && h0[h].id() == q;
                                assert(hit@[h] == h0[h]);
                            } else {
                                assert(hit@[h0.len() as int].id() == q);
                            }
                        }
                    }
                    j = j + 1;
                }
            }
        }
        let r = self.subset(hit);
        proof {
            assert forall|x: u32| #[trigger] r.members().contains(x) <==> exists|j: int|
                0 <= j < self.model().len() && self.spec_to_root(j) == x && min <= self.model().dist(i.id(), j) <= max by {
                if r.members().contains(x) {
                    let k = choose|k: int| 0 <= k < hit@.len() && self.spec_to_root(hit@[k].id()) == x;
                    assert(min <= self.model().dist(i.id(), hit@[k].id()) <= max);
                }
                if exists|j: int| 0 <= j < self.model().len() && self.spec_to_root(j) == x && min <= self.model().dist(i.id(), j) <= max {
                    let j = choose|j: int| 0 <= j < self.model().len() && self.spec_to_root(j) == x && min <= self.model().dist(i.id(), j) <= max;
                    let h = choose|h: int| 0 <= h < hit@.len() && hit@[h].id() == j;
                    assert(self.spec_to_root(hit@[h].id()) == x);
                }
            }
        }
        r
    }

    /// Every cell at exactly distance `r`: `within(i, r, r)`.
    ///
    /// In a clone-and-jump capture game these are the two moves: `ring(i, 1)` is a clone, and
    /// `ring(i, 2)` is a jump, which crosses a hole.
    fn ring(&self, i: Idx, r: u32) -> (s: SubGrid<'_, Self::Root>)
        requires
            self.wf(),
            i.id() < self.model().len(),
        ensures
            s.sound(),
            s.base() == self.spec_root(),
            forall|x: u32| #[trigger] s.members().contains(x) <==> exists|j: int|
                0 <= j < self.model().len() && self.spec_to_root(j) == x && self.model().dist(i.id(), j) == r,
    {
        self.within(i, r, r)
    }

    // -- sight ---------------------------------------------------------------------------------

    /// The cells on the straight line from `a` to `b`, in order, `a` first and `b` last.
    ///
    /// A list, not a region, because the order is the answer: a line is walked, and what stops it
    /// is where along it the obstacle sits. Cells the line crosses that are not on the board are
    /// skipped. Empty if this board's metric draws no lines. The ends are kept without asking the
    /// interpolation, which rounds through a clamp at the lattice limit and could not always
    /// round back to them.
    ///
    /// Symmetric: `line(a, b)` is `line(b, a)` reversed, because the line is always computed from
    /// the lower coordinate and flipped if needed. A line longer than the board has cells is found
    /// by scanning the board rather than by walking a possibly enormous coordinate distance.
    #[verifier::rlimit(60)]
    #[verifier::spinoff_prover]
    fn line(&self, a: Idx, b: Idx) -> (r: Vec<Idx>)
        requires
            self.wf(),
            a.id() < self.model().len(),
            b.id() < self.model().len(),
        ensures
            nums(r@) == line_of(self.model(), a.id(), b.id()),
            forall|k: int| 0 <= k < r@.len() ==> (#[trigger] r@[k]).id() < self.model().len(),
            self.model().metric.spec_has_lerp() ==> r@.len() >= 1 && r@[0] == a && r@.last() == b,
    {
        proof {
            self.lemma_grid();
        }
        let ghost m = self.model();
        let metric = self.metric();
        if !metric.has_lerp() {
            let r: Vec<Idx> = Vec::new();
            proof {
                assert(nums(r@) =~= seq![]);
            }
            return r;
        }
        if a == b {
            let r: Vec<Idx> = vec![a];
            proof {
                assert(nums(r@) =~= seq![a.id()]);
                assert(r@[0] == a);
            }
            return r;
        }
        let ordered = self.coord(a).precedes(self.coord(b));
        let lo = if ordered {
            a
        } else {
            b
        };
        let hi = if ordered {
            b
        } else {
            a
        };
        let ca = self.coord(lo);
        let cb = self.coord(hi);
        let distance = self.distance(lo, hi);
        let n = self.len();
        let tag = self.tag();
        let ghost l = lo.id();
        let ghost h = hi.id();
        let mut fwd: Vec<Idx> = Vec::new();
        if distance as usize > n {
            // A line far longer than the board: ask each cell where on the line it would sit.
            let mut found: Vec<(u32, u32)> = Vec::new();
            let mut j: usize = 0;
            while j < n
                invariant
                    self.wf(),
                    m == self.model(),
                    m.laws(),
                    n == m.len(),
                    n <= max_cells(),
                    metric == m.metric,
                    metric.spec_has_lerp(),
                    l == lo.id(),
                    h == hi.id(),
                    l < n,
                    h < n,
                    ca == m.cells[l],
                    cb == m.cells[h],
                    distance == m.dist(l, h),
                    distance > n,
                    j <= n,
                    forall|k: int| 0 <= k < found@.len() ==> (#[trigger] found@[k]).0 == m.dist(l, found@[k].1 as int)
                        && m.valid(found@[k].1 as int) && on_line(m, l, h, found@[k].1 as int) && found@[k].1 < j,
                    forall|x: int| 0 <= x < j && m.valid(x) && on_line(m, l, h, x) ==> exists|k: int|
                        0 <= k < found@.len() && #[trigger] found@[k].1 == x,
                    forall|a: int, b: int| 0 <= a < b < found@.len() ==> (#[trigger] found@[a]).1 < (#[trigger] found@[b]).1,
                decreases n - j,
            {
                let at_cell = Idx::new(tag, j as u32);
                let at = self.distance(lo, at_cell);
                let keep = if j as u32 == lo.raw() || j as u32 == hi.raw() {
                    false
                } else if at <= distance {
                    match metric.lerp(ca, cb, at, distance) {
                        Some(c) => c.same(self.coord(at_cell)),
                        None => false,
                    }
                } else {
                    false
                };
                let ghost f0 = found@;
                if keep {
                    found.push((at, j as u32));
                }
                proof {
                    assert forall|x: int| 0 <= x < j + 1 && m.valid(x) && on_line(m, l, h, x) implies exists|k: int|
                        0 <= k < found@.len() && #[trigger] found@[k].1 == x by {
                        if x < j {
                            let k = choose|k: int| 0 <= k < f0.len() && #[trigger] f0[k].1 == x;
                            assert(found@[k] == f0[k]);
                        } else {
                            assert(found@[f0.len() as int].1 == x);
                        }
                    }
                }
                j = j + 1;
            }
            let ghost before = found@;
            sort_pairs(&mut found);
            proof {
                lemma_sparse_sorted(m, l, h, before, found@);
            }
            // The two ends, and between them what the scan found, in order along the line.
            fwd.push(lo);
            let mut k: usize = 0;
            while k < found.len()
                invariant
                    k <= found@.len(),
                    fwd@.len() == k + 1,
                    fwd@[0] == lo,
                    forall|q: int| 0 <= q < k ==> (#[trigger] fwd@[q + 1]).id() == found@[q].1,
                decreases found@.len() - k,
            {
                fwd.push(Idx::new(tag, found[k].1));
                k = k + 1;
            }
            let ghost f1 = fwd@;
            fwd.push(hi);
            proof {
                let mid = seconds(found@);
                let want = seq![l] + mid + seq![h];
                assert(fwd@ == f1.push(hi));
                assert(nums(fwd@).len() == want.len());
                assert forall|q: int| 0 <= q < want.len() implies #[trigger] nums(fwd@)[q] == want[q] by {
                    if q == 0 {
                        assert(fwd@[0] == lo);
                    } else if q < want.len() - 1 {
                        assert(f1[(q - 1) + 1].id() == found@[q - 1].1);
                        assert(fwd@[q] == f1[q]);
                    } else {
                        assert(fwd@[q] == hi);
                    }
                }
                assert(nums(fwd@) =~= want);
                assert forall|q: int| 0 <= q < fwd@.len() implies (#[trigger] fwd@[q]).id() < n by {
                    if 0 < q < fwd@.len() - 1 {
                        assert(nums(fwd@)[q] == mid[q - 1]);
                        assert(mid.contains(mid[q - 1]));
                    }
                }
                let other = sparse_line(m, l, h);
                assert(sparse_ok(m, l, h, other));
                lemma_sorted_unique(m, l, mid, other);
            }
        } else {
            // A short line: sample it one lattice step at a time.
            let steps: u32 = if distance == 0 {
                1
            } else {
                distance
            };
            let mut t: u32 = 0;
            while t <= steps
                invariant
                    self.wf(),
                    m == self.model(),
                    m.laws(),
                    n == m.len(),
                    n <= max_cells(),
                    metric == m.metric,
                    metric.spec_has_lerp(),
                    l == lo.id(),
                    h == hi.id(),
                    ca == m.cells[l],
                    cb == m.cells[h],
                    steps == steps_of(m, l, h),
                    steps <= n,
                    t <= steps + 1,
                    nums(fwd@) == samples(m, l, h, steps as int, t as nat),
                    forall|q: int| 0 <= q < fwd@.len() ==> (#[trigger] fwd@[q]).id() < n,
                decreases steps + 1 - t,
            {
                let c = match metric.lerp(ca, cb, t, steps) {
                    Some(c) => c,
                    None => vstd::pervasive::unreached(),
                };
                let ghost f0 = fwd@;
                match self.index_of(c) {
                    Some(j) => {
                        if fwd.len() == 0 || fwd[fwd.len() - 1] != j {
                            fwd.push(j);
                            proof {
                                assert(nums(fwd@) =~= nums(f0).push(j.id()));
                            }
                        }
                    },
                    None => {},
                }
                proof {
                    assert(sample(m, l, h, t as int, steps as int) == m.index_of(c));
                }
                t = t + 1;
            }
            let ghost s0 = nums(fwd@);
            if fwd.len() == 0 || fwd[0] != lo {
                fwd.insert(0, lo);
                proof {
                    assert(nums(fwd@) =~= seq![l] + s0);
                }
            }
            let ghost s1 = nums(fwd@);
            proof {
                assert(fwd@[0] == lo);
            }
            if fwd[fwd.len() - 1] != hi {
                fwd.push(hi);
                proof {
                    assert(nums(fwd@) =~= s1.push(h));
                }
            }
            proof {
                assert(fwd@[0] == lo);
                assert(fwd@[fwd@.len() - 1] == hi);
            }
        }
        proof {
            assert(forall|q: int| 0 <= q < fwd@.len() ==> (#[trigger] fwd@[q]).id() < n);
            assert(fwd@.len() >= 1 && fwd@[0] == lo && fwd@.last() == hi);
        }
        if ordered {
            fwd
        } else {
            let r = reversed(fwd);
            proof {
                assert forall|q: int| 0 <= q < r@.len() implies (#[trigger] r@[q]).id() < n by {
                    assert(r@[q] == fwd@[fwd@.len() - 1 - q]);
                }
                assert(r@[0] == fwd@.last());
                assert(r@.last() == fwd@[0]);
            }
            r
        }
    }

    /// Can `a` see `b`, when what blocks depends on the looker and the target?
    ///
    /// Sight is drawn along [`Grid::line`]; the predicate is asked about each cell of it but the
    /// two ends, with the whole question. A lattice with no straight line has no cells to block
    /// on, and sees everything.
    fn los_by<B: Fn(Sight) -> bool>(&self, a: Idx, b: Idx, blocks: B) -> (r: bool)
        requires
            self.wf(),
            a.id() < self.model().len(),
            b.id() < self.model().len(),
            pure_sight(blocks, self.model().len() as int),
        ensures
            r == clear_by(self.model(), a.id(), b.id(), blocks),
            r ==> seen_by(self.model(), a.id(), b.id(), blocks),
    {
        let line = self.line(a, b);
        let ghost s = line_of(self.model(), a.id(), b.id());
        let mut k: usize = 0;
        while k < line.len()
            invariant
                nums(line@) == s,
                s == line_of(self.model(), a.id(), b.id()),
                forall|q: int| 0 <= q < line@.len() ==> (#[trigger] line@[q]).id() < self.model().len(),
                a.id() < self.model().len(),
                b.id() < self.model().len(),
                pure_sight(blocks, self.model().len() as int),
                k <= line@.len(),
                forall|q: int| 0 <= q < k ==> #[trigger] s[q] == a.id() || s[q] == b.id() || !verdict(
                    blocks,
                    Sight { eye: idx(a.id()), at: idx(s[q]), target: idx(b.id()) },
                ),
                forall|q: int| 0 <= q < k ==> #[trigger] s[q] == a.id() || s[q] == b.id() || blocks.ensures(
                    (Sight { eye: idx(a.id()), at: idx(s[q]), target: idx(b.id()) },),
                    false,
                ),
            decreases line@.len() - k,
        {
            let at = line[k];
            proof {
                assert(s[k as int] == at.id());
                assert(Sight { eye: a, at, target: b } == Sight { eye: idx(a.id()), at: idx(s[k as int]), target: idx(b.id()) });
            }
            if at != a && at != b {
                let stop = blocks(Sight { eye: a, at, target: b });
                if stop {
                    proof {
                        assert(line_of(self.model(), a.id(), b.id())[k as int] != a.id());
                    }
                    return false;
                }
            }
            k = k + 1;
        }
        true
    }

    /// Can `a` see `b`? `blocks` says which cells stop sight.
    ///
    /// `b` itself may be a blocker and still be seen: you can see the wall you are looking at. The
    /// cell you are standing in is never consulted.
    fn los<P: Fn(Idx) -> bool>(&self, a: Idx, b: Idx, blocks: P) -> (r: bool)
        requires
            self.wf(),
            a.id() < self.model().len(),
            b.id() < self.model().len(),
            pure_test_on(blocks, self.model().len() as int),
        ensures
            r == clear(self.model(), a.id(), b.id(), blocks),
    {
        let line = self.line(a, b);
        let ghost s = line_of(self.model(), a.id(), b.id());
        let mut k: usize = 0;
        while k < line.len()
            invariant
                nums(line@) == s,
                s == line_of(self.model(), a.id(), b.id()),
                forall|q: int| 0 <= q < line@.len() ==> (#[trigger] line@[q]).id() < self.model().len(),
                a.id() < self.model().len(),
                b.id() < self.model().len(),
                pure_test_on(blocks, self.model().len() as int),
                k <= line@.len(),
                forall|q: int| 0 <= q < k ==> #[trigger] s[q] == a.id() || s[q] == b.id() || !verdict(blocks, idx(s[q])),
            decreases line@.len() - k,
        {
            let at = line[k];
            proof {
                assert(s[k as int] == at.id());
            }
            if at != a && at != b && blocks(at) {
                proof {
                    assert(at == idx(s[k as int]));
                    assert(line_of(self.model(), a.id(), b.id())[k as int] != a.id());
                }
                return false;
            }
            k = k + 1;
        }
        true
    }

    /// The field of view, when what blocks depends on the looker and the target: every cell
    /// within `r` of `i` that `i` can see.
    ///
    /// Naive raycasting, a line to each candidate, so the work grows as the cube of the radius and
    /// `r` may not exceed [`MAX_SIGHT`].
    fn visible_from_by<B: Fn(Sight) -> bool>(&self, i: Idx, r: u32, blocks: B) -> (s: SubGrid<'_, Self::Root>)
        requires
            self.wf(),
            i.id() < self.model().len(),
            r <= MAX_SIGHT,
            pure_sight(blocks, self.model().len() as int),
        ensures
            s.sound(),
            s.base() == self.spec_root(),
            forall|x: u32| #[trigger] s.members().contains(x) <==> exists|j: int|
                0 <= j < self.model().len() && self.spec_to_root(j) == x && self.model().dist(i.id(), j) <= r
                    && clear_by(self.model(), i.id(), j, blocks),
            forall|j: int|
                0 <= j < self.model().len() && #[trigger] s.members().contains(self.spec_to_root(j) as u32) ==> seen_by(
                    self.model(),
                    i.id(),
                    j,
                    blocks,
                ),
    {
        proof {
            self.lemma_grid();
        }
        let ghost m = self.model();
        let range = self.within(i, 0, r);
        let roots = range.root_indices();
        let mut seen: Vec<Idx> = Vec::new();
        let mut k: usize = 0;
        while k < roots.len()
            invariant
                self.wf(),
                m == self.model(),
                i.id() < m.len(),
                pure_sight(blocks, self.model().len() as int),
                range.sound(),
                roots@.len() == range.members().len(),
                forall|a: int, b: int| 0 <= a < b < m.len() ==> #[trigger] self.spec_to_root(a) < #[trigger] self.spec_to_root(b),
                forall|q: int| 0 <= q < roots@.len() ==> #[trigger] roots@[q] == idx(range.members()[q] as int),
                forall|x: u32| #[trigger] range.members().contains(x) <==> exists|j: int|
                    0 <= j < m.len() && self.spec_to_root(j) == x && 0 <= m.dist(i.id(), j) <= r,
                k <= roots@.len(),
                forall|q: int| 0 <= q < seen@.len() ==> (#[trigger] seen@[q]).id() < m.len() && m.dist(i.id(), seen@[q].id())
                    <= r && clear_by(m, i.id(), seen@[q].id(), blocks) && seen_by(m, i.id(), seen@[q].id(), blocks),
                forall|j: int|
                    0 <= j < m.len() && m.dist(i.id(), j) <= r && clear_by(m, i.id(), j, blocks) && (exists|q: int|
                        0 <= q < k && #[trigger] range.members()[q] == self.spec_to_root(j)) ==> exists|q: int|
                        0 <= q < seen@.len() && #[trigger] seen@[q].id() == j,
            decreases roots@.len() - k,
        {
            let ghost s0 = seen@;
            let x = roots[k];
            proof {
                assert(range.members().contains(range.members()[k as int]));
            }
            match self.of_root(x) {
                Some(j) => {
                    if self.los_by(i, j, &blocks) {
                        seen.push(j);
                    }
                    proof {
                        assert forall|j2: int|
                            0 <= j2 < m.len() && m.dist(i.id(), j2) <= r && clear_by(m, i.id(), j2, blocks) && (exists|q: int|
                                0 <= q < k + 1 && #[trigger] range.members()[q] == self.spec_to_root(j2)) implies exists|q: int|
                            0 <= q < seen@.len() && #[trigger] seen@[q].id() == j2 by {
                            let q = choose|q: int| 0 <= q < k + 1 && #[trigger] range.members()[q] == self.spec_to_root(j2);
                            if q < k {
                                let h = choose|h: int| 0 <= h < s0.len() && #[trigger] s0[h].id() == j2;
                                assert(seen@[h] == s0[h]);
                            } else {
                                if j2 < j.id() {
                                    assert(self.spec_to_root(j2) < self.spec_to_root(j.id()));
                                } else if j2 > j.id() {
                                    assert(self.spec_to_root(j.id()) < self.spec_to_root(j2));
                                }
                                assert(seen@[s0.len() as int].id() == j2);
                            }
                        }
                    }
                },
                None => {
                    proof {
                        let j2 = choose|j2: int|
                            0 <= j2 < m.len() && self.spec_to_root(j2) == range.members()[k as int] && 0 <= m.dist(i.id(), j2) <= r;
                        assert(self.spec_to_root(j2) != x.id());
                    }
                },
            }
            k = k + 1;
        }
        let s = self.subset(seen);
        proof {
            assert forall|x: u32| #[trigger] s.members().contains(x) <==> exists|j: int|
                0 <= j < m.len() && self.spec_to_root(j) == x && m.dist(i.id(), j) <= r && clear_by(m, i.id(), j, blocks) by {
                if exists|j: int| 0 <= j < m.len() && self.spec_to_root(j) == x && m.dist(i.id(), j) <= r && clear_by(m, i.id(), j, blocks) {
                    let j = choose|j: int|
                        0 <= j < m.len() && self.spec_to_root(j) == x && m.dist(i.id(), j) <= r && clear_by(m, i.id(), j, blocks);
                    assert(range.members().contains(x));
                    let q = range.members().index_of(x);
                    assert(range.members()[q] == self.spec_to_root(j));
                    let h = choose|h: int| 0 <= h < seen@.len() && #[trigger] seen@[h].id() == j;
                    assert(self.spec_to_root(seen@[h].id()) == x);
                }
            }
            assert forall|j: int|
                0 <= j < m.len() && #[trigger] s.members().contains(self.spec_to_root(j) as u32) implies seen_by(
                m,
                i.id(),
                j,
                blocks,
            ) by {
                let x = self.spec_to_root(j) as u32;
                self.spec_root().lemma_whole();
                assert(0 <= self.spec_to_root(j) < self.spec_root().whole().len());
                assert(x as int == self.spec_to_root(j));
                assert(s.members().contains(x));
                let h = choose|h: int| 0 <= h < seen@.len() && self.spec_to_root(seen@[h].id()) == x;
                let j2 = seen@[h].id();
                if j2 < j {
                    assert(self.spec_to_root(j2) < self.spec_to_root(j));
                } else if j < j2 {
                    assert(self.spec_to_root(j) < self.spec_to_root(j2));
                }
            }
        }
        s
    }

    /// Every cell within `r` of `i` that can actually be seen, where `blocks` says which cells
    /// stop sight. `r` may not exceed [`MAX_SIGHT`].
    fn visible_from<P: Fn(Idx) -> bool>(&self, i: Idx, r: u32, blocks: P) -> (s: SubGrid<'_, Self::Root>)
        requires
            self.wf(),
            i.id() < self.model().len(),
            r <= MAX_SIGHT,
            pure_test_on(blocks, self.model().len() as int),
        ensures
            s.sound(),
            s.base() == self.spec_root(),
            forall|x: u32| #[trigger] s.members().contains(x) <==> exists|j: int|
                0 <= j < self.model().len() && self.spec_to_root(j) == x && self.model().dist(i.id(), j) <= r
                    && clear(self.model(), i.id(), j, blocks),
    {
        proof {
            self.lemma_grid();
        }
        let ghost m = self.model();
        let range = self.within(i, 0, r);
        let roots = range.root_indices();
        let mut seen: Vec<Idx> = Vec::new();
        let mut k: usize = 0;
        while k < roots.len()
            invariant
                self.wf(),
                m == self.model(),
                i.id() < m.len(),
                pure_test_on(blocks, self.model().len() as int),
                range.sound(),
                roots@.len() == range.members().len(),
                forall|a: int, b: int| 0 <= a < b < m.len() ==> #[trigger] self.spec_to_root(a) < #[trigger] self.spec_to_root(b),
                forall|q: int| 0 <= q < roots@.len() ==> #[trigger] roots@[q] == idx(range.members()[q] as int),
                forall|x: u32| #[trigger] range.members().contains(x) <==> exists|j: int|
                    0 <= j < m.len() && self.spec_to_root(j) == x && 0 <= m.dist(i.id(), j) <= r,
                k <= roots@.len(),
                forall|q: int| 0 <= q < seen@.len() ==> (#[trigger] seen@[q]).id() < m.len() && m.dist(i.id(), seen@[q].id())
                    <= r && clear(m, i.id(), seen@[q].id(), blocks),
                forall|j: int|
                    0 <= j < m.len() && m.dist(i.id(), j) <= r && clear(m, i.id(), j, blocks) && (exists|q: int|
                        0 <= q < k && #[trigger] range.members()[q] == self.spec_to_root(j)) ==> exists|q: int|
                        0 <= q < seen@.len() && #[trigger] seen@[q].id() == j,
            decreases roots@.len() - k,
        {
            let ghost s0 = seen@;
            let x = roots[k];
            proof {
                assert(range.members().contains(range.members()[k as int]));
            }
            match self.of_root(x) {
                Some(j) => {
                    if self.los(i, j, &blocks) {
                        seen.push(j);
                    }
                    proof {
                        assert forall|j2: int|
                            0 <= j2 < m.len() && m.dist(i.id(), j2) <= r && clear(m, i.id(), j2, blocks) && (exists|q: int|
                                0 <= q < k + 1 && #[trigger] range.members()[q] == self.spec_to_root(j2)) implies exists|q: int|
                            0 <= q < seen@.len() && #[trigger] seen@[q].id() == j2 by {
                            let q = choose|q: int| 0 <= q < k + 1 && #[trigger] range.members()[q] == self.spec_to_root(j2);
                            if q < k {
                                let h = choose|h: int| 0 <= h < s0.len() && #[trigger] s0[h].id() == j2;
                                assert(seen@[h] == s0[h]);
                            } else {
                                if j2 < j.id() {
                                    assert(self.spec_to_root(j2) < self.spec_to_root(j.id()));
                                } else if j2 > j.id() {
                                    assert(self.spec_to_root(j.id()) < self.spec_to_root(j2));
                                }
                                assert(seen@[s0.len() as int].id() == j2);
                            }
                        }
                    }
                },
                None => {
                    proof {
                        let j2 = choose|j2: int|
                            0 <= j2 < m.len() && self.spec_to_root(j2) == range.members()[k as int] && 0 <= m.dist(i.id(), j2) <= r;
                        assert(self.spec_to_root(j2) != x.id());
                    }
                },
            }
            k = k + 1;
        }
        let s = self.subset(seen);
        proof {
            assert forall|x: u32| #[trigger] s.members().contains(x) <==> exists|j: int|
                0 <= j < m.len() && self.spec_to_root(j) == x && m.dist(i.id(), j) <= r && clear(m, i.id(), j, blocks) by {
                if exists|j: int| 0 <= j < m.len() && self.spec_to_root(j) == x && m.dist(i.id(), j) <= r && clear(m, i.id(), j, blocks) {
                    let j = choose|j: int|
                        0 <= j < m.len() && self.spec_to_root(j) == x && m.dist(i.id(), j) <= r && clear(m, i.id(), j, blocks);
                    assert(range.members().contains(x));
                    let q = range.members().index_of(x);
                    assert(range.members()[q] == self.spec_to_root(j));
                    let h = choose|h: int| 0 <= h < seen@.len() && #[trigger] seen@[h].id() == j;
                    assert(self.spec_to_root(seen@[h].id()) == x);
                }
            }
        }
        s
    }

    /// The cells visible from a coordinate, or `None` if the origin is not on this board.
    fn visible_from_cell<P: Fn(Idx) -> bool>(&self, c: Self::Cell, r: u32, blocks: P) -> (s: Option<SubGrid<'_, Self::Root>>)
        requires
            self.wf(),
            r <= MAX_SIGHT,
            pure_test_on(blocks, self.model().len() as int),
        ensures
            match self.model().index_of(c) {
                Some(i) => s matches Some(v) && v.sound() && v.base() == self.spec_root() && forall|x: u32|
                    #[trigger] v.members().contains(x) <==> exists|j: int|
                        0 <= j < self.model().len() && self.spec_to_root(j) == x && self.model().dist(i.id(), j) <= r
                            && clear(self.model(), i.id(), j, blocks),
                None => s is None,
            },
    {
        proof {
            self.lemma_grid();
            let cs = self.model().cells;
            if cs.contains(c) {
                let k = cs.index_of(c);
                assert(0 <= k < cs.len() && cs[k] == c);
            }
        }
        match self.index_of(c) {
            Some(i) => Some(self.visible_from(i, r, blocks)),
            None => None,
        }
    }

    // -- connectivity --------------------------------------------------------------------------

    /// Every cell **reachable from** `i` through cells that pass `passable`, `i` included.
    ///
    /// A flood fill over [`neighbors`](Grid::neighbors), with no costs, no budget and no heap. It
    /// follows **forward** edges, so it means reachable-*from* `i`. An `i` that is not itself
    /// passable is in no component, and the answer is empty.
    fn component<P: Fn(Idx) -> bool>(&self, i: Idx, passable: P) -> (r: SubGrid<'_, Self::Root>)
        requires
            self.wf(),
            i.id() < self.model().len(),
            pure_test_on(passable, self.model().len() as int),
        ensures
            r.sound(),
            r.base() == self.spec_root(),
            forall|x: u32| #[trigger] r.members().contains(x) <==> exists|j: int|
                0 <= j < self.model().len() && self.spec_to_root(j) == x && linked(
                    self.model(),
                    passes(passable),
                    i.id(),
                    j,
                ),
    {
        proof {
            self.lemma_grid();
        }
        let ghost m = self.model();
        let ghost ok = passes(passable);
        let n = self.len();
        let tag = self.tag();
        let mut seen: Vec<bool> = Vec::new();
        let mut k: usize = 0;
        while k < n
            invariant
                k <= n,
                seen@.len() == k,
                forall|q: int| 0 <= q < k ==> !#[trigger] seen@[q],
            decreases n - k,
        {
            seen.push(false);
            k = k + 1;
        }
        let mut stack: Vec<Idx> = Vec::new();
        let ghost mut trails: Seq<Seq<int>> = Seq::new(n as nat, |q: int| seq![q]);
        if passable(i) {
            seen.set(i.raw() as usize, true);
            stack.push(i);
            proof {
                assert(is_trail(m, ok, trails[i.id()]));
                assert(stack@[0] == i);
            }
        }
        proof {
            assert forall|x: int| 0 <= x < n && #[trigger] seen@[x] implies stack@.contains(idx(x)) by {
                assert(x == i.id());
                assert(stack@[0] == idx(x));
            }
        }
        while stack.len() > 0
            invariant
                self.wf(),
                m == self.model(),
                m.laws(),
                ok == (passes(passable)),
                pure_test_on(passable, self.model().len() as int),
                n == m.len(),
                n <= max_cells(),
                i.id() < n,
                seen@.len() == n,
                trails.len() == n,
                forall|q: int| 0 <= q < n && #[trigger] seen@[q] ==> is_trail(m, ok, trails[q]) && trails[q][0] == i.id()
                    && trails[q].last() == q,
                forall|k2: int| 0 <= k2 < stack@.len() ==> (#[trigger] stack@[k2]).id() < n && seen@[stack@[k2].id()],
                forall|q: int, k2: int|
                    0 <= q < n && seen@[q] && !stack@.contains(idx(q)) && 0 <= k2 < m.outs(q).len() && ok(
                        (#[trigger] m.outs(q)[k2]).1.id(),
                    ) ==> seen@[m.outs(q)[k2].1.id()],
                ok(i.id()) ==> seen@[i.id()],
            decreases n - marked(seen@), stack@.len(),
        {
            let ghost seen0 = seen@;
            let ghost stack0 = stack@;
            let at = stack.pop().unwrap();
            proof {
                lemma_marked_bound(seen@);
                assert(stack0 =~= stack@.push(at));
                assert forall|x: int| 0 <= x < n && x != at.id() && #[trigger] stack0.contains(idx(x)) implies stack@.contains(idx(x)) by {
                    let h = choose|h: int| 0 <= h < stack0.len() && stack0[h] == idx(x);
                    assert(h != stack@.len());
                    assert(stack@[h] == idx(x));
                }
            }
            let nbrs = self.neighbors(at);
            let mut q: usize = 0;
            while q < nbrs.len()
                invariant
                    self.wf(),
                    m == self.model(),
                    m.laws(),
                    ok == (passes(passable)),
                    pure_test_on(passable, self.model().len() as int),
                    n == m.len(),
                    n <= max_cells(),
                    i.id() < n,
                    at.id() < n,
                    seen@[at.id()],
                    nbrs@ == m.outs(at.id()),
                    q <= nbrs@.len(),
                    seen@.len() == n,
                    trails.len() == n,
                    forall|x: int| 0 <= x < n && #[trigger] seen@[x] ==> is_trail(m, ok, trails[x]) && trails[x][0] == i.id()
                        && trails[x].last() == x,
                    forall|k2: int| 0 <= k2 < stack@.len() ==> (#[trigger] stack@[k2]).id() < n && seen@[stack@[k2].id()],
                    forall|x: int, k2: int|
                        0 <= x < n && seen@[x] && !stack@.contains(idx(x)) && x != at.id() && 0 <= k2 < m.outs(x).len() && ok(
                            (#[trigger] m.outs(x)[k2]).1.id(),
                        ) ==> seen@[m.outs(x)[k2].1.id()],
                    forall|k2: int| 0 <= k2 < q && ok((#[trigger] m.outs(at.id())[k2]).1.id()) ==> seen@[m.outs(at.id())[k2].1.id()],
                    ok(i.id()) ==> seen@[i.id()],
                    seen0.len() == n,
                    marked(seen0) <= n,
                    stack0.len() >= 1,
                    marked(seen@) + stack0.len() == marked(seen0) + stack@.len() + 1,
                    stack@.len() + 1 >= stack0.len(),
                decreases nbrs@.len() - q,
            {
                let (_, j) = nbrs[q];
                let ghost seen0_q = seen@;
                proof {
                    lemma_keep_some_mem(m.dirs, |d: Dir<Self>| (m.step)(at.id(), d), q as int);
                }
                if !seen[j.raw() as usize] && passable(j) {
                    let ghost seen1 = seen@;
                    let ghost stack1 = stack@;
                    proof {
                        lemma_marked_set(seen@, j.id());
                        let d = nbrs@[q as int].0;
                        let t = trails[at.id()];
                        let t2 = t.push(j.id());
                        assert((m.step)(at.id(), d) == Some(j.id()));
                        lemma_trail_push(m, ok, t, d, j.id());
                        trails = trails.update(j.id(), t2);
                    }
                    seen.set(j.raw() as usize, true);
                    stack.push(j);
                    proof {
                        assert forall|x: int| #[trigger] stack1.contains(idx(x)) implies stack@.contains(idx(x)) by {
                            let h = choose|h: int| 0 <= h < stack1.len() && stack1[h] == idx(x);
                            assert(stack@[h] == idx(x));
                        }
                        assert(stack@[stack1.len() as int] == j);
                        assert(stack@.contains(idx(j.id())));
                        assert forall|x: int, k2: int|
                            0 <= x < n && seen@[x] && !stack@.contains(idx(x)) && x != at.id() && 0 <= k2 < m.outs(x).len() && ok(
                                (#[trigger] m.outs(x)[k2]).1.id(),
                            ) implies seen@[m.outs(x)[k2].1.id()] by {
                            lemma_out(m, x, k2);
                            assert(x != j.id());
                            assert(seen1[x]);
                            assert(!stack1.contains(idx(x)));
                            assert(seen1[m.outs(x)[k2].1.id()]);
                        }
                    }
                }
                proof {
                    assert(m.outs(at.id())[q as int].1 == j);
                    assert(ok(j.id()) ==> seen@[j.id()]);
                    assert forall|k2: int| 0 <= k2 < q + 1 && ok((#[trigger] m.outs(at.id())[k2]).1.id()) implies seen@[m.outs(at.id())[k2].1.id()] by {
                        lemma_out(m, at.id(), k2);
                        if k2 < q {
                            assert(seen0_q[m.outs(at.id())[k2].1.id()]);
                        }
                    }
                }
                q = q + 1;
            }
            proof {
                lemma_marked_bound(seen@);

            }
        }
        let mut keep: Vec<Idx> = Vec::new();
        let mut j: usize = 0;
        while j < n
            invariant
                n == self.model().len(),
                n <= max_cells(),
                seen@.len() == n,
                j <= n,
                forall|h: int| 0 <= h < keep@.len() ==> (#[trigger] keep@[h]).id() < n && seen@[keep@[h].id()],
                forall|x: int| 0 <= x < j && #[trigger] seen@[x] ==> exists|h: int| 0 <= h < keep@.len() && keep@[h].id() == x,
            decreases n - j,
        {
            let ghost k0 = keep@;
            if seen[j] {
                keep.push(Idx::new(tag, j as u32));
                proof {
                    assert(keep@[k0.len() as int].id() == j);
                }
            }
            proof {
                assert forall|x: int| 0 <= x < j + 1 && #[trigger] seen@[x] implies exists|h: int| 0 <= h < keep@.len() && keep@[h].id() == x by {
                    if x < j {
                        let h = choose|h: int| 0 <= h < k0.len() && k0[h].id() == x;
                        assert(keep@[h] == k0[h]);
                    } else {
                        assert(keep@[k0.len() as int].id() == x);
                    }
                }
            }
            j = j + 1;
        }
        // Everything linked to `i` was marked: the marked cells are closed under passable steps.
        proof {
            assert forall|x: int| 0 <= x < n && linked(m, ok, i.id(), x) implies #[trigger] seen@[x] by {
                let t = choose|t: Seq<int>| is_trail(m, ok, t) && t[0] == i.id() && t.last() == x;
                assert(ok(t[0]));
                lemma_closed_reaches(m, ok, seen@, t, 0);
            }
        }
        let r = self.subset(keep);
        proof {
            assert forall|x: u32| #[trigger] r.members().contains(x) <==> exists|j: int|
                0 <= j < self.model().len() && self.spec_to_root(j) == x && linked(m, ok, i.id(), j) by {
                if r.members().contains(x) {
                    let h = choose|h: int| 0 <= h < keep@.len() && self.spec_to_root(keep@[h].id()) == x;
                    let y = keep@[h].id();
                    assert(seen@[y]);
                    assert(is_trail(m, ok, trails[y]));
                }
                if exists|j: int| 0 <= j < self.model().len() && self.spec_to_root(j) == x && linked(m, ok, i.id(), j) {
                    let y = choose|j: int| 0 <= j < self.model().len() && self.spec_to_root(j) == x && linked(m, ok, i.id(), j);
                    assert(seen@[y]);
                    let h = choose|h: int| 0 <= h < keep@.len() && keep@[h].id() == y;
                    assert(self.spec_to_root(keep@[h].id()) == x);
                }
            }
        }
        r
    }

    /// The component containing a coordinate, or `None` if the coordinate is not on this board.
    fn component_from<P: Fn(Idx) -> bool>(&self, c: Self::Cell, passable: P) -> (r: Option<SubGrid<'_, Self::Root>>)
        requires
            self.wf(),
            pure_test_on(passable, self.model().len() as int),
        ensures
            match self.model().index_of(c) {
                Some(i) => r matches Some(s) && s.sound() && s.base() == self.spec_root() && forall|x: u32|
                    #[trigger] s.members().contains(x) <==> exists|j: int|
                        0 <= j < self.model().len() && self.spec_to_root(j) == x && linked(
                            self.model(),
                            passes(passable),
                            i.id(),
                            j,
                        ),
                None => r is None,
            },
    {
        proof {
            self.lemma_grid();
            let cs = self.model().cells;
            if cs.contains(c) {
                let k = cs.index_of(c);
                assert(0 <= k < cs.len() && cs[k] == c);
            }
        }
        match self.index_of(c) {
            Some(i) => Some(self.component(i, passable)),
            None => None,
        }
    }

    /// Whether the passable cells are one piece: every one of them reachable from the
    /// lowest-indexed passable cell.
    ///
    /// On a directed board this asks whether everything can be reached *from* that cell, not
    /// whether every pair can reach each other. A board with no passable cells is connected.
    fn is_connected<P: Fn(Idx) -> bool>(&self, passable: P) -> (b: bool)
        requires
            self.wf(),
            pure_test_on(passable, self.model().len() as int),
        ensures
            b == forall|a: int, j: int|
                0 <= a < self.model().len() && verdict(passable, idx(a)) && (forall|c: int|
                    0 <= c < a ==> !verdict(passable, #[trigger] idx(c))) && 0 <= j < self.model().len() && verdict(
                    passable,
                    idx(j),
                ) ==> #[trigger] linked(self.model(), passes(passable), a, j),
    {
        proof {
            self.lemma_grid();
            self.spec_root().lemma_whole();
        }
        let ghost m = self.model();
        let ghost ok = passes(passable);
        let n = self.len();
        let tag = self.tag();
        let mut oks: Vec<bool> = Vec::new();
        let mut first: Option<Idx> = None;
        let mut k: usize = 0;
        while k < n
            invariant
                m == self.model(),
                n == m.len(),
                n <= max_cells(),
                pure_test_on(passable, self.model().len() as int),
                k <= n,
                oks@.len() == k,
                forall|q: int| 0 <= q < k ==> #[trigger] oks@[q] == verdict(passable, idx(q)),
                match first {
                    Some(f) => f.id() < k && verdict(passable, f) && forall|c: int| 0 <= c < f.id() ==> !verdict(passable, #[trigger] idx(c)),
                    None => forall|c: int| 0 <= c < k ==> !verdict(passable, #[trigger] idx(c)),
                },
            decreases n - k,
        {
            let at = Idx::new(tag, k as u32);
            let ok_here = passable(at);
            oks.push(ok_here);
            if ok_here && first.is_none() {
                first = Some(at);
            }
            k = k + 1;
        }
        let f = match first {
            None => {
                return true;
            },
            Some(f) => f,
        };
        let comp = self.component(f, passable);
        proof {
            assert forall|q: int| 0 <= q < n implies 0 <= #[trigger] self.spec_to_root(q) <= u32::MAX by {
                assert(self.spec_to_root(q) < self.spec_root().whole().len());
            }
        }
        let mut j: usize = 0;
        while j < n
            invariant
                self.wf(),
                m == self.model(),
                m.laws(),
                ok == (passes(passable)),
                n == m.len(),
                n <= max_cells(),
                j <= n,
                oks@.len() == n,
                forall|q: int| 0 <= q < n ==> #[trigger] oks@[q] == verdict(passable, idx(q)),
                f.id() < n,
                verdict(passable, f),
                forall|c: int| 0 <= c < f.id() ==> !verdict(passable, #[trigger] idx(c)),
                forall|q: int| 0 <= q < n ==> 0 <= #[trigger] self.spec_to_root(q) <= u32::MAX,
                forall|a: int, b: int| 0 <= a < b < n ==> #[trigger] self.spec_to_root(a) < #[trigger] self.spec_to_root(b),
                comp.sound(),
                forall|x: u32| #[trigger] comp.members().contains(x) <==> exists|y: int|
                    0 <= y < n && self.spec_to_root(y) == x && linked(m, ok, f.id(), y),
                forall|q: int| 0 <= q < j && #[trigger] oks@[q] ==> linked(m, ok, f.id(), q),
            decreases n - j,
        {
            if oks[j] {
                let at = Idx::new(tag, j as u32);
                let rt = self.to_root(at);
                if !comp.holds(rt.raw()) {
                    proof {
                        assert(!linked(m, ok, f.id(), j as int)) by {
                            if linked(m, ok, f.id(), j as int) {
                                assert(comp.members().contains(self.spec_to_root(j as int) as u32));
                            }
                        }
                    }
                    return false;
                }
                proof {
                    let x = self.spec_to_root(j as int) as u32;
                    let y = choose|y: int| 0 <= y < n && self.spec_to_root(y) == x && linked(m, ok, f.id(), y);
                    if y < j {
                        assert(self.spec_to_root(y) < self.spec_to_root(j as int));
                    } else if y > j {
                        assert(self.spec_to_root(j as int) < self.spec_to_root(y));
                    }
                }
            }
            j = j + 1;
        }
        proof {
            assert forall|a: int, j: int|
                0 <= a < m.len() && verdict(passable, idx(a)) && (forall|c: int|
                    0 <= c < a ==> !verdict(passable, #[trigger] idx(c))) && 0 <= j < m.len() && verdict(
                    passable,
                    idx(j),
                ) implies #[trigger] linked(m, passes(passable), a, j) by {
                assert(oks@[j]);
                if a < f.id() {
                    assert(!verdict(passable, idx(a)));
                } else if a > f.id() {
                    assert(!verdict(passable, idx(f.id())));
                }
            }
        }
        true
    }

    // -- paths ---------------------------------------------------------------------------------

    /// The cheapest path from `start` to `goal`, or `None` if there is no way through.
    ///
    /// A\*, with a heuristic derived from the board's own metric and the movement's cheapest step.
    /// The path it finds is genuinely the cheapest, provided `min_step` is honest — which
    /// [`Movement::scan`] guarantees. Whatever the movement promised, the answer is a real route,
    /// and `None` means no route exists.
    fn path<F: Fn(Step<Self::Cell>) -> Option<Cost>>(&self, start: Idx, goal: Idx, m: &Movement<F>) -> (r: Option<Path>)
        requires
            self.wf(),
            start.id() < self.model().len(),
            goal.id() < self.model().len(),
            pure_rule(m.rule()),
        ensures
            match r {
                Some(p) => {
                    &&& route_ok(step_graph(self.model(), m.rule()), start.id(), goal.id(), p.spec_steps(), p.spec_cost() as int)
                    &&& honest(self.model(), m.rule(), m.floor()) ==> least_cost(
                        step_graph(self.model(), m.rule()),
                        start.id(),
                        goal.id(),
                        p.spec_cost() as int,
                    )
                },
                None => !connects(step_graph(self.model(), m.rule()), start.id(), goal.id()),
            },
    {
        proof {
            self.lemma_grid();
            lemma_step_graph_ok(self.model(), m.rule());
        }
        let n = self.len();
        let tag = self.tag();
        let floor = m.min_step();
        let ghost adj = step_graph(self.model(), m.rule());
        let ghost hs = estimate_of(self.model(), goal.id(), floor);
        let edges = |u: u32| -> (r: Vec<(u32, Cost)>)
            requires
                self.wf(),
                (u as int) < self.model().len(),
                pure_rule(m.rule()),
            ensures
                r@ == priced(m.rule(), u as int, self.model().outs(u as int)),
            {
                let i = Idx::new(tag, u);
                let nb = self.neighbors(i);
                m.price_out(i, &nb)
            };
        let est = |u: u32| -> (r: Cost)
            requires
                self.wf(),
                (u as int) < self.model().len(),
                goal.id() < self.model().len(),
            ensures
                r == sat_mul(self.model().dist(u as int, goal.id()) as int, floor as int),
            { capped_mul(self.distance(Idx::new(tag, u), goal), floor) };
        proof {
            assert(yields_edges(&edges, adj));
            assert(yields_estimates(&est, hs));
        }
        match astar(n, start.raw(), goal.raw(), &edges, &est, Ghost(adj), Ghost(hs)) {
            Some(route) => {
                let steps = mint(tag, &route.nodes);
                proof {
                    assert(ids(steps@) =~= route.nodes@);
                    if honest(self.model(), m.rule(), m.floor()) {
                        lemma_estimate_consistent(self.model(), m.rule(), goal.id(), floor);
                    }
                }
                Some(Path::of(steps, route.cost))
            },
            None => None,
        }
    }

    /// The cheapest path between two coordinates, or `None` if either coordinate is off the board
    /// or no route exists.
    fn path_between<F: Fn(Step<Self::Cell>) -> Option<Cost>>(&self, start: Self::Cell, goal: Self::Cell, m: &Movement<F>) -> (r: Option<Path>)
        requires
            self.wf(),
            pure_rule(m.rule()),
        ensures
            match (self.model().index_of(start), self.model().index_of(goal)) {
                (Some(a), Some(b)) => match r {
                    Some(p) => {
                        &&& route_ok(step_graph(self.model(), m.rule()), a.id(), b.id(), p.spec_steps(), p.spec_cost() as int)
                        &&& honest(self.model(), m.rule(), m.floor()) ==> least_cost(
                            step_graph(self.model(), m.rule()),
                            a.id(),
                            b.id(),
                            p.spec_cost() as int,
                        )
                    },
                    None => !connects(step_graph(self.model(), m.rule()), a.id(), b.id()),
                },
                _ => r is None,
            },
    {
        proof {
            self.lemma_grid();
            let cs = self.model().cells;
            if cs.contains(start) {
                let k = cs.index_of(start);
                assert(0 <= k < cs.len() && cs[k] == start);
            }
            if cs.contains(goal) {
                let k = cs.index_of(goal);
                assert(0 <= k < cs.len() && cs[k] == goal);
            }
        }
        match (self.index_of(start), self.index_of(goal)) {
            (Some(a), Some(b)) => self.path(a, b, m),
            _ => None,
        }
    }

    /// Every cell reachable from `start` for no more than `budget`, and what reaching it costs.
    ///
    /// Cheapest first, and `start` itself comes back at cost 0. When no step is free and the budget
    /// is below the ceiling, cells of equal cost come lowest index first. The search stops as soon
    /// as the frontier passes the budget. This is *reach*, not *destinations*: the graph is
    /// directed, and reachable means reachable-out.
    fn reachable<F: Fn(Step<Self::Cell>) -> Option<Cost>>(&self, start: Idx, budget: Cost, m: &Movement<F>) -> (r: Vec<(Idx, Cost)>)
        requires
            self.wf(),
            start.id() < self.model().len(),
            pure_rule(m.rule()),
        ensures
            reach_ok(step_graph(self.model(), m.rule()), start.id(), budget as int, r@),
            positive(step_graph(self.model(), m.rule())) && budget < Cost::MAX ==> ties_by_index(r@),
    {
        proof {
            self.lemma_grid();
            lemma_step_graph_ok(self.model(), m.rule());
        }
        let n = self.len();
        let tag = self.tag();
        let ghost adj = step_graph(self.model(), m.rule());
        let edges = |u: u32| -> (r: Vec<(u32, Cost)>)
            requires
                self.wf(),
                (u as int) < self.model().len(),
                pure_rule(m.rule()),
            ensures
                r@ == priced(m.rule(), u as int, self.model().outs(u as int)),
            {
                let i = Idx::new(tag, u);
                let nb = self.neighbors(i);
                m.price_out(i, &nb)
            };
        proof {
            assert(yields_edges(&edges, adj));
        }
        let (found, _) = explore(n, start.raw(), budget, &edges, Ghost(adj));
        let r = minted(tag, &found);
        proof {
            lemma_minted_reach(adj, start.id(), budget as int, found@, r@);
        }
        r
    }

    /// Every coordinate reachable from `start` for no more than `budget`, with its cost, or `None`
    /// if `start` is off the board.
    fn reachable_from<F: Fn(Step<Self::Cell>) -> Option<Cost>>(&self, start: Self::Cell, budget: Cost, m: &Movement<F>) -> (r: Option<Vec<(Self::Cell, Cost)>>)
        requires
            self.wf(),
            pure_rule(m.rule()),
        ensures
            match self.model().index_of(start) {
                Some(a) => r matches Some(v) && exists|found: Seq<(Idx, Cost)>| {
                    &&& reach_ok(step_graph(self.model(), m.rule()), a.id(), budget as int, found)
                    &&& v@.len() == found.len()
                    &&& forall|k: int| 0 <= k < v@.len() ==> #[trigger] v@[k] == (self.model().cells[found[k].0.id()], found[k].1)
                },
                None => r is None,
            },
    {
        proof {
            self.lemma_grid();
            let cs = self.model().cells;
            if cs.contains(start) {
                let k = cs.index_of(start);
                assert(0 <= k < cs.len() && cs[k] == start);
            }
        }
        match self.index_of(start) {
            Some(a) => {
                let found = self.reachable(a, budget, m);
                let mut v: Vec<(Self::Cell, Cost)> = Vec::new();
                let mut k: usize = 0;
                while k < found.len()
                    invariant
                        self.wf(),
                        forall|j: int| 0 <= j < found@.len() ==> (#[trigger] found@[j]).0.id() < self.model().len(),
                        k <= found@.len(),
                        v@.len() == k,
                        forall|j: int| 0 <= j < k ==> #[trigger] v@[j] == (self.model().cells[found@[j].0.id()], found@[j].1),
                    decreases found@.len() - k,
                {
                    let (i, c) = found[k];
                    v.push((self.coord(i), c));
                    k = k + 1;
                }
                Some(v)
            },
            None => None,
        }
    }

    /// The reachable cell that lands closest to `target`, and the path to it.
    ///
    /// What a pursuing unit wants: get as near as this turn's movement allows. Ties break on
    /// distance, then cost, then index — a total order, so the answer is the same every run.
    fn path_toward<F: Fn(Step<Self::Cell>) -> Option<Cost>>(&self, start: Idx, target: Idx, budget: Cost, m: &Movement<F>) -> (r: Option<Path>)
        requires
            self.wf(),
            start.id() < self.model().len(),
            target.id() < self.model().len(),
            pure_rule(m.rule()),
        ensures
            r matches Some(p) && {
                let adj = step_graph(self.model(), m.rule());
                let g = p.spec_steps().last().id();
                &&& route_ok(adj, start.id(), g, p.spec_steps(), p.spec_cost() as int)
                &&& least_cost(adj, start.id(), g, p.spec_cost() as int)
                &&& p.spec_cost() <= budget
                &&& forall|v: int, c: int|
                    0 <= v < adj.len() && c <= budget && #[trigger] least_cost(adj, start.id(), v, c) ==> lex_le(
                        self.model().dist(g, target.id()) as int,
                        p.spec_cost() as int,
                        g,
                        self.model().dist(v, target.id()) as int,
                        c,
                        v,
                    )
            },
    {
        proof {
            self.lemma_grid();
            lemma_step_graph_ok(self.model(), m.rule());
        }
        let n = self.len();
        let tag = self.tag();
        let ghost adj = step_graph(self.model(), m.rule());
        let edges = |u: u32| -> (r: Vec<(u32, Cost)>)
            requires
                self.wf(),
                (u as int) < self.model().len(),
                pure_rule(m.rule()),
            ensures
                r@ == priced(m.rule(), u as int, self.model().outs(u as int)),
            {
                let i = Idx::new(tag, u);
                let nb = self.neighbors(i);
                m.price_out(i, &nb)
            };
        proof {
            assert(yields_edges(&edges, adj));
        }
        let (seen, frontier) = explore(n, start.raw(), budget, &edges, Ghost(adj));
        // The nearest cell reached, then the cheapest of those, then the lowest numbered.
        let mut best: usize = 0;
        let mut best_d: u32 = self.distance(Idx::new(tag, seen[0].0), target);
        let mut k: usize = 1;
        while k < seen.len()
            invariant
                self.wf(),
                1 <= k <= seen@.len(),
                best < k,
                target.id() < self.model().len(),
                forall|j: int| 0 <= j < seen@.len() ==> (#[trigger] seen@[j]).0 < self.model().len(),
                best_d == self.model().dist(seen@[best as int].0 as int, target.id()),
                forall|j: int| 0 <= j < k ==> lex_le(
                    best_d as int,
                    seen@[best as int].1 as int,
                    seen@[best as int].0 as int,
                    self.model().dist((#[trigger] seen@[j]).0 as int, target.id()) as int,
                    seen@[j].1 as int,
                    seen@[j].0 as int,
                ),
            decreases seen@.len() - k,
        {
            let (node, cost) = seen[k];
            let d = self.distance(Idx::new(tag, node), target);
            let best_cost = seen[best].1;
            let best_node = seen[best].0;
            if d < best_d || (d == best_d && (cost < best_cost || (cost == best_cost && node < best_node))) {
                best = k;
                best_d = d;
            }
            k = k + 1;
        }
        let goal = seen[best].0;
        proof {
            assert(frontier.reached(goal as int));
        }
        let route = frontier.walk_home(goal);
        let steps = mint(tag, &route.nodes);
        proof {
            assert(ids(steps@) =~= route.nodes@);
            let g = goal as int;
            let cost = route.cost as int;
            assert(least_cost(adj, start.id(), g, cost));
            assert(steps@.last().id() == g);
            assert forall|v: int, c: int|
                0 <= v < adj.len() && c <= budget && #[trigger] least_cost(adj, start.id(), v, c) implies lex_le(
                    self.model().dist(g, target.id()) as int,
                    cost,
                    g,
                    self.model().dist(v, target.id()) as int,
                    c,
                    v,
                ) by {
                let (w, cs) = choose|w: Seq<u32>, cs: Seq<u32>| walk_between(adj, start.id(), v, w, cs) && sat(total(cs)) == c;
                let j = choose|j: int| 0 <= j < seen@.len() && (#[trigger] seen@[j]).0 == v;
                lemma_least_unique(adj, start.id(), v, c, seen@[j].1 as int);
            }
        }
        Some(Path::of(steps, route.cost))
    }

    /// Every cell that can **reach** `goal` for no more than `budget`, and what it costs them.
    ///
    /// A threat map: one backward search over the edges that lead *into* each cell. The cost of
    /// arriving is the forward cost of the step, which a [`Step`] can carry because it names
    /// `from` as well as `to`. Cheapest first, and as [`Grid::reachable`] breaks ties.
    fn reaching<F: Fn(Step<Self::Cell>) -> Option<Cost>>(&self, goal: Idx, budget: Cost, m: &Movement<F>) -> (r: Vec<(Idx, Cost)>)
        requires
            self.wf(),
            goal.id() < self.model().len(),
            pure_rule(m.rule()),
        ensures
            reach_ok(back_graph(self.model(), m.rule()), goal.id(), budget as int, r@),
            positive(back_graph(self.model(), m.rule())) && budget < Cost::MAX ==> ties_by_index(r@),
    {
        proof {
            self.lemma_grid();
            lemma_step_graph_ok(self.model(), m.rule());
        }
        let n = self.len();
        let tag = self.tag();
        let ghost adj = back_graph(self.model(), m.rule());
        let edges = |u: u32| -> (r: Vec<(u32, Cost)>)
            requires
                self.wf(),
                (u as int) < self.model().len(),
                pure_rule(m.rule()),
            ensures
                r@ == priced_in(m.rule(), u as int, self.model().ins(u as int)),
            {
                let j = Idx::new(tag, u);
                let nb = self.in_neighbors(j);
                m.price_in(j, &nb)
            };
        proof {
            assert(yields_edges(&edges, adj));
        }
        let (found, _) = explore(n, goal.raw(), budget, &edges, Ghost(adj));
        let r = minted(tag, &found);
        proof {
            lemma_minted_reach(adj, goal.id(), budget as int, found@, r@);
        }
        r
    }

    /// Every coordinate that can reach `goal` for no more than `budget`, with its cost, or `None`
    /// if `goal` is off the board.
    fn reaching_cell<F: Fn(Step<Self::Cell>) -> Option<Cost>>(&self, goal: Self::Cell, budget: Cost, m: &Movement<F>) -> (r: Option<Vec<(Self::Cell, Cost)>>)
        requires
            self.wf(),
            pure_rule(m.rule()),
        ensures
            match self.model().index_of(goal) {
                Some(a) => r matches Some(v) && exists|found: Seq<(Idx, Cost)>| {
                    &&& reach_ok(back_graph(self.model(), m.rule()), a.id(), budget as int, found)
                    &&& v@.len() == found.len()
                    &&& forall|k: int| 0 <= k < v@.len() ==> #[trigger] v@[k] == (self.model().cells[found[k].0.id()], found[k].1)
                },
                None => r is None,
            },
    {
        proof {
            self.lemma_grid();
            let cs = self.model().cells;
            if cs.contains(goal) {
                let k = cs.index_of(goal);
                assert(0 <= k < cs.len() && cs[k] == goal);
            }
        }
        match self.index_of(goal) {
            Some(a) => {
                let found = self.reaching(a, budget, m);
                let mut v: Vec<(Self::Cell, Cost)> = Vec::new();
                let mut k: usize = 0;
                while k < found.len()
                    invariant
                        self.wf(),
                        forall|j: int| 0 <= j < found@.len() ==> (#[trigger] found@[j]).0.id() < self.model().len(),
                        k <= found@.len(),
                        v@.len() == k,
                        forall|j: int| 0 <= j < k ==> #[trigger] v@[j] == (self.model().cells[found@[j].0.id()], found@[j].1),
                    decreases found@.len() - k,
                {
                    let (i, c) = found[k];
                    v.push((self.coord(i), c));
                    k = k + 1;
                }
                Some(v)
            },
            None => None,
        }
    }

    /// The distance between two cells, under the metric this board was built with.
    ///
    /// A metric measures **coordinates**, so a [`SubGrid`] measures exactly as its root does.
    fn distance(&self, a: Idx, b: Idx) -> (d: u32)
        requires
            self.wf(),
            a.id() < self.model().len(),
            b.id() < self.model().len(),
        ensures
            d == self.model().dist(a.id(), b.id()),
    {
        self.metric().distance(self.coord(a), self.coord(b))
    }
}


/// Index zero, for an arm the contract rules out.
fn idx_zero() -> (i: Idx)
    ensures
        i == idx(0),
{
    Idx::new(Tag, 0)
}

/// A cell's index and its coordinate name each other: on any well-formed board, the index of the
/// coordinate at index `i` is `i`.
pub proof fn lemma_index_round_trip<B: Grid>(g: &B, i: int)
    requires
        g.wf(),
        0 <= i < g.model().len(),
    ensures
        g.model().index_of(g.model().cells[i]) == Some(idx(i)),
{
    g.lemma_grid();
    let cells = g.model().cells;
    assert(cells.contains(cells[i]));
    let k = cells.index_of(cells[i]);
    assert(0 <= k < cells.len() && cells[k] == cells[i]);
}

} // verus!
