//! A whole board, stored: a set of cells, and a dense index over them.
//!
//! This is the thing you build. [`FullGrid`] holds the cells and the edges between them; the
//! vocabulary you ask it questions in is [`Grid`], which it implements — and so does
//! [`SubGrid`](crate::SubGrid), a region of one of these.
//!
//! A `FullGrid` is **pure geometry**. It holds no terrain, no pieces, no owners — your game holds
//! those, and hands the grid a callback when it wants a path.
//!
//! # The index
//!
//! A coordinate is found again through a `hashbrown` table keyed by the three integers
//! [`Coord::key`] names it by. The table is held behind a small set of trusted calls, and every
//! answer the board gives is proved from what those calls promise.

use vstd::prelude::*;
use crate::coord::{Coord, Dir6, Dir8, Hex, Idx, Metric, Sq, dir6_offset, dir8_offset, iabs, idx};
use vstd::arithmetic::div_mod::lemma_fundamental_div_mod_converse;
use crate::grid::{Grid, Model, RootGrid, max_cells};
use crate::path::{copied, pure_test, verdict};
use crate::tag::Tag;
use crate::text::{decimal, push_decimal, push_text};
use crate::layout::{Offset, lemma_small_tile, lemma_tile_round_trip};
use crate::rect::{in_rect, lemma_rect_cells};

verus! {

broadcast use crate::coord::group_idx;

/// The most cells a grid may hold: 2²⁴, or 16,777,216. A 4096 × 4096 board.
///
/// This is a **memory** limit, not an addressing one: a board at the limit holds about half a
/// gigabyte, and each search over it allocates more.
pub const MAX_CELLS: u64 = 16777216;

/// Why a grid constructor could not build the requested board.
#[derive(Debug, Clone, Copy, PartialEq, Eq, Structural)]
pub enum GridError {
    /// A rectangle had a negative side.
    InvalidDimensions {
        /// The requested width.
        w: i32,
        /// The requested height.
        h: i32,
    },
    /// A radius was negative.
    InvalidRadius {
        /// The requested radius.
        radius: i32,
    },
    /// The requested board or its conservative bounding box exceeds [`MAX_CELLS`].
    TooManyCells {
        /// The number of cells requested.
        cells: u64,
    },
    /// A step is not the same offset everywhere on the board, so it cannot be undone.
    StepNotInvertible,
    /// A direction moves farther than one unit under the supplied metric.
    MetricDisagrees {
        /// The distance a direction actually spans.
        span: u32,
    },
}

impl GridError {
    /// What went wrong, as one sentence.
    pub open spec fn spec_message(self) -> Seq<char> {
        match self {
            GridError::InvalidDimensions { w, h } => "a grid cannot be "@ + decimal(w as int) + " x "@ + decimal(h as int),
            GridError::InvalidRadius { radius } => "radius must be >= 0, not "@ + decimal(radius as int),
            GridError::TooManyCells { cells } => "the requested board needs "@ + decimal(cells as int)
                + " cells; a grid may hold at most "@ + decimal(MAX_CELLS as int),
            GridError::StepNotInvertible => "a step cannot be undone: it is not the same offset everywhere on the board, so the grid cannot find who steps into a cell. Two cells that step onto one cell, and a portal, both do this"@,
            GridError::MetricDisagrees { span } => "the metric disagrees with the directions: a step covers "@ + decimal(
                span as int,
            ) + " units, but a step must cover at most one"@,
        }
    }

    /// What went wrong, as one sentence.
    pub fn message(&self) -> (m: String)
        ensures
            m@ == self.spec_message(),
    {
        let mut m = String::new();
        match *self {
            GridError::InvalidDimensions { w, h } => {
                push_text(&mut m, "a grid cannot be ");
                push_decimal(&mut m, w as i128);
                push_text(&mut m, " x ");
                push_decimal(&mut m, h as i128);
            },
            GridError::InvalidRadius { radius } => {
                push_text(&mut m, "radius must be >= 0, not ");
                push_decimal(&mut m, radius as i128);
            },
            GridError::TooManyCells { cells } => {
                push_text(&mut m, "the requested board needs ");
                push_decimal(&mut m, cells as i128);
                push_text(&mut m, " cells; a grid may hold at most ");
                push_decimal(&mut m, MAX_CELLS as i128);
            },
            GridError::StepNotInvertible => {
                push_text(&mut m, "a step cannot be undone: it is not the same offset everywhere on the board, so the grid cannot find who steps into a cell. Two cells that step onto one cell, and a portal, both do this");
            },
            GridError::MetricDisagrees { span } => {
                push_text(&mut m, "the metric disagrees with the directions: a step covers ");
                push_decimal(&mut m, span as i128);
                push_text(&mut m, " units, but a step must cover at most one");
            },
        }
        m
    }
}

/// Which neighbours a square grid connects, and how it measures distance.
///
/// The two are chosen together, deliberately. An eight-way board measured with Manhattan distance
/// is the classic tactics bug: a melee unit can *step* to a diagonally adjacent enemy but reports
/// it as two away. Picking the adjacency picks the metric that agrees with it.
#[derive(Debug, Clone, Copy, PartialEq, Eq, Structural)]
pub enum Adjacency {
    /// Orthogonal only, with Manhattan distance.
    Four,
    /// Orthogonal and diagonal, with Chebyshev distance.
    Eight,
}

// ---------------------------------------------------------------------------------------------
// The index, behind the calls into `hashbrown`
// ---------------------------------------------------------------------------------------------

/// The reverse lookup from a coordinate's key to its cell number: a `hashbrown::HashMap`.
#[derive(Debug)]
#[verifier::external_body]
pub struct CellIndex {
    map: hashbrown::HashMap<(i32, i32, i32), u32>,
}

/// What the lookup table holds: each key with the cell number it was given.
pub uninterp spec fn index_table(m: CellIndex) -> Map<(i32, i32, i32), u32>;

/// An empty table: `hashbrown::HashMap::new`, which holds nothing.
#[verifier::external_body]
fn index_new() -> (r: CellIndex)
    ensures
        index_table(r) =~= Map::empty(),
{
    CellIndex { map: hashbrown::HashMap::new() }
}

/// `hashbrown::HashMap::get`: the number stored under `k`, or `None` if the key is absent.
#[verifier::external_body]
fn index_get(m: &CellIndex, k: (i32, i32, i32)) -> (r: Option<u32>)
    ensures
        r == (if index_table(*m).contains_key(k) {
            Some(index_table(*m)[k])
        } else {
            None
        }),
{
    m.map.get(&k).copied()
}

/// `hashbrown::HashMap::insert`: afterwards `k` maps to `v`, and every other key is as it was.
#[verifier::external_body]
fn index_insert(m: &mut CellIndex, k: (i32, i32, i32), v: u32)
    ensures
        index_table(*final(m)) == index_table(*old(m)).insert(k, v),
{
    m.map.insert(k, v);
}

impl Clone for CellIndex {
    /// `hashbrown::HashMap::clone`: a table holding the same entries.
    #[verifier::external_body]
    fn clone(&self) -> (r: CellIndex)
        ensures
            index_table(r) == index_table(*self),
    {
        CellIndex { map: self.map.clone() }
    }
}

// ---------------------------------------------------------------------------------------------
// The board as a value
// ---------------------------------------------------------------------------------------------

/// The coordinate that steps onto `c` heading `d`: `c` less the offset of `d`, measured at the
/// origin.
pub open spec fn source_spec<C: Coord>(c: C, d: <C as Coord>::Dir) -> C {
    let origin = c.spec_minus(c);
    c.spec_minus(origin.spec_step(d).spec_minus(origin))
}

/// Where `c` lands heading `d`: a cell of the board other than `c` itself, along a direction of
/// the alphabet.
pub open spec fn land<C: Coord>(cells: Seq<C>, dirs: Seq<<C as Coord>::Dir>, c: C, d: <C as Coord>::Dir) -> Option<int> {
    let to = c.spec_step(d);
    if !dirs.contains(d) || to == c || !cells.contains(to) {
        None
    } else {
        Some(cells.index_of(to))
    }
}

/// Which cell steps onto `c` heading `d`: the source of the step, if it is a cell of the board
/// whose own step in `d` lands on `c`.
pub open spec fn lift<C: Coord>(cells: Seq<C>, dirs: Seq<<C as Coord>::Dir>, c: C, d: <C as Coord>::Dir) -> Option<int> {
    let from = source_spec(c, d);
    if !dirs.contains(d) || from == c || from.spec_step(d) != c || !cells.contains(from) {
        None
    } else {
        Some(cells.index_of(from))
    }
}

/// What is wrong with the step from `c` in direction `d`, if anything: it covers more than one
/// unit of the metric, or it cannot be undone.
pub open spec fn edge_fault<C: Coord>(cells: Seq<C>, metric: Metric, c: C, d: <C as Coord>::Dir) -> Option<GridError> {
    let to = c.spec_step(d);
    if to == c || !cells.contains(to) {
        None
    } else if c.spec_distance(to, metric.spec_kind()) > 1 {
        Some(GridError::MetricDisagrees { span: c.spec_distance(to, metric.spec_kind()) })
    } else if source_spec(to, d) != c {
        Some(GridError::StepNotInvertible)
    } else {
        None
    }
}

/// No step of cell `i` along direction `k` is at fault, for every step before `(i, k)` in the
/// order the board checks them: cell by cell, and direction by direction within a cell.
pub open spec fn sound_before<C: Coord>(cells: Seq<C>, dirs: Seq<<C as Coord>::Dir>, metric: Metric, i: int, k: int) -> bool {
    forall|i2: int, k2: int|
        0 <= i2 < cells.len() && 0 <= k2 < dirs.len() && (i2 < i || (i2 == i && k2 < k))
            ==> (#[trigger] edge_fault(cells, metric, cells[i2], dirs[k2])) is None
}

/// No step of the board is at fault.
pub open spec fn sound<C: Coord>(cells: Seq<C>, dirs: Seq<<C as Coord>::Dir>, metric: Metric) -> bool {
    sound_before(cells, dirs, metric, cells.len() as int, 0)
}

/// The cells of `s` in order of first appearance, each once.
pub open spec fn dedup<C>(s: Seq<C>) -> Seq<C>
    decreases s.len(),
{
    if s.len() == 0 {
        s
    } else {
        let r = dedup(s.drop_last());
        if r.contains(s.last()) {
            r
        } else {
            r.push(s.last())
        }
    }
}

/// These cells, directions and metric make a board: few enough distinct cells, and no step at
/// fault.
pub open spec fn builds<C: Coord>(cells: Seq<C>, dirs: Seq<<C as Coord>::Dir>, metric: Metric) -> bool {
    &&& dedup(cells).len() <= MAX_CELLS
    &&& sound(dedup(cells), dirs, metric)
}

proof fn lemma_dedup<C>(s: Seq<C>)
    ensures
        dedup(s).no_duplicates(),
        forall|x: C| dedup(s).contains(x) <==> s.contains(x),
        dedup(s).len() <= s.len(),
    decreases s.len(),
{
    if s.len() > 0 {
        lemma_dedup(s.drop_last());
        let r = dedup(s.drop_last());
        assert forall|x: C| dedup(s).contains(x) <==> s.contains(x) by {
            if s.contains(x) && x != s.last() {
                let i = s.index_of(x);
                assert(s.drop_last()[i] == x);
                assert(s.drop_last().contains(x));
            }
            if dedup(s).contains(x) && !r.contains(x) {
                let i = dedup(s).index_of(x);
                assert(x == s.last());
                assert(s[s.len() - 1] == x);
            }
            if r.contains(x) {
                assert(s.drop_last().contains(x));
                let i = s.drop_last().index_of(x);
                assert(s[i] == x);
                if !dedup(s).contains(x) {
                    let j = r.index_of(x);
                    assert(dedup(s)[j] == x);
                }
            }
            if x == s.last() {
                assert(s[s.len() - 1] == x);
                if !r.contains(x) {
                    assert(dedup(s)[r.len() as int] == x);
                }
            }
        }
        if !r.contains(s.last()) {
            assert forall|i: int, j: int| 0 <= i < dedup(s).len() && 0 <= j < dedup(s).len() && i != j implies dedup(s)[i] != dedup(s)[j] by {
                if i == r.len() {
                    assert(r.contains(r[j]));
                } else if j == r.len() {
                    assert(r.contains(r[i]));
                }
            }
        }
    }
}

/// Rebuilding a board from its own cells gives the same board: a board's cells hold no repeats,
/// so building again from them keeps every one, in the same order, and succeeds exactly when
/// building from the original list did.
pub proof fn lemma_rebuild<C: Coord>(cells: Seq<C>, dirs: Seq<<C as Coord>::Dir>, metric: Metric)
    ensures
        dedup(dedup(cells)) == dedup(cells),
        builds(dedup(cells), dirs, metric) == builds(cells, dirs, metric),
{
    lemma_dedup(cells);
    lemma_dedup_distinct(dedup(cells));
}

proof fn lemma_dedup_grows<C>(s: Seq<C>, k: int)
    requires
        0 <= k <= s.len(),
    ensures
        dedup(s.take(k)).len() <= dedup(s).len(),
    decreases s.len() - k,
{
    if k < s.len() {
        lemma_dedup_grows(s, k + 1);
        assert(s.take(k + 1).drop_last() =~= s.take(k));
    } else {
        assert(s.take(k) =~= s);
    }
}

/// A whole board: cells, their dense indices, and the directions that lead between them.
///
/// Cells are addressed by [`Idx`], a dense `u32` assigned at construction. Indices are stable for
/// the grid's lifetime but mean nothing to any other grid — **serialize coordinates, never
/// indices.** A grid is not saved, it is rebuilt: hand [`Grid::cells`] back to [`FullGrid::new`]
/// with the same directions and metric, and you get the same board with the same indices.
#[derive(Debug)]
pub struct FullGrid<C: Coord> {
    cells: Vec<C>,
    index: CellIndex,
    dirs: Vec<<C as Coord>::Dir>,
    metric: Metric,
    tag: Tag,
}

/// The coordinate that steps onto `c` heading `d`.
///
/// The offset is measured at the origin, not at `c`: a step that clamps or saturates is bent at the
/// edge of the board, and `c` may be that edge.
fn source<C: Coord>(c: C, d: <C as Coord>::Dir) -> (r: C)
    ensures
        r == source_spec(c, d),
{
    let origin = c.minus(c);
    c.minus(origin.step(d).minus(origin))
}

/// Whether `d` is a direction of the alphabet.
fn has_dir<C: Coord>(dirs: &[<C as Coord>::Dir], d: <C as Coord>::Dir) -> (b: bool)
    ensures
        b == dirs@.contains(d),
{
    let mut k: usize = 0;
    while k < dirs.len()
        invariant
            k <= dirs@.len(),
            forall|j: int| 0 <= j < k ==> dirs@[j] != d,
        decreases dirs@.len() - k,
    {
        if C::same_dir(dirs[k], d) {
            proof {
                assert(dirs@[k as int] == d);
            }
            return true;
        }
        k = k + 1;
    }
    false
}

impl<C: Coord> FullGrid<C> {
    /// A whole board is its own root: it numbers each cell as the root does, and its region of
    /// every cell it holds is itself.
    pub proof fn lemma_numbers_itself(&self)
        requires
            self.wf(),
        ensures
            self.spec_root() == *self,
            forall|i: int| #[trigger] self.spec_to_root(i) == i,
            self.spec_root().whole() == self.model(),
    {
    }

    /// The table holds each cell's key with its number, and nothing else.
    closed spec fn indexed(self) -> bool {
        let t = index_table(self.index);
        &&& forall|i: int| 0 <= i < self.cells@.len() ==> t.contains_key(#[trigger] self.cells@[i].spec_key()) && t[self.cells@[i].spec_key()] == i
        &&& forall|k: (i32, i32, i32)| #[trigger] t.contains_key(k) ==> t[k] < self.cells@.len() && self.cells@[t[k] as int].spec_key() == k
    }

    /// Look a coordinate up in the table.
    fn find(&self, c: C) -> (r: Option<Idx>)
        requires
            self.indexed(),
            self.cells@.no_duplicates(),
        ensures
            r == (if self.cells@.contains(c) {
                Some(idx(self.cells@.index_of(c)))
            } else {
                None
            }),
    {
        let got = index_get(&self.index, c.key());
        match got {
            Some(v) => {
                proof {
                    let t = index_table(self.index);
                    C::lemma_key_injective(self.cells@[v as int], c);
                    assert(self.cells@[v as int] == c);
                    assert(self.cells@.contains(c));
                    let q = self.cells@.index_of(c);
                    assert(self.cells@[q] == c);
                    if q != v {
                        assert(self.cells@[q] == self.cells@[v as int]);
                    }
                }
                Some(Idx::new(self.tag, v))
            },
            None => {
                proof {
                    if self.cells@.contains(c) {
                        let q = self.cells@.index_of(c);
                        assert(self.cells@[q] == c);
                        assert(index_table(self.index).contains_key(self.cells@[q].spec_key()));
                    }
                }
                None
            },
        }
    }

    /// The cell that `c` steps onto heading `d`, if it is on the board and is not `c` itself.
    fn landing(&self, c: C, d: <C as Coord>::Dir) -> (r: Option<Idx>)
        requires
            self.indexed(),
            self.cells@.no_duplicates(),
            self.dirs@.contains(d),
        ensures
            match land(self.cells@, self.dirs@, c, d) {
                Some(j) => r == Some(idx(j)),
                None => r is None,
            },
    {
        let to = c.step(d);
        if to.same(c) {
            return None;
        }
        self.find(to)
    }

    /// Fallibly build a grid from any set of cells, direction alphabet, and distance metric.
    ///
    /// Duplicate cells are dropped, keeping the first occurrence — so the caller's order survives,
    /// and it is the caller's order that fixes the indices.
    ///
    /// `metric` must agree with `dirs`: **one step must never cover more than one unit of
    /// distance**, and this is checked. A step must also be one offset everywhere, so that the
    /// board can find who steps *into* a cell by undoing it; that is checked too, edge by edge.
    ///
    /// # Errors
    ///
    /// [`GridError::TooManyCells`] once the distinct cells pass [`MAX_CELLS`], checked as the
    /// cells are taken; otherwise the first step at fault, in cell order and then direction order,
    /// as [`GridError::MetricDisagrees`] or [`GridError::StepNotInvertible`].
    pub fn try_new(cells: Vec<C>, dirs: &[<C as Coord>::Dir], metric: Metric) -> (r: Result<Self, GridError>)
        ensures
            match r {
                Ok(g) => {
                    &&& g.wf()
                    &&& builds(cells@, dirs@, metric)
                    &&& g.model().cells == dedup(cells@)
                    &&& g.model().dirs == dirs@
                    &&& g.model().metric == metric
                },
                Err(GridError::TooManyCells { cells: n }) => dedup(cells@).len() > MAX_CELLS && n == MAX_CELLS + 1,
                Err(e) => {
                    &&& dedup(cells@).len() <= MAX_CELLS
                    &&& exists|i: int, k: int|
                        0 <= i < dedup(cells@).len() && 0 <= k < dirs@.len() && sound_before(dedup(cells@), dirs@, metric, i, k)
                            && edge_fault(dedup(cells@), metric, dedup(cells@)[i], dirs@[k]) == Some(e)
                },
            },
    {
        let mut ordered: Vec<C> = Vec::new();
        let mut index = index_new();
        let mut k: usize = 0;
        while k < cells.len()
            invariant
                k <= cells@.len(),
                ordered@ == dedup(cells@.take(k as int)),
                ordered@.len() <= MAX_CELLS,
                forall|i: int| 0 <= i < ordered@.len() ==> index_table(index).contains_key(#[trigger] ordered@[i].spec_key())
                    && index_table(index)[ordered@[i].spec_key()] == i,
                forall|key: (i32, i32, i32)| #[trigger] index_table(index).contains_key(key) ==> index_table(index)[key] < ordered@.len()
                    && ordered@[index_table(index)[key] as int].spec_key() == key,
            decreases cells@.len() - k,
        {
            let c = cells[k];
            proof {
                assert(cells@.take(k + 1).drop_last() =~= cells@.take(k as int));
                assert(cells@.take(k + 1).last() == c);
                lemma_dedup(cells@.take(k as int));
            }
            let seen = index_get(&index, c.key());
            if seen.is_none() {
                proof {
                    if ordered@.contains(c) {
                        let q = ordered@.index_of(c);
                        assert(ordered@[q] == c);
                        assert(index_table(index).contains_key(ordered@[q].spec_key()));
                    }
                }
                let ghost t0 = index_table(index);
                let ghost o0 = ordered@;
                index_insert(&mut index, c.key(), ordered.len() as u32);
                ordered.push(c);
                proof {
                    assert forall|i: int| 0 <= i < ordered@.len() implies index_table(index).contains_key(#[trigger] ordered@[i].spec_key())
                        && index_table(index)[ordered@[i].spec_key()] == i by {
                        if i < o0.len() {
                            assert(ordered@[i] == o0[i]);
                            if o0[i].spec_key() == c.spec_key() {
                                C::lemma_key_injective(o0[i], c);
                                assert(o0.contains(c));
                            }
                        }
                    }
                    assert forall|key: (i32, i32, i32)| #[trigger] index_table(index).contains_key(key) implies index_table(index)[key] < ordered@.len()
                        && ordered@[index_table(index)[key] as int].spec_key() == key by {
                        if key != c.spec_key() {
                            assert(t0.contains_key(key));
                        }
                    }
                }
            } else {
                proof {
                    let v = seen->0;
                    C::lemma_key_injective(ordered@[v as int], c);
                    assert(ordered@.contains(c));
                }
            }
            if ordered.len() as u64 > MAX_CELLS {
                proof {
                    lemma_dedup_grows(cells@, k + 1);
                }
                return Err(GridError::TooManyCells { cells: ordered.len() as u64 });
            }
            k = k + 1;
        }
        proof {
            assert(cells@.take(k as int) =~= cells@);
            lemma_dedup(cells@);
        }
        let mut i: usize = 0;
        while i < ordered.len()
            invariant
                ordered@ == dedup(cells@),
                ordered@.no_duplicates(),
                ordered@.len() <= MAX_CELLS,
                i <= ordered@.len(),
                forall|i2: int| 0 <= i2 < ordered@.len() ==> index_table(index).contains_key(#[trigger] ordered@[i2].spec_key())
                    && index_table(index)[ordered@[i2].spec_key()] == i2,
                forall|key: (i32, i32, i32)| #[trigger] index_table(index).contains_key(key) ==> index_table(index)[key] < ordered@.len()
                    && ordered@[index_table(index)[key] as int].spec_key() == key,
                sound_before(ordered@, dirs@, metric, i as int, 0),
            decreases ordered@.len() - i,
        {
            let c = ordered[i];
            let mut j: usize = 0;
            while j < dirs.len()
                invariant
                    ordered@ == dedup(cells@),
                    ordered@.no_duplicates(),
                    ordered@.len() <= MAX_CELLS,
                    i < ordered@.len(),
                    c == ordered@[i as int],
                    j <= dirs@.len(),
                    forall|i2: int| 0 <= i2 < ordered@.len() ==> index_table(index).contains_key(#[trigger] ordered@[i2].spec_key())
                        && index_table(index)[ordered@[i2].spec_key()] == i2,
                    forall|key: (i32, i32, i32)| #[trigger] index_table(index).contains_key(key) ==> index_table(index)[key] < ordered@.len()
                        && ordered@[index_table(index)[key] as int].spec_key() == key,
                    sound_before(ordered@, dirs@, metric, i as int, j as int),
                decreases dirs@.len() - j,
            {
                let d = dirs[j];
                let to = c.step(d);
                let known = index_get(&index, to.key());
                proof {
                    match known {
                        Some(v) => {
                            C::lemma_key_injective(ordered@[v as int], to);
                            assert(ordered@.contains(to));
                        },
                        None => {
                            if ordered@.contains(to) {
                                let q = ordered@.index_of(to);
                                assert(ordered@[q] == to);
                                assert(index_table(index).contains_key(ordered@[q].spec_key()));
                            }
                        },
                    }
                }
                if !to.same(c) && known.is_some() {
                    let span = metric.distance(c, to);
                    if span > 1 {
                        proof {
                            let e = GridError::MetricDisagrees { span };
                            assert(edge_fault(ordered@, metric, ordered@[i as int], dirs@[j as int]) == Some(e));
                            assert(exists|i2: int, k2: int|
                                0 <= i2 < dedup(cells@).len() && 0 <= k2 < dirs@.len() && sound_before(dedup(cells@), dirs@, metric, i2, k2)
                                    && edge_fault(dedup(cells@), metric, dedup(cells@)[i2], dirs@[k2]) == Some(e)) by {
                                assert(sound_before(dedup(cells@), dirs@, metric, i as int, j as int));
                            }
                        }
                        return Err(GridError::MetricDisagrees { span });
                    }
                    let back = source(to, d);
                    if !back.same(c) {
                        proof {
                            let e = GridError::StepNotInvertible;
                            assert(edge_fault(ordered@, metric, ordered@[i as int], dirs@[j as int]) == Some(e));
                            assert(exists|i2: int, k2: int|
                                0 <= i2 < dedup(cells@).len() && 0 <= k2 < dirs@.len() && sound_before(dedup(cells@), dirs@, metric, i2, k2)
                                    && edge_fault(dedup(cells@), metric, dedup(cells@)[i2], dirs@[k2]) == Some(e)) by {
                                assert(sound_before(dedup(cells@), dirs@, metric, i as int, j as int));
                            }
                        }
                        return Err(GridError::StepNotInvertible);
                    }
                }
                proof {
                    assert(edge_fault(ordered@, metric, ordered@[i as int], dirs@[j as int]) is None);
                    assert forall|i2: int, k2: int|
                        0 <= i2 < ordered@.len() && 0 <= k2 < dirs@.len() && (i2 < i || (i2 == i && k2 < j + 1))
                            implies (#[trigger] edge_fault(ordered@, metric, ordered@[i2], dirs@[k2])) is None by {
                        if !(i2 == i && k2 == j) {
                            assert(sound_before(ordered@, dirs@, metric, i as int, j as int));
                        }
                    }
                }
                j = j + 1;
            }
            proof {
                assert forall|i2: int, k2: int|
                    0 <= i2 < ordered@.len() && 0 <= k2 < dirs@.len() && (i2 < i + 1 || (i2 == i + 1 && k2 < 0))
                        implies (#[trigger] edge_fault(ordered@, metric, ordered@[i2], dirs@[k2])) is None by {
                    assert(sound_before(ordered@, dirs@, metric, i as int, j as int));
                }
            }
            i = i + 1;
        }
        let mut own_dirs: Vec<<C as Coord>::Dir> = Vec::new();
        let mut k: usize = 0;
        while k < dirs.len()
            invariant
                k <= dirs@.len(),
                own_dirs@ == dirs@.take(k as int),
            decreases dirs@.len() - k,
        {
            own_dirs.push(dirs[k]);
            k = k + 1;
            proof {
                assert(own_dirs@ =~= dirs@.take(k as int));
            }
        }
        proof {
            assert(own_dirs@ =~= dirs@);
        }
        let tag = Tag::of(ordered.as_slice());
        let g = FullGrid { cells: ordered, index, dirs: own_dirs, metric, tag };
        Ok(g)
    }
}

/// A sound board of distinct cells keeps the laws of a board.
pub(crate) proof fn lemma_full_laws<C: Coord>(cells: Seq<C>, dirs: Seq<<C as Coord>::Dir>, metric: Metric)
    requires
        cells.len() <= MAX_CELLS,
        cells.no_duplicates(),
        sound(cells, dirs, metric),
    ensures
        (Model {
            cells,
            dirs,
            step: |i: int, d: <C as Coord>::Dir| land(cells, dirs, cells[i], d),
            back: |j: int, d: <C as Coord>::Dir| lift(cells, dirs, cells[j], d),
            metric,
        }).laws(),
{
    let m = Model {
        cells,
        dirs,
        step: |i: int, d: <C as Coord>::Dir| land(cells, dirs, cells[i], d),
        back: |j: int, d: <C as Coord>::Dir| lift(cells, dirs, cells[j], d),
        metric,
    };
    assert forall|i: int, d: <C as Coord>::Dir| m.valid(i) && (#[trigger] (m.step)(i, d)) is Some implies {
        let j = (m.step)(i, d)->0;
        &&& m.valid(j)
        &&& j != i
        &&& m.dirs.contains(d)
        &&& m.dist(i, j) <= 1
        &&& (m.back)(j, d) == Some(i)
    } by {
        let c = cells[i];
        let to = c.spec_step(d);
        let j = cells.index_of(to);
        assert(cells[j] == to);
        let k = dirs.index_of(d);
        assert(dirs[k] == d);
        assert(edge_fault(cells, metric, cells[i], dirs[k]) is None);
        assert(source_spec(to, d) == c);
        assert(cells.contains(c));
        let q = cells.index_of(c);
        assert(cells[q] == c);
        if q != i {
            assert(cells[q] == cells[i]);
        }
    }
    assert forall|j: int, d: <C as Coord>::Dir| m.valid(j) && (#[trigger] (m.back)(j, d)) is Some implies {
        let i = (m.back)(j, d)->0;
        &&& m.valid(i)
        &&& (m.step)(i, d) == Some(j)
    } by {
        let c = cells[j];
        let from = source_spec(c, d);
        let i = cells.index_of(from);
        assert(cells[i] == from);
        assert(cells.contains(c));
        let q = cells.index_of(c);
        assert(cells[q] == c);
        if q != j {
            assert(cells[q] == cells[j]);
        }
    }
}

/// A list with no repeats is its own first-appearance list.
proof fn lemma_dedup_distinct<C>(s: Seq<C>)
    requires
        s.no_duplicates(),
    ensures
        dedup(s) == s,
    decreases s.len(),
{
    if s.len() > 0 {
        let t = s.drop_last();
        assert(t.no_duplicates()) by {
            assert forall|i: int, j: int| 0 <= i < t.len() && 0 <= j < t.len() && i != j implies t[i] != t[j] by {
                assert(s[i] != s[j]);
            }
        }
        lemma_dedup_distinct(t);
        if t.contains(s.last()) {
            let i = t.index_of(s.last());
            assert(s[i] == s[s.len() - 1]);
        }
        assert(t.push(s.last()) =~= s);
    }
}

/// Keeping some cells of a sound board of distinct cells leaves a sound board of distinct cells.
proof fn lemma_keep_sound<C: Coord>(cells: Seq<C>, kept: Seq<C>, dirs: Seq<<C as Coord>::Dir>, metric: Metric)
    requires
        cells.no_duplicates(),
        sound(cells, dirs, metric),
        kept.no_duplicates(),
        forall|c: C| kept.contains(c) ==> cells.contains(c),
    ensures
        sound(kept, dirs, metric),
{
    assert forall|i2: int, k2: int|
        0 <= i2 < kept.len() && 0 <= k2 < dirs.len() && (i2 < kept.len() || (i2 == kept.len() && k2 < 0))
            implies (#[trigger] edge_fault(kept, metric, kept[i2], dirs[k2])) is None by {
        let c = kept[i2];
        assert(kept.contains(c));
        let q = cells.index_of(c);
        assert(cells[q] == c);
        assert(edge_fault(cells, metric, cells[q], dirs[k2]) is None);
        let to = c.spec_step(dirs[k2]);
        if kept.contains(to) {
            assert(cells.contains(to));
        }
    }
}

impl<C: Coord> FullGrid<C> {
    /// Build a grid from any set of cells, any direction alphabet, and a distance metric.
    ///
    /// The same numbering and checks as [`FullGrid::try_new`], for cells known to make a board.
    pub fn new(cells: Vec<C>, dirs: &[<C as Coord>::Dir], metric: Metric) -> (g: Self)
        requires
            builds(cells@, dirs@, metric),
        ensures
            g.wf(),
            g.model().cells == dedup(cells@),
            g.model().dirs == dirs@,
            g.model().metric == metric,
    {
        match Self::try_new(cells, dirs, metric) {
            Ok(g) => g,
            Err(e) => {
                proof {
                    lemma_dedup(cells@);
                    if !(e is TooManyCells) {
                        let (i, k) = choose|i: int, k: int|
                            0 <= i < dedup(cells@).len() && 0 <= k < dirs@.len() && sound_before(dedup(cells@), dirs@, metric, i, k)
                                && edge_fault(dedup(cells@), metric, dedup(cells@)[i], dirs@[k]) == Some(e);
                        assert(edge_fault(dedup(cells@), metric, dedup(cells@)[i], dirs@[k]) is None);
                    }
                }
                vstd::pervasive::unreached()
            },
        }
    }

    /// A **new** board holding only the cells that pass `keep`, numbered afresh in the same order.
    ///
    /// This is how you get holes, islands, and boards that are not rectangles. Steps into a dropped
    /// cell become dead ends. Any [`Idx`] you were holding is now **stale**: look cells up again by
    /// coordinate.
    pub fn filtered<F: Fn(C) -> bool>(&self, keep: F) -> (g: Self)
        requires
            self.wf(),
            pure_test(keep),
        ensures
            g.wf(),
            g.model().cells == self.model().cells.filter(|c: C| verdict(keep, c)),
            g.model().dirs == self.model().dirs,
            g.model().metric == self.model().metric,
    {
        let ghost pred = |c: C| verdict(keep, c);
        let mut kept: Vec<C> = Vec::new();
        let mut k: usize = 0;
        proof {
            reveal(Seq::filter);
            assert(self.cells@.take(0) =~= Seq::<C>::empty());
        }
        while k < self.cells.len()
            invariant
                k <= self.cells@.len(),
                pure_test(keep),
                pred == (|c: C| verdict(keep, c)),
                kept@ == self.cells@.take(k as int).filter(pred),
            decreases self.cells@.len() - k,
        {
            let c = self.cells[k];
            let yes = keep(c);
            proof {
                reveal(Seq::filter);
                assert(self.cells@.take(k + 1).drop_last() =~= self.cells@.take(k as int));
                assert(self.cells@.take(k + 1).last() == c);
                assert(yes == verdict(keep, c));
            }
            if yes {
                kept.push(c);
            }
            k = k + 1;
        }
        proof {
            assert(self.cells@.take(k as int) =~= self.cells@);
            let f = self.cells@.filter(pred);
            assert(f.no_duplicates()) by {
                lemma_filter_distinct(self.cells@, pred);
            }
            assert forall|c: C| f.contains(c) implies self.cells@.contains(c) by {
                self.cells@.lemma_filter_contains_rev(pred, c);
            }
            lemma_keep_sound(self.cells@, f, self.dirs@, self.metric);
            lemma_dedup_distinct(f);
            self.cells@.lemma_filter_len(pred);
        }
        Self::new(kept, self.dirs.as_slice(), self.metric)
    }
}

/// Filtering a list with no repeats leaves a list with no repeats.
proof fn lemma_filter_distinct<C>(s: Seq<C>, p: spec_fn(C) -> bool)
    requires
        s.no_duplicates(),
    ensures
        s.filter(p).no_duplicates(),
    decreases s.len(),
{
    reveal(Seq::filter);
    if s.len() > 0 {
        let t = s.drop_last();
        assert(t.no_duplicates()) by {
            assert forall|i: int, j: int| 0 <= i < t.len() && 0 <= j < t.len() && i != j implies t[i] != t[j] by {
                assert(s[i] != s[j]);
            }
        }
        lemma_filter_distinct(t, p);
        if p(s.last()) {
            let f = t.filter(p);
            if f.contains(s.last()) {
                t.lemma_filter_contains_rev(p, s.last());
                let i = t.index_of(s.last());
                assert(s[i] == s[s.len() - 1]);
            }
            assert forall|i: int, j: int| 0 <= i < f.push(s.last()).len() && 0 <= j < f.push(s.last()).len() && i != j
                implies f.push(s.last())[i] != f.push(s.last())[j] by {
                if i == f.len() {
                    assert(f.contains(f[j]));
                } else if j == f.len() {
                    assert(f.contains(f[i]));
                }
            }
        }
    }
}

impl<C: Coord> Clone for FullGrid<C> {
    /// The same board: the same cells, directions, metric and lookup table.
    fn clone(&self) -> (g: Self)
        ensures
            g.model() == self.model(),
            g.wf() == self.wf(),
    {
        let g = FullGrid {
            cells: copied(&self.cells),
            index: self.index.clone(),
            dirs: copied(&self.dirs),
            metric: self.metric,
            tag: self.tag,
        };
        proof {
            assert(g.model().step == self.model().step);
            assert(g.model().back == self.model().back);
            assert(index_table(g.index) == index_table(self.index));
            assert(g.indexed() == self.indexed());
        }
        g
    }
}

impl<C: Coord> Grid for FullGrid<C> {
    type Cell = C;
    type Root = FullGrid<C>;

    closed spec fn wf(&self) -> bool {
        &&& self.cells@.len() <= MAX_CELLS
        &&& self.cells@.no_duplicates()
        &&& self.indexed()
        &&& sound(self.cells@, self.dirs@, self.metric)
    }

    closed spec fn model(&self) -> Model<C> {
        let cells = self.cells@;
        let dirs = self.dirs@;
        Model {
            cells,
            dirs,
            step: |i: int, d: <C as Coord>::Dir| land(cells, dirs, cells[i], d),
            back: |j: int, d: <C as Coord>::Dir| lift(cells, dirs, cells[j], d),
            metric: self.metric,
        }
    }

    closed spec fn spec_root(&self) -> FullGrid<C> {
        *self
    }

    closed spec fn spec_to_root(&self, i: int) -> int {
        i
    }

    proof fn lemma_grid(&self) {
        lemma_full_laws(self.cells@, self.dirs@, self.metric);
        assert(self.spec_root() == *self);
        assert(self.spec_root().whole_wf() == self.wf());
        assert(self.spec_root().whole() == self.model());
        assert forall|i: int| 0 <= i < self.model().len() implies 0 <= #[trigger] self.spec_to_root(i) < self.spec_root().whole().len()
            && self.spec_root().whole().cells[self.spec_to_root(i)] == self.model().cells[i] by {
        }
        assert forall|i: int, j: int| 0 <= i < j < self.model().len() implies #[trigger] self.spec_to_root(i) < #[trigger] self.spec_to_root(j) by {
        }
    }

    fn tag(&self) -> (t: Tag) {
        self.tag
    }

    fn len(&self) -> (r: usize) {
        self.cells.len()
    }

    fn coord(&self, i: Idx) -> (c: C) {
        self.cells[i.raw() as usize]
    }

    fn index_of(&self, c: C) -> (r: Option<Idx>) {
        self.find(c)
    }

    fn dirs(&self) -> (r: &[<C as Coord>::Dir]) {
        self.dirs.as_slice()
    }

    fn step(&self, i: Idx, d: <C as Coord>::Dir) -> (r: Option<Idx>) {
        if !has_dir::<C>(self.dirs.as_slice(), d) {
            return None;
        }
        self.landing(self.cells[i.raw() as usize], d)
    }

    fn back(&self, j: Idx, d: <C as Coord>::Dir) -> (r: Option<Idx>) {
        if !has_dir::<C>(self.dirs.as_slice(), d) {
            return None;
        }
        let c = self.cells[j.raw() as usize];
        let from = source(c, d);
        // `try_new` proved that every real edge passes this test. It still runs here, because
        // `from` may be a cell whose own step is bent at the edge and does not reach `c`.
        if from.same(c) || !from.step(d).same(c) {
            return None;
        }
        self.find(from)
    }

    fn metric(&self) -> (m: Metric) {
        self.metric
    }

    fn root(&self) -> (r: &FullGrid<C>) {
        self
    }

    fn to_root(&self, i: Idx) -> (r: Idx) {
        Idx::new(self.tag, i.raw())
    }

    fn of_root(&self, i: Idx) -> (r: Option<Idx>) {
        if (i.raw() as usize) < self.cells.len() {
            Some(Idx::new(self.tag, i.raw()))
        } else {
            None
        }
    }
}

impl<C: Coord> RootGrid for FullGrid<C> {
    type Cell = C;

    closed spec fn whole_wf(&self) -> bool {
        self.wf()
    }

    closed spec fn whole(&self) -> Model<C> {
        self.model()
    }

    proof fn lemma_whole(&self) {
        self.lemma_grid();
    }

    fn whole_count(&self) -> (r: usize) {
        self.cells.len()
    }

    fn whole_coord_at(&self, i: u32) -> (c: C) {
        self.cells[i as usize]
    }

    fn whole_index_of(&self, c: C) -> (r: Option<Idx>) {
        self.find(c)
    }

    fn whole_dir_list(&self) -> (r: &[<C as Coord>::Dir]) {
        self.dirs.as_slice()
    }

    fn whole_step_at(&self, i: u32, d: <C as Coord>::Dir) -> (r: Option<u32>) {
        match self.step(Idx::new(self.tag, i), d) {
            Some(j) => Some(j.raw()),
            None => None,
        }
    }

    fn whole_back_at(&self, j: u32, d: <C as Coord>::Dir) -> (r: Option<u32>) {
        match self.back(Idx::new(self.tag, j), d) {
            Some(i) => Some(i.raw()),
            None => None,
        }
    }

    fn whole_metric_of(&self) -> (m: Metric) {
        self.metric
    }
}

// ---------------------------------------------------------------------------------------------
// The shipped shapes
// ---------------------------------------------------------------------------------------------

/// The directions an adjacency connects: the four orthogonals, or all eight, clockwise from north.
pub open spec fn adj_dirs(adj: Adjacency) -> Seq<Dir8> {
    match adj {
        Adjacency::Four => seq![Dir8::N, Dir8::E, Dir8::S, Dir8::W],
        Adjacency::Eight => seq![Dir8::N, Dir8::Ne, Dir8::E, Dir8::Se, Dir8::S, Dir8::Sw, Dir8::W, Dir8::Nw],
    }
}

/// The metric that agrees with an adjacency: Manhattan for four, Chebyshev for eight.
pub open spec fn adj_metric(adj: Adjacency) -> Metric {
    match adj {
        Adjacency::Four => Metric::Manhattan,
        Adjacency::Eight => Metric::Chebyshev,
    }
}

/// The six hex directions, in the order a hex board tries them.
pub open spec fn hex_dirs() -> Seq<Dir6> {
    seq![Dir6::E, Dir6::Ne, Dir6::Nw, Dir6::W, Dir6::Sw, Dir6::Se]
}

/// The directions of an adjacency.
fn dirs_of(adj: Adjacency) -> (v: Vec<Dir8>)
    ensures
        v@ == adj_dirs(adj),
{
    let mut v: Vec<Dir8> = Vec::new();
    match adj {
        Adjacency::Four => {
            v.push(Dir8::N);
            v.push(Dir8::E);
            v.push(Dir8::S);
            v.push(Dir8::W);
        },
        Adjacency::Eight => {
            v.push(Dir8::N);
            v.push(Dir8::Ne);
            v.push(Dir8::E);
            v.push(Dir8::Se);
            v.push(Dir8::S);
            v.push(Dir8::Sw);
            v.push(Dir8::W);
            v.push(Dir8::Nw);
        },
    }
    assert(v@ =~= adj_dirs(adj));
    v
}

/// The metric of an adjacency.
fn metric_of(adj: Adjacency) -> (m: Metric)
    ensures
        m == adj_metric(adj),
{
    match adj {
        Adjacency::Four => Metric::Manhattan,
        Adjacency::Eight => Metric::Chebyshev,
    }
}

/// The six hex directions.
fn hex_dir_list() -> (v: Vec<Dir6>)
    ensures
        v@ == hex_dirs(),
{
    let mut v: Vec<Dir6> = Vec::new();
    v.push(Dir6::E);
    v.push(Dir6::Ne);
    v.push(Dir6::Nw);
    v.push(Dir6::W);
    v.push(Dir6::Sw);
    v.push(Dir6::Se);
    assert(v@ =~= hex_dirs());
    v
}

/// A square cell far enough from the edge of `i32` that no step near it saturates.
pub open spec fn modest_sq(c: Sq) -> bool {
    -0x4000_0000 <= c.x <= 0x4000_0000 && -0x4000_0000 <= c.y <= 0x4000_0000
}

/// A hex cell far enough from the edge of `i32` that no step near it saturates.
pub open spec fn modest_hex(c: Hex) -> bool {
    -0x4000_0000 <= c.q <= 0x4000_0000 && -0x4000_0000 <= c.r <= 0x4000_0000
}

/// Every step of an adjacency from a modest square cell moves one unit and is undone by its
/// offset.
pub(crate) proof fn lemma_sq_sound(cells: Seq<Sq>, adj: Adjacency)
    requires
        forall|i: int| 0 <= i < cells.len() ==> modest_sq(#[trigger] cells[i]),
    ensures
        sound(cells, adj_dirs(adj), adj_metric(adj)),
{
    let dirs = adj_dirs(adj);
    let metric = adj_metric(adj);
    assert forall|i2: int, k2: int|
        0 <= i2 < cells.len() && 0 <= k2 < dirs.len() && (i2 < cells.len() || (i2 == cells.len() && k2 < 0))
            implies (#[trigger] edge_fault(cells, metric, cells[i2], dirs[k2])) is None by {
        let c = cells[i2];
        let d = dirs[k2];
        assert(modest_sq(c));
        let to = c.spec_step(d);
        assert(to == Sq { x: (c.x + dir8_offset(d).0) as i32, y: (c.y + dir8_offset(d).1) as i32 });
        let origin = to.spec_minus(to);
        assert(origin == Sq { x: 0, y: 0 });
        assert(origin.spec_step(d).spec_minus(origin) == Sq { x: dir8_offset(d).0 as i32, y: dir8_offset(d).1 as i32 });
        assert(source_spec(to, d) == c);
    }
}

/// Every hex step from a modest hex cell moves one unit and is undone by its offset.
proof fn lemma_hex_sound(cells: Seq<Hex>)
    requires
        forall|i: int| 0 <= i < cells.len() ==> modest_hex(#[trigger] cells[i]),
    ensures
        sound(cells, hex_dirs(), Metric::Hex),
{
    let dirs = hex_dirs();
    assert forall|i2: int, k2: int|
        0 <= i2 < cells.len() && 0 <= k2 < dirs.len() && (i2 < cells.len() || (i2 == cells.len() && k2 < 0))
            implies (#[trigger] edge_fault(cells, Metric::Hex, cells[i2], dirs[k2])) is None by {
        let c = cells[i2];
        let d = dirs[k2];
        assert(modest_hex(c));
        let to = c.spec_step(d);
        assert(to == Hex { q: (c.q + dir6_offset(d).0) as i32, r: (c.r + dir6_offset(d).1) as i32 });
        let origin = to.spec_minus(to);
        assert(origin == Hex { q: 0, r: 0 });
        assert(origin.spec_step(d).spec_minus(origin) == Hex { q: dir6_offset(d).0 as i32, r: dir6_offset(d).1 as i32 });
        assert(source_spec(to, d) == c);
    }
}

/// A strictly sorted list has no repeats.
proof fn lemma_sorted_distinct<C>(s: Seq<C>, lt: spec_fn(C, C) -> bool)
    requires
        forall|i: int, j: int| 0 <= i < j < s.len() ==> lt(#[trigger] s[i], #[trigger] s[j]),
        forall|a: C| !#[trigger] lt(a, a),
    ensures
        s.no_duplicates(),
{
    assert forall|i: int, j: int| 0 <= i < s.len() && 0 <= j < s.len() && i != j implies s[i] != s[j] by {
        if i < j {
            assert(lt(s[i], s[j]));
        } else {
            assert(lt(s[j], s[i]));
        }
    }
}

/// Row-major order on square cells: by row, then by column.
pub open spec fn row_before(a: Sq, b: Sq) -> bool {
    a.y < b.y || (a.y == b.y && a.x < b.x)
}

/// Column-major order on hex cells: by `q`, then by `r`.
pub open spec fn hex_before(a: Hex, b: Hex) -> bool {
    a.q < b.q || (a.q == b.q && a.r < b.r)
}

/// The cells of a `w × h` rectangle of square cells, in row-major order.
pub open spec fn rect_cells(w: int, h: int) -> Seq<Sq> {
    Seq::new((w * h) as nat, |k: int| Sq { x: (k % w) as i32, y: (k / w) as i32 })
}

/// The `w × h` rectangle of square cells as a board: its cells in row-major order, the
/// directions and metric of its adjacency, and the steps those make between its cells.
pub open spec fn square_model(w: int, h: int, adj: Adjacency) -> Model<Sq> {
    let cells = rect_cells(w, h);
    let dirs = adj_dirs(adj);
    Model {
        cells,
        dirs,
        step: |i: int, d: Dir8| land(cells, dirs, cells[i], d),
        back: |j: int, d: Dir8| lift(cells, dirs, cells[j], d),
        metric: adj_metric(adj),
    }
}

/// The cells of a `w × h` rectangle, row by row.
fn rect_list(w: i32, h: i32) -> (v: Vec<Sq>)
    requires
        w >= 0,
        h >= 0,
        w * h <= MAX_CELLS,
    ensures
        v@ == rect_cells(w as int, h as int),
        forall|i: int, j: int| 0 <= i < j < v@.len() ==> row_before(#[trigger] v@[i], #[trigger] v@[j]),
        forall|i: int| 0 <= i < v@.len() ==> 0 <= (#[trigger] v@[i]).x < w && 0 <= v@[i].y < h,
{
    let mut v: Vec<Sq> = Vec::new();
    let mut y: i32 = 0;
    while y < h
        invariant
            0 <= y <= h,
            w >= 0,
            w * h <= MAX_CELLS,
            v@.len() == y * w,
            forall|k: int| 0 <= k < v@.len() ==> #[trigger] v@[k] == (Sq { x: (k % (w as int)) as i32, y: (k / (w as int)) as i32 }),
            forall|i: int, j: int| 0 <= i < j < v@.len() ==> row_before(#[trigger] v@[i], #[trigger] v@[j]),
            forall|i: int| 0 <= i < v@.len() ==> 0 <= (#[trigger] v@[i]).x < w && 0 <= v@[i].y < y,
        decreases h - y,
    {
        let mut x: i32 = 0;
        while x < w
            invariant
                0 <= y < h,
                0 <= x <= w,
                w * h <= MAX_CELLS,
                v@.len() == y * w + x,
                forall|k: int| 0 <= k < v@.len() ==> #[trigger] v@[k] == (Sq { x: (k % (w as int)) as i32, y: (k / (w as int)) as i32 }),
                forall|i: int, j: int| 0 <= i < j < v@.len() ==> row_before(#[trigger] v@[i], #[trigger] v@[j]),
                forall|i: int| 0 <= i < v@.len() ==> 0 <= (#[trigger] v@[i]).x < w && (v@[i].y < y || (v@[i].y == y && v@[i].x < x)),
            decreases w - x,
        {
            proof {
                let k = y * w + x;
                lemma_fundamental_div_mod_converse(k, w as int, y as int, x as int);
            }
            let ghost old_v = v@;
            v.push(Sq::new(x, y));
            proof {
                assert forall|i: int, j: int| 0 <= i < j < v@.len() implies row_before(#[trigger] v@[i], #[trigger] v@[j]) by {
                    if j == v@.len() - 1 {
                        assert(old_v.len() > i);
                        assert(v@[i] == old_v[i]);
                    } else {
                        assert(row_before(old_v[i], old_v[j]));
                    }
                }
            }
            x = x + 1;
        }
        proof {
            assert(v@.len() == (y + 1) * w) by (nonlinear_arith)
                requires
                    v@.len() == y * w + w,
            ;
            assert((y + 1) * w <= w * h) by (nonlinear_arith)
                requires
                    y + 1 <= h,
                    w >= 0,
            ;
        }
        y = y + 1;
    }
    proof {
        assert(y * w == w * h) by (nonlinear_arith)
            requires
                y == h,
        ;
        assert(v@ =~= rect_cells(w as int, h as int));
    }
    v
}

impl FullGrid<Sq> {
    /// Fallibly build a `w × h` rectangle of square cells, in row-major order.
    ///
    /// The adjacency picks the metric to match it; see [`Adjacency`].
    pub fn try_square(w: i32, h: i32, adj: Adjacency) -> (r: Result<Self, GridError>)
        ensures
            w < 0 || h < 0 ==> r == Err::<Self, GridError>(GridError::InvalidDimensions { w, h }),
            w >= 0 && h >= 0 && w * h > MAX_CELLS ==> r == Err::<Self, GridError>(
                GridError::TooManyCells { cells: (w * h) as u64 },
            ),
            w >= 0 && h >= 0 && w * h <= MAX_CELLS ==> match r {
                Ok(g) => {
                    &&& g.wf()
                    &&& g.model() == square_model(w as int, h as int, adj)
                },
                Err(_) => false,
            },
    {
        if w < 0 || h < 0 {
            return Err(GridError::InvalidDimensions { w, h });
        }
        assert((w as u64) * (h as u64) <= 0x7fff_ffff * 0x7fff_ffff) by (nonlinear_arith)
            requires
                0 <= w <= 0x7fff_ffff,
                0 <= h <= 0x7fff_ffff,
        ;
        let count: u64 = (w as u64) * (h as u64);
        if count > MAX_CELLS {
            return Err(GridError::TooManyCells { cells: count });
        }
        let cells = rect_list(w, h);
        let dirs = dirs_of(adj);
        proof {
            lemma_sorted_distinct(cells@, |a: Sq, b: Sq| row_before(a, b));
            lemma_dedup_distinct(cells@);
            assert forall|i: int| 0 <= i < cells@.len() implies modest_sq(#[trigger] cells@[i]) by {
                assert(w * h >= 1);
                assert(w <= w * h) by (nonlinear_arith)
                    requires
                        w * h >= 1,
                        w >= 0,
                        h >= 0,
                ;
                assert(h <= w * h) by (nonlinear_arith)
                    requires
                        w * h >= 1,
                        w >= 0,
                        h >= 0,
                ;
            }
            lemma_sq_sound(cells@, adj);
        }
        let r = Self::try_new(cells, dirs.as_slice(), metric_of(adj));
        proof {
            if r is Ok {
                let m = r->Ok_0.model();
                let q = square_model(w as int, h as int, adj);
                assert(m.cells == q.cells);
                assert(m.step =~= q.step);
                assert(m.back =~= q.back);
            }
        }
        r
    }

    /// A `w × h` rectangle of square cells, in row-major order, for dimensions known to be sane.
    pub fn square(w: i32, h: i32, adj: Adjacency) -> (g: Self)
        requires
            w >= 0,
            h >= 0,
            w * h <= MAX_CELLS,
        ensures
            g.wf(),
            g.model() == square_model(w as int, h as int, adj),
    {
        match Self::try_square(w, h, adj) {
            Ok(g) => g,
            Err(_) => vstd::pervasive::unreached(),
        }
    }
}

/// Whether a square cell lies in the disc of radius `r` about the origin: `x² + y² <= r²`.
pub open spec fn in_disc(c: Sq, r: int) -> bool {
    -r <= c.x <= r && -r <= c.y <= r && c.x * c.x + c.y * c.y <= r * r
}

/// Whether a hex cell lies in the hexagon of radius `r` about the origin.
pub open spec fn in_hexagon(c: Hex, r: int) -> bool {
    -r <= c.q <= r && -r <= c.r <= r && -r <= c.q + c.r <= r
}

/// The cells of a disc, row by row.
fn disc_list(radius: i32) -> (v: Vec<Sq>)
    requires
        0 <= radius <= 2047,
    ensures
        forall|i: int, j: int| 0 <= i < j < v@.len() ==> row_before(#[trigger] v@[i], #[trigger] v@[j]),
        forall|c: Sq| v@.contains(c) <==> in_disc(c, radius as int),
        v@.len() <= (2 * radius + 1) * (2 * radius + 1),
{
    assert(0 <= (radius as i64) * (radius as i64) <= 2048 * 2048) by (nonlinear_arith)
        requires
            0 <= radius <= 2047,
    ;
    let r2: i64 = (radius as i64) * (radius as i64);
    let mut v: Vec<Sq> = Vec::new();
    let mut y: i32 = -radius;
    while y <= radius
        invariant
            0 <= radius <= 2047,
            r2 == radius * radius,
            -radius <= y <= radius + 1,
            forall|i: int, j: int| 0 <= i < j < v@.len() ==> row_before(#[trigger] v@[i], #[trigger] v@[j]),
            forall|c: Sq| v@.contains(c) <==> in_disc(c, radius as int) && c.y < y,
            forall|i: int| 0 <= i < v@.len() ==> (#[trigger] v@[i]).y < y,
            v@.len() <= (y + radius) * (2 * radius + 1),
        decreases radius + 1 - y,
    {
        assert(0 <= (y as i64) * (y as i64) <= 2048 * 2048) by (nonlinear_arith)
            requires
                -2047 <= y <= 2047,
        ;
        let yy: i64 = (y as i64) * (y as i64);
        let mut x: i32 = -radius;
        while x <= radius
            invariant
                0 <= radius <= 2047,
                r2 == radius * radius,
                -radius <= y <= radius,
                yy == y * y,
                0 <= yy <= 2048 * 2048,
                -radius <= x <= radius + 1,
                forall|i: int, j: int| 0 <= i < j < v@.len() ==> row_before(#[trigger] v@[i], #[trigger] v@[j]),
                forall|c: Sq| v@.contains(c) <==> in_disc(c, radius as int) && row_before(c, Sq { x, y }),
                forall|i: int| 0 <= i < v@.len() ==> row_before(#[trigger] v@[i], Sq { x, y }),
                v@.len() <= (y + radius) * (2 * radius + 1) + (x + radius),
            decreases radius + 1 - x,
        {
            assert(0 <= (x as i64) * (x as i64) <= 2048 * 2048) by (nonlinear_arith)
                requires
                    -2047 <= x <= 2047,
            ;
            let xx: i64 = (x as i64) * (x as i64);
            let ghost old_v = v@;
            if xx + yy <= r2 {
                v.push(Sq::new(x, y));
                proof {
                    assert forall|i: int, j: int| 0 <= i < j < v@.len() implies row_before(#[trigger] v@[i], #[trigger] v@[j]) by {
                        if j == v@.len() - 1 {
                            assert(v@[i] == old_v[i]);
                        } else {
                            assert(row_before(old_v[i], old_v[j]));
                        }
                    }
                    assert forall|c: Sq| v@.contains(c) <==> in_disc(c, radius as int) && row_before(c, Sq { x: (x + 1) as i32, y }) by {
                        if v@.contains(c) && c != (Sq { x, y }) {
                            let i = v@.index_of(c);
                            assert(old_v[i] == c);
                            assert(old_v.contains(c));
                        }
                        if in_disc(c, radius as int) && row_before(c, Sq { x: (x + 1) as i32, y }) {
                            if c == (Sq { x, y }) {
                                assert(v@[old_v.len() as int] == c);
                            } else {
                                assert(old_v.contains(c));
                                let i = old_v.index_of(c);
                                assert(v@[i] == c);
                            }
                        }
                    }
                }
            } else {
                proof {
                    assert forall|c: Sq| v@.contains(c) <==> in_disc(c, radius as int) && row_before(c, Sq { x: (x + 1) as i32, y }) by {
                        if c == (Sq { x, y }) {
                            assert(!in_disc(c, radius as int));
                        }
                    }
                }
            }
            x = x + 1;
        }
        proof {
            assert forall|c: Sq| v@.contains(c) <==> in_disc(c, radius as int) && c.y < y + 1 by {
                if in_disc(c, radius as int) && c.y < y + 1 {
                    assert(row_before(c, Sq { x, y }));
                }
            }
            assert(v@.len() <= (y + 1 + radius) * (2 * radius + 1)) by (nonlinear_arith)
                requires
                    v@.len() <= (y + radius) * (2 * radius + 1) + (x + radius),
                    x == radius + 1,
            ;
        }
        y = y + 1;
    }
    proof {
        assert forall|c: Sq| v@.contains(c) <==> in_disc(c, radius as int) by {
        }
    }
    v
}

impl FullGrid<Sq> {
    /// Fallibly build a disc of square cells centred on the origin: every cell with
    /// `x² + y² <= radius²`, row by row with `y` ascending.
    ///
    /// The bound on the size is the disc's *bounding box*, not the disc, so it is conservative:
    /// the exact count has no closed form to guard with.
    pub fn try_disc(radius: i32, adj: Adjacency) -> (r: Result<Self, GridError>)
        ensures
            radius < 0 ==> r == Err::<Self, GridError>(GridError::InvalidRadius { radius }),
            radius >= 0 && (2 * radius + 1) * (2 * radius + 1) > MAX_CELLS ==> r == Err::<Self, GridError>(
                GridError::TooManyCells { cells: ((2 * radius + 1) * (2 * radius + 1)) as u64 },
            ),
            radius >= 0 && (2 * radius + 1) * (2 * radius + 1) <= MAX_CELLS ==> match r {
                Ok(g) => {
                    &&& g.wf()
                    &&& (forall|i: int, j: int|
                        0 <= i < j < g.model().cells.len() ==> row_before(#[trigger] g.model().cells[i], #[trigger] g.model().cells[j]))
                    &&& (forall|c: Sq| g.model().cells.contains(c) <==> in_disc(c, radius as int))
                    &&& g.model().dirs == adj_dirs(adj)
                    &&& g.model().metric == adj_metric(adj)
                },
                Err(_) => false,
            },
    {
        if radius < 0 {
            return Err(GridError::InvalidRadius { radius });
        }
        let side: u64 = 2 * (radius as u64) + 1;
        assert(side * side <= 0xffff_ffff * 0xffff_ffff) by (nonlinear_arith)
            requires
                side <= 0xffff_ffff,
        ;
        let count: u64 = side * side;
        if count > MAX_CELLS {
            return Err(GridError::TooManyCells { cells: count });
        }
        assert(radius <= 2047) by (nonlinear_arith)
            requires
                side == 2 * radius + 1,
                side * side <= MAX_CELLS,
                radius >= 0,
        ;
        let cells = disc_list(radius);
        let dirs = dirs_of(adj);
        proof {
            lemma_sorted_distinct(cells@, |a: Sq, b: Sq| row_before(a, b));
            lemma_dedup_distinct(cells@);
            assert forall|i: int| 0 <= i < cells@.len() implies modest_sq(#[trigger] cells@[i]) by {
                assert(cells@.contains(cells@[i]));
                assert(in_disc(cells@[i], radius as int));
                assert(radius <= 2047);
            }
            lemma_sq_sound(cells@, adj);
            assert(cells@.len() <= MAX_CELLS);
        }
        Self::try_new(cells, dirs.as_slice(), metric_of(adj))
    }

    /// A disc of square cells centred on the origin, for a radius known to be sane.
    pub fn disc(radius: i32, adj: Adjacency) -> (g: Self)
        requires
            radius >= 0,
            (2 * radius + 1) * (2 * radius + 1) <= MAX_CELLS,
        ensures
            g.wf(),
            forall|i: int, j: int|
                0 <= i < j < g.model().cells.len() ==> row_before(#[trigger] g.model().cells[i], #[trigger] g.model().cells[j]),
            forall|c: Sq| g.model().cells.contains(c) <==> in_disc(c, radius as int),
            g.model().dirs == adj_dirs(adj),
            g.model().metric == adj_metric(adj),
    {
        match Self::try_disc(radius, adj) {
            Ok(g) => g,
            Err(_) => vstd::pervasive::unreached(),
        }
    }
}

/// The cells of a hexagon, column by column.
fn hexagon_list(radius: i32) -> (v: Vec<Hex>)
    requires
        0 <= radius <= 4096,
    ensures
        forall|i: int, j: int| 0 <= i < j < v@.len() ==> hex_before(#[trigger] v@[i], #[trigger] v@[j]),
        forall|c: Hex| v@.contains(c) <==> in_hexagon(c, radius as int),
        v@.len() == 3 * radius * (radius + 1) + 1,
{
    let mut v: Vec<Hex> = Vec::new();
    let mut q: i32 = -radius;
    while q <= radius
        invariant
            0 <= radius <= 4096,
            -radius <= q <= radius + 1,
            forall|i: int, j: int| 0 <= i < j < v@.len() ==> hex_before(#[trigger] v@[i], #[trigger] v@[j]),
            forall|c: Hex| v@.contains(c) <==> in_hexagon(c, radius as int) && c.q < q,
            forall|i: int| 0 <= i < v@.len() ==> (#[trigger] v@[i]).q < q,
            v@.len() == hex_prefix(radius as int, q + radius),
        decreases radius + 1 - q,
    {
        let lo: i32 = if -radius > -q - radius { -radius } else { -q - radius };
        let hi: i32 = if radius < -q + radius { radius } else { -q + radius };
        let mut r: i32 = lo;
        while r <= hi
            invariant
                0 <= radius <= 4096,
                -radius <= q <= radius,
                lo == (if -radius > -q - radius { -radius as int } else { -q - radius }),
                hi == (if radius < -q + radius { radius as int } else { -q + radius }),
                lo <= r <= hi + 1,
                forall|i: int, j: int| 0 <= i < j < v@.len() ==> hex_before(#[trigger] v@[i], #[trigger] v@[j]),
                forall|c: Hex| v@.contains(c) <==> in_hexagon(c, radius as int) && hex_before(c, Hex { q, r }),
                forall|i: int| 0 <= i < v@.len() ==> hex_before(#[trigger] v@[i], Hex { q, r }),
                v@.len() == hex_prefix(radius as int, q + radius) + (r - lo),
            decreases hi + 1 - r,
        {
            let ghost old_v = v@;
            v.push(Hex::new(q, r));
            proof {
                assert forall|i: int, j: int| 0 <= i < j < v@.len() implies hex_before(#[trigger] v@[i], #[trigger] v@[j]) by {
                    if j == v@.len() - 1 {
                        assert(v@[i] == old_v[i]);
                    } else {
                        assert(hex_before(old_v[i], old_v[j]));
                    }
                }
                assert forall|c: Hex| v@.contains(c) <==> in_hexagon(c, radius as int) && hex_before(c, Hex { q, r: (r + 1) as i32 }) by {
                    if v@.contains(c) && c != (Hex { q, r }) {
                        let i = v@.index_of(c);
                        assert(old_v[i] == c);
                        assert(old_v.contains(c));
                    }
                    if in_hexagon(c, radius as int) && hex_before(c, Hex { q, r: (r + 1) as i32 }) {
                        if c == (Hex { q, r }) {
                            assert(v@[old_v.len() as int] == c);
                        } else {
                            assert(old_v.contains(c));
                            let i = old_v.index_of(c);
                            assert(v@[i] == c);
                        }
                    }
                }
            }
            r = r + 1;
        }
        proof {
            assert(hex_prefix(radius as int, q + radius + 1) == hex_prefix(radius as int, q + radius) + (2 * radius + 1 - iabs(q as int)));
            assert(v@.len() == hex_prefix(radius as int, q + 1 + radius));
            assert forall|c: Hex| v@.contains(c) <==> in_hexagon(c, radius as int) && c.q < q + 1 by {
                if in_hexagon(c, radius as int) && c.q < q + 1 {
                    assert(hex_before(c, Hex { q, r }));
                }
            }
        }
        q = q + 1;
    }
    proof {
        assert forall|c: Hex| v@.contains(c) <==> in_hexagon(c, radius as int) by {
        }
        lemma_hex_count(radius as int);
    }
    v
}

impl FullGrid<Hex> {
    /// Fallibly build a hexagon of hex cells with the given radius: `radius = 0` is one cell, `1`
    /// is seven. Cells come column by column, `q` ascending and then `r` ascending.
    pub fn try_hexagon(radius: i32) -> (r: Result<Self, GridError>)
        ensures
            radius < 0 ==> r == Err::<Self, GridError>(GridError::InvalidRadius { radius }),
            radius >= 0 && 3 * radius * (radius + 1) + 1 > MAX_CELLS ==> r == Err::<Self, GridError>(
                GridError::TooManyCells { cells: (3 * radius * (radius + 1) + 1) as u64 },
            ),
            radius >= 0 && 3 * radius * (radius + 1) + 1 <= MAX_CELLS ==> match r {
                Ok(g) => {
                    &&& g.wf()
                    &&& (forall|i: int, j: int|
                        0 <= i < j < g.model().cells.len() ==> hex_before(#[trigger] g.model().cells[i], #[trigger] g.model().cells[j]))
                    &&& (forall|c: Hex| g.model().cells.contains(c) <==> in_hexagon(c, radius as int))
                    &&& g.model().dirs == hex_dirs()
                    &&& g.model().metric == Metric::Hex
                },
                Err(_) => false,
            },
    {
        if radius < 0 {
            return Err(GridError::InvalidRadius { radius });
        }
        let rr: u64 = radius as u64;
        assert(3 * rr * (rr + 1) + 1 <= 3 * 0x8000_0000 * 0x8000_0001 + 1) by (nonlinear_arith)
            requires
                rr <= 0x7fff_ffff,
        ;
        let count: u64 = 3 * rr * (rr + 1) + 1;
        if count > MAX_CELLS {
            return Err(GridError::TooManyCells { cells: count });
        }
        assert(radius <= 4096) by (nonlinear_arith)
            requires
                count == 3 * rr * (rr + 1) + 1,
                count <= MAX_CELLS,
                rr == radius,
                radius >= 0,
        ;
        let cells = hexagon_list(radius);
        let dirs = hex_dir_list();
        proof {
            lemma_sorted_distinct(cells@, |a: Hex, b: Hex| hex_before(a, b));
            lemma_dedup_distinct(cells@);
            assert forall|i: int| 0 <= i < cells@.len() implies modest_hex(#[trigger] cells@[i]) by {
                assert(cells@.contains(cells@[i]));
                assert(in_hexagon(cells@[i], radius as int));
            }
            lemma_hex_sound(cells@);
        }
        Self::try_new(cells, dirs.as_slice(), Metric::Hex)
    }

    /// A hexagon of hex cells, for a radius known to be sane.
    pub fn hexagon(radius: i32) -> (g: Self)
        requires
            radius >= 0,
            3 * radius * (radius + 1) + 1 <= MAX_CELLS,
        ensures
            g.wf(),
            forall|i: int, j: int|
                0 <= i < j < g.model().cells.len() ==> hex_before(#[trigger] g.model().cells[i], #[trigger] g.model().cells[j]),
            forall|c: Hex| g.model().cells.contains(c) <==> in_hexagon(c, radius as int),
            g.model().dirs == hex_dirs(),
            g.model().metric == Metric::Hex,
    {
        match Self::try_hexagon(radius) {
            Ok(g) => g,
            Err(_) => vstd::pervasive::unreached(),
        }
    }
}

/// The cells of a `w × h` hex tilemap under an offset convention, in the tilemap's row-major
/// order: tile `(col, row)` is cell `o.to_hex(col, row)`.
pub open spec fn hex_rect_cells(w: int, h: int, o: Offset) -> Seq<Hex> {
    rect_cells(w, h).map_values(|c: Sq| o.spec_to_hex(c.x, c.y))
}

/// The cells of a hex tilemap, row by row.
fn hex_rect_list(w: i32, h: i32, o: Offset) -> (v: Vec<Hex>)
    requires
        w >= 0,
        h >= 0,
        w * h <= MAX_CELLS,
    ensures
        v@ == hex_rect_cells(w as int, h as int, o),
        v@.no_duplicates(),
        forall|i: int| 0 <= i < v@.len() ==> modest_hex(#[trigger] v@[i]),
{
    let tiles = rect_list(w, h);
    let mut v: Vec<Hex> = Vec::new();
    let mut k: usize = 0;
    while k < tiles.len()
        invariant
            k <= tiles@.len(),
            v@.len() == k,
            forall|j: int| 0 <= j < k ==> #[trigger] v@[j] == o.spec_to_hex(tiles@[j].x, tiles@[j].y),
        decreases tiles@.len() - k,
    {
        v.push(o.to_hex(tiles[k].x, tiles[k].y));
        k = k + 1;
    }
    proof {
        lemma_rect_cells(w as int, h as int);
        assert(v@ =~= hex_rect_cells(w as int, h as int, o));
        assert forall|i: int| 0 <= i < v@.len() implies modest_hex(#[trigger] v@[i]) by {
            assert(in_rect(w as int, h as int, tiles@[i]));
            assert(w <= MAX_CELLS && h <= MAX_CELLS) by (nonlinear_arith)
                requires
                    0 <= i < w * h,
                    w * h <= MAX_CELLS,
                    w >= 0,
                    h >= 0,
            ;
            lemma_small_tile(o, tiles@[i].x, tiles@[i].y);
        }
        assert forall|a: int, b: int| 0 <= a < v@.len() && 0 <= b < v@.len() && a != b implies v@[a] != v@[b] by {
            assert(in_rect(w as int, h as int, tiles@[a]) && in_rect(w as int, h as int, tiles@[b]));
            assert(w <= MAX_CELLS && h <= MAX_CELLS) by (nonlinear_arith)
                requires
                    0 <= a < w * h,
                    w * h <= MAX_CELLS,
                    w >= 0,
                    h >= 0,
            ;
            lemma_small_tile(o, tiles@[a].x, tiles@[a].y);
            lemma_small_tile(o, tiles@[b].x, tiles@[b].y);
            lemma_tile_round_trip(o, tiles@[a].x, tiles@[a].y);
            lemma_tile_round_trip(o, tiles@[b].x, tiles@[b].y);
            assert(tiles@[a] != tiles@[b]);
        }
    }
    v
}

impl FullGrid<Hex> {
    /// Fallibly build a rectangular field of hex cells: the board a tile editor's `w × h` hex map
    /// stores, under its staggering convention. Cell `(col, row)` of the file is
    /// `offset.to_hex(col, row)` here.
    pub fn try_hex_rect(w: i32, h: i32, offset: Offset) -> (r: Result<Self, GridError>)
        ensures
            w < 0 || h < 0 ==> r == Err::<Self, GridError>(GridError::InvalidDimensions { w, h }),
            w >= 0 && h >= 0 && w * h > MAX_CELLS ==> r == Err::<Self, GridError>(
                GridError::TooManyCells { cells: (w * h) as u64 },
            ),
            w >= 0 && h >= 0 && w * h <= MAX_CELLS ==> match r {
                Ok(g) => {
                    &&& g.wf()
                    &&& g.model().cells == hex_rect_cells(w as int, h as int, offset)
                    &&& g.model().dirs == hex_dirs()
                    &&& g.model().metric == Metric::Hex
                },
                Err(_) => false,
            },
    {
        if w < 0 || h < 0 {
            return Err(GridError::InvalidDimensions { w, h });
        }
        assert((w as u64) * (h as u64) <= 0x7fff_ffff * 0x7fff_ffff) by (nonlinear_arith)
            requires
                0 <= w <= 0x7fff_ffff,
                0 <= h <= 0x7fff_ffff,
        ;
        let count: u64 = (w as u64) * (h as u64);
        if count > MAX_CELLS {
            return Err(GridError::TooManyCells { cells: count });
        }
        let cells = hex_rect_list(w, h, offset);
        let dirs = hex_dir_list();
        proof {
            lemma_dedup_distinct(cells@);
            lemma_hex_sound(cells@);
            lemma_rect_cells(w as int, h as int);
        }
        Self::try_new(cells, dirs.as_slice(), Metric::Hex)
    }

    /// A rectangular field of hex cells, for dimensions known to be sane.
    pub fn hex_rect(w: i32, h: i32, offset: Offset) -> (g: Self)
        requires
            w >= 0,
            h >= 0,
            w * h <= MAX_CELLS,
        ensures
            g.wf(),
            g.model().cells == hex_rect_cells(w as int, h as int, offset),
            g.model().dirs == hex_dirs(),
            g.model().metric == Metric::Hex,
    {
        match Self::try_hex_rect(w, h, offset) {
            Ok(g) => g,
            Err(_) => vstd::pervasive::unreached(),
        }
    }
}

/// How many cells the first `a` columns of a hexagon of radius `r` hold.
pub open spec fn hex_prefix(r: int, a: int) -> int
    decreases a,
{
    if a <= 0 {
        0
    } else {
        hex_prefix(r, a - 1) + (2 * r + 1 - iabs(a - 1 - r))
    }
}

proof fn lemma_hex_prefix_rising(r: int, a: int)
    requires
        0 <= a <= r + 1,
    ensures
        2 * hex_prefix(r, a) == 2 * a * (r + 1) + a * (a - 1),
    decreases a,
{
    if a > 0 {
        lemma_hex_prefix_rising(r, a - 1);
        assert(iabs(a - 1 - r) == r + 1 - a);
        let p = hex_prefix(r, a);
        let q = hex_prefix(r, a - 1);
        assert(p == q + (r + a));
        assert(2 * p == 2 * a * (r + 1) + a * (a - 1)) by (nonlinear_arith)
            requires
                p == q + (r + a),
                2 * q == 2 * (a - 1) * (r + 1) + (a - 1) * (a - 1 - 1),
        ;
    } else {
        assert(2 * a * (r + 1) + a * (a - 1) == 0) by (nonlinear_arith)
            requires
                a == 0,
        ;
    }
}

proof fn lemma_hex_prefix_falling(r: int, b: int)
    requires
        r >= 0,
        0 <= b <= r,
    ensures
        2 * hex_prefix(r, r + 1 + b) == 2 * hex_prefix(r, r + 1) + 4 * r * b - b * (b - 1),
    decreases b,
{
    if b > 0 {
        lemma_hex_prefix_falling(r, b - 1);
        assert(iabs(r + 1 + b - 1 - r) == b);
        let p = hex_prefix(r, r + 1 + b);
        let q = hex_prefix(r, r + 1 + (b - 1));
        let z = hex_prefix(r, r + 1);
        assert(p == q + (2 * r + 1 - b));
        assert(2 * p == 2 * z + 4 * r * b - b * (b - 1)) by (nonlinear_arith)
            requires
                p == q + (2 * r + 1 - b),
                2 * q == 2 * z + 4 * r * (b - 1) - (b - 1) * (b - 1 - 1),
        ;
    } else {
        assert(4 * r * b - b * (b - 1) == 0) by (nonlinear_arith)
            requires
                b == 0,
        ;
    }
}

/// A hexagon of radius `r` holds `3r(r + 1) + 1` cells.
proof fn lemma_hex_count(r: int)
    requires
        r >= 0,
    ensures
        hex_prefix(r, 2 * r + 1) == 3 * r * (r + 1) + 1,
{
    lemma_hex_prefix_rising(r, r + 1);
    lemma_hex_prefix_falling(r, r);
    assert(2 * (r + 1) * (r + 1) + (r + 1) * r + 4 * r * r - r * (r - 1) == 2 * (3 * r * (r + 1) + 1)) by (nonlinear_arith);
}

} // verus!
