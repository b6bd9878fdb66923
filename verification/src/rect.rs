//! A full rectangle of square cells, computed rather than stored.
//!
//! [`FullGrid`](crate::FullGrid) holds any set of cells, so it must store the cells and the index
//! of each. On a full `w × h` rectangle every answer is arithmetic: the index is `y * w + x`, the
//! coordinate is a divmod, a step is a coordinate add and a bounds check, and a predecessor is the
//! same step the other way. [`RectGrid`] does that arithmetic and stores three numbers.
//!
//! It is the board `FullGrid::square(w, h, adj)` builds, model for model: the same cells in the
//! same order, the same steps both ways, the same metric.

use vstd::prelude::*;
use vstd::arithmetic::div_mod::{lemma_fundamental_div_mod, lemma_fundamental_div_mod_converse};
use crate::coord::{Coord, Dir8, Idx, Metric, Sq, dir8_offset, dir8_opposite, idx};
use crate::full::{Adjacency, MAX_CELLS, adj_dirs, adj_metric, lemma_full_laws, lemma_sq_sound, modest_sq, rect_cells, square_model};
use crate::grid::{Grid, Model, RootGrid, max_cells};
use crate::tag::Tag;

verus! {

broadcast use crate::coord::group_idx;

/// A `w × h` rectangle of square cells, in row-major order, with no derived geometry stored.
///
/// The adjacency picks the metric to match it, exactly as
/// [`FullGrid::square`](crate::FullGrid::square) does.
///
/// [`in_neighbors`](Grid::in_neighbors) is computed rather than inverted: the cell that steps into
/// `i` heading `d` is the cell `i` reaches heading the opposite way, because every step here is a
/// coordinate add and the rectangle has no portals, ledges or wrapping edges.
#[derive(Debug, Clone, Copy, PartialEq, Eq)]
pub struct RectGrid {
    w: i32,
    h: i32,
    adj: Adjacency,
    tag: Tag,
}

/// A cell of the rectangle, by its coordinates.
pub open spec fn in_rect(w: int, h: int, c: Sq) -> bool {
    0 <= c.x < w && 0 <= c.y < h
}

/// The cell at row-major position `y * w + x` of a rectangle is `(x, y)`.
proof fn lemma_rect_at(w: int, h: int, x: int, y: int)
    requires
        0 <= x < w,
        0 <= y < h,
    ensures
        0 <= y * w + x < w * h,
        rect_cells(w, h)[y * w + x] == (Sq { x: x as i32, y: y as i32 }),
{
    lemma_fundamental_div_mod_converse(y * w + x, w, y, x);
    assert(y * w + x < w * h) by (nonlinear_arith)
        requires
            0 <= x < w,
            0 <= y < h,
    ;
}

/// Every cell of a rectangle lies inside it, and no cell appears twice.
pub(crate) proof fn lemma_rect_cells(w: int, h: int)
    requires
        0 <= w,
        0 <= h,
        w * h <= MAX_CELLS,
    ensures
        forall|k: int| 0 <= k < w * h ==> in_rect(w, h, #[trigger] rect_cells(w, h)[k]),
        forall|k: int| 0 <= k < w * h ==> modest_sq(#[trigger] rect_cells(w, h)[k]),
        rect_cells(w, h).no_duplicates(),
        rect_cells(w, h).len() == w * h,
{
    let s = rect_cells(w, h);
    assert forall|k: int| 0 <= k < w * h implies in_rect(w, h, #[trigger] s[k]) && modest_sq(s[k]) by {
        assert(w > 0) by (nonlinear_arith)
            requires
                0 <= k < w * h,
                0 <= w,
                0 <= h,
        ;
        assert(k / w < h) by (nonlinear_arith)
            requires
                0 <= k < w * h,
                w > 0,
        ;
        assert(w <= w * h && h <= w * h) by (nonlinear_arith)
            requires
                0 <= k < w * h,
                w > 0,
                h >= 0,
        ;
        assert(0 <= k / w);
        assert(0 <= k % w < w);
    }
    assert forall|a: int, b: int| 0 <= a < s.len() && 0 <= b < s.len() && a != b implies s[a] != s[b] by {
        assert(w > 0) by (nonlinear_arith)
            requires
                0 <= a < w * h,
                0 <= w,
                0 <= h,
        ;
        if s[a] == s[b] {
            assert(w <= w * h && h <= w * h) by (nonlinear_arith)
                requires
                    0 <= a < w * h,
                    w > 0,
                    h >= 0,
            ;
            assert(a / w < h && b / w < h) by (nonlinear_arith)
                requires
                    0 <= a < w * h,
                    0 <= b < w * h,
                    w > 0,
            ;
            assert((a % w) as i32 == a % w && (b % w) as i32 == b % w);
            assert((a / w) as i32 == a / w && (b / w) as i32 == b / w);
            assert(a % w == b % w && a / w == b / w);
            lemma_fundamental_div_mod(a, w);
            lemma_fundamental_div_mod(b, w);
        }
    }
}

/// Where a coordinate sits in a rectangle, as the model of the board numbers it.
proof fn lemma_rect_index(w: int, h: int, c: Sq)
    requires
        0 <= w,
        0 <= h,
        w * h <= MAX_CELLS,
    ensures
        in_rect(w, h, c) <==> rect_cells(w, h).contains(c),
        in_rect(w, h, c) ==> rect_cells(w, h).index_of(c) == c.y * w + c.x,
{
    lemma_rect_cells(w, h);
    let s = rect_cells(w, h);
    if in_rect(w, h, c) {
        lemma_rect_at(w, h, c.x as int, c.y as int);
        let k = c.y * w + c.x;
        assert(s[k] == c);
        assert(s.contains(c));
        let q = s.index_of(c);
        if q != k {
            assert(s[q] == s[k]);
        }
    } else if s.contains(c) {
        let q = s.index_of(c);
        assert(in_rect(w, h, s[q]));
    }
}

/// A step of a cell well inside `i32` moves it, and the step back undoes it.
proof fn lemma_sq_step(c: Sq, d: Dir8)
    requires
        modest_sq(c),
    ensures
        c.spec_step(d) != c,
        c.spec_step(d) == (Sq { x: (c.x + dir8_offset(d).0) as i32, y: (c.y + dir8_offset(d).1) as i32 }),
        crate::full::source_spec(c, d) == c.spec_step(dir8_opposite(d)),
        c.spec_step(dir8_opposite(d)).spec_step(d) == c,
{
    let origin = c.spec_minus(c);
    assert(origin == Sq { x: 0, y: 0 });
    assert(origin.spec_step(d).spec_minus(origin) == Sq { x: dir8_offset(d).0 as i32, y: dir8_offset(d).1 as i32 });
}

impl RectGrid {
    /// A computed rectangle answers exactly as a stored one does: a rectangle and a board built by
    /// [`FullGrid::square`](crate::FullGrid::square) with the same width, height and adjacency
    /// have one model, cell for cell and step for step, and both number their cells as their
    /// own roots.
    pub proof fn lemma_same_as_stored(&self, f: &crate::FullGrid<Sq>)
        requires
            self.wf(),
            f.wf(),
            f.model() == square_model(self.spec_shape().0, self.spec_shape().1, self.spec_shape().2),
        ensures
            self.model() == f.model(),
            forall|i: int| #[trigger] self.spec_to_root(i) == f.spec_to_root(i),
    {
        f.lemma_numbers_itself();
    }

    /// The rectangle's dimensions and adjacency.
    pub closed spec fn spec_shape(self) -> (int, int, Adjacency) {
        (self.w as int, self.h as int, self.adj)
    }

    /// A `w × h` rectangle of square cells, in row-major order.
    ///
    /// The same board as [`FullGrid::square`](crate::FullGrid::square) with these arguments.
    pub fn new(w: i32, h: i32, adj: Adjacency) -> (g: Self)
        requires
            w >= 0,
            h >= 0,
            w * h <= MAX_CELLS,
        ensures
            g.wf(),
            g.spec_shape() == (w as int, h as int, adj),
            g.model() == square_model(w as int, h as int, adj),
    {
        let g = RectGrid { w, h, adj, tag: Tag::any() };
        proof {
            g.lemma_grid();
        }
        g
    }

    /// This rectangle's directions.
    fn dir_list(&self) -> (r: &[Dir8])
        ensures
            r@ == adj_dirs(self.adj),
    {
        match self.adj {
            Adjacency::Four => {
                let r: &[Dir8] = &Dir8::ORTHO;
                proof {
                    assert(r@ =~= adj_dirs(self.adj));
                }
                r
            },
            Adjacency::Eight => {
                let r: &[Dir8] = &Dir8::ALL;
                proof {
                    assert(r@ =~= adj_dirs(self.adj));
                }
                r
            },
        }
    }

    /// Whether this rectangle steps in direction `d`.
    fn steps_in(&self, d: Dir8) -> (b: bool)
        ensures
            b == adj_dirs(self.adj).contains(d),
    {
        match self.adj {
            Adjacency::Four => {
                let b = match d {
                    Dir8::N | Dir8::E | Dir8::S | Dir8::W => true,
                    _ => false,
                };
                proof {
                    let s = adj_dirs(self.adj);
                    if b {
                        assert(s[0] == d || s[1] == d || s[2] == d || s[3] == d);
                    }
                }
                b
            },
            Adjacency::Eight => {
                proof {
                    let s = adj_dirs(self.adj);
                    assert(s[0] == d || s[1] == d || s[2] == d || s[3] == d || s[4] == d || s[5] == d || s[6] == d || s[7] == d);
                }
                true
            },
        }
    }

    /// The index of a coordinate of the rectangle, or `None` outside it.
    fn place(&self, c: Sq) -> (r: Option<Idx>)
        requires
            self.wf(),
        ensures
            r == self.model().index_of(c),
    {
        proof {
            lemma_rect_index(self.w as int, self.h as int, c);
        }
        if 0 <= c.x && c.x < self.w && 0 <= c.y && c.y < self.h {
            proof {
                lemma_rect_at(self.w as int, self.h as int, c.x as int, c.y as int);
            }
            Some(Idx::new(self.tag, (c.y * self.w + c.x) as u32))
        } else {
            None
        }
    }
}

impl Grid for RectGrid {
    type Cell = Sq;
    type Root = RectGrid;

    closed spec fn wf(&self) -> bool {
        &&& self.w >= 0
        &&& self.h >= 0
        &&& self.w * self.h <= MAX_CELLS
    }

    closed spec fn model(&self) -> Model<Sq> {
        square_model(self.w as int, self.h as int, self.adj)
    }

    closed spec fn spec_root(&self) -> RectGrid {
        *self
    }

    closed spec fn spec_to_root(&self, i: int) -> int {
        i
    }

    proof fn lemma_grid(&self) {
        let (w, h) = (self.w as int, self.h as int);
        lemma_rect_cells(w, h);
        lemma_sq_sound(rect_cells(w, h), self.adj);
        lemma_full_laws(rect_cells(w, h), adj_dirs(self.adj), adj_metric(self.adj));
        assert(self.model().laws());
        assert(self.spec_root() == *self);
        assert(self.spec_root().whole_wf() == self.wf());
        assert(self.spec_root().whole() == self.model());
        assert forall|i: int| 0 <= i < self.model().len() implies 0 <= #[trigger] self.spec_to_root(i) < self.spec_root().whole().len()
            && self.spec_root().whole().cells[self.spec_to_root(i)] == self.model().cells[i] by {
        }
        assert forall|i: int, j: int| 0 <= i < j < self.model().len() implies #[trigger] self.spec_to_root(i) < #[trigger] self.spec_to_root(j) by {
        }
    }

    fn tag(&self) -> (t: Tag) {
        self.tag
    }

    fn len(&self) -> (r: usize) {
        (self.w as usize) * (self.h as usize)
    }

    fn coord(&self, i: Idx) -> (c: Sq) {
        let k = i.raw() as i32;
        proof {
            assert(self.w > 0) by (nonlinear_arith)
                requires
                    0 <= k < self.w * self.h,
                    self.w >= 0,
                    self.h >= 0,
            ;
        }
        Sq::new(k % self.w, k / self.w)
    }

    fn index_of(&self, c: Sq) -> (r: Option<Idx>) {
        self.place(c)
    }

    fn dirs(&self) -> (r: &[Dir8]) {
        self.dir_list()
    }

    fn step(&self, i: Idx, d: Dir8) -> (r: Option<Idx>) {
        proof {
            lemma_rect_cells(self.w as int, self.h as int);
        }
        if !self.steps_in(d) {
            return None;
        }
        let c = self.coord(i);
        proof {
            lemma_sq_step(c, d);
            lemma_rect_index(self.w as int, self.h as int, c.spec_step(d));
        }
        self.place(c.step(d))
    }

    fn back(&self, j: Idx, d: Dir8) -> (r: Option<Idx>) {
        proof {
            lemma_rect_cells(self.w as int, self.h as int);
        }
        if !self.steps_in(d) {
            return None;
        }
        let c = self.coord(j);
        let from = c.step(d.opposite());
        proof {
            lemma_sq_step(c, d);
            lemma_rect_index(self.w as int, self.h as int, from);
        }
        self.place(from)
    }

    fn metric(&self) -> (m: Metric) {
        match self.adj {
            Adjacency::Four => Metric::Manhattan,
            Adjacency::Eight => Metric::Chebyshev,
        }
    }

    fn root(&self) -> (r: &RectGrid) {
        self
    }

    fn to_root(&self, i: Idx) -> (r: Idx) {
        i
    }

    fn of_root(&self, i: Idx) -> (r: Option<Idx>) {
        if (i.raw() as usize) < self.len() {
            Some(i)
        } else {
            None
        }
    }
}

impl RootGrid for RectGrid {
    type Cell = Sq;

    closed spec fn whole_wf(&self) -> bool {
        self.wf()
    }

    closed spec fn whole(&self) -> Model<Sq> {
        self.model()
    }

    proof fn lemma_whole(&self) {
        self.lemma_grid();
    }

    fn whole_count(&self) -> (r: usize) {
        self.len()
    }

    fn whole_coord_at(&self, i: u32) -> (c: Sq) {
        self.coord(Idx::new(self.tag, i))
    }

    fn whole_index_of(&self, c: Sq) -> (r: Option<Idx>) {
        self.place(c)
    }

    fn whole_dir_list(&self) -> (r: &[Dir8]) {
        self.dir_list()
    }

    fn whole_step_at(&self, i: u32, d: Dir8) -> (r: Option<u32>) {
        match self.step(Idx::new(self.tag, i), d) {
            Some(j) => Some(j.raw()),
            None => None,
        }
    }

    fn whole_back_at(&self, j: u32, d: Dir8) -> (r: Option<u32>) {
        match self.back(Idx::new(self.tag, j), d) {
            Some(i) => Some(i.raw()),
            None => None,
        }
    }

    fn whole_metric_of(&self) -> (m: Metric) {
        self.metric()
    }
}

} // verus!
