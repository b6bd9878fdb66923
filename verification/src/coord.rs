//! Cell addresses, and the directions you can leave one by.
//!
//! A [`Coord`] is a cell address *and* a vector: it adds and subtracts. That is what lets a grid
//! express a knight's leap or a checkers jump without knowing what a knight is.
//!
//! Two implementations ship: [`Sq`] (square, eight directions) and [`Hex`] (axial, six).

use vstd::prelude::*;
use crate::tag::Tag;
use vstd::arithmetic::div_mod::lemma_fundamental_div_mod_converse;
use vstd::arithmetic::div_mod::lemma_fundamental_div_mod;

verus! {

// ---------------------------------------------------------------------------------------------
// Integer helpers
// ---------------------------------------------------------------------------------------------

/// How far from the origin a rounded coordinate may land: `2^30 - 1`.
///
/// Half the `i32` range, so that the derived third cube axis of a [`Hex`] stays representable.
pub const LATTICE_LIMIT: i32 = 1073741823;

/// The absolute value of a mathematical integer.
pub open spec fn iabs(x: int) -> int {
    if x < 0 {
        -x
    } else {
        x
    }
}

/// The larger of two mathematical integers.
pub open spec fn imax(a: int, b: int) -> int {
    if a < b {
        b
    } else {
        a
    }
}

/// A distance squeezed into a `u32`: negative values become 0, huge ones `u32::MAX`.
pub open spec fn clamp_u32_spec(d: int) -> u32 {
    if d < 0 {
        0
    } else if d > u32::MAX {
        u32::MAX
    } else {
        d as u32
    }
}

/// An integer squeezed into an `i32`, saturating at either end.
pub open spec fn sat_i32(v: int) -> i32 {
    if v > i32::MAX {
        i32::MAX
    } else if v < i32::MIN {
        i32::MIN
    } else {
        v as i32
    }
}

/// An integer squeezed into the lattice limit, `-LATTICE_LIMIT..=LATTICE_LIMIT`.
pub open spec fn lattice_clamp(v: int) -> i32 {
    if v > LATTICE_LIMIT {
        LATTICE_LIMIT
    } else if v < -LATTICE_LIMIT {
        -LATTICE_LIMIT as i32
    } else {
        v as i32
    }
}

/// Squeeze a widened distance back into the `u32` a metric returns.
pub fn clamp_u32(d: i64) -> (r: u32)
    ensures
        r == clamp_u32_spec(d as int),
{
    if d < 0 {
        0
    } else if d > u32::MAX as i64 {
        u32::MAX
    } else {
        d as u32
    }
}

/// `a + b`, saturating at the ends of `i32`.
pub fn sat_add_i32(a: i32, b: i32) -> (r: i32)
    ensures
        r == sat_i32(a + b),
{
    let s: i64 = a as i64 + b as i64;
    if s > i32::MAX as i64 {
        i32::MAX
    } else if s < i32::MIN as i64 {
        i32::MIN
    } else {
        s as i32
    }
}

/// `a - b`, saturating at the ends of `i32`.
pub fn sat_sub_i32(a: i32, b: i32) -> (r: i32)
    ensures
        r == sat_i32(a - b),
{
    let s: i64 = a as i64 - b as i64;
    if s > i32::MAX as i64 {
        i32::MAX
    } else if s < i32::MIN as i64 {
        i32::MIN
    } else {
        s as i32
    }
}

/// An `i128` brought onto the lattice, clamped so an absurd value cannot wrap.
pub fn clamp_lattice(v: i128) -> (r: i32)
    ensures
        r == lattice_clamp(v as int),
{
    if v > LATTICE_LIMIT as i128 {
        LATTICE_LIMIT
    } else if v < -(LATTICE_LIMIT as i128) {
        -LATTICE_LIMIT
    } else {
        v as i32
    }
}

fn abs_i64(v: i64) -> (r: i64)
    requires
        v > i64::MIN,
    ensures
        r == iabs(v as int),
{
    if v < 0 {
        -v
    } else {
        v
    }
}

// ---------------------------------------------------------------------------------------------
// Indices
// ---------------------------------------------------------------------------------------------

/// A cell's dense index within one board.
///
/// Indices are assigned at construction and are stable for that board's lifetime, but they mean
/// nothing to any *other* board. **Serialize coordinates, never indices.** Equality, ordering and
/// hashing compare the number alone.
#[derive(Debug, Clone, Copy, PartialEq, Eq, Structural, PartialOrd, Ord, Hash)]
pub struct Idx {
    pub(crate) i: u32,
    pub(crate) tag: Tag,
}

/// The index with the given number.
pub closed spec fn idx(i: int) -> Idx {
    Idx { i: i as u32, tag: Tag }
}

impl Idx {
    /// The number, as a mathematical integer.
    pub closed spec fn id(self) -> int {
        self.i as int
    }

    /// Mint an index for a board. Crate-internal: only a board numbers its own cells.
    pub(crate) fn new(tag: Tag, i: u32) -> (r: Idx)
        ensures
            r == idx(i as int),
    {
        Idx { i, tag }
    }

    /// The bare number, for keying a structure of your own.
    pub fn get(self) -> (r: u32)
        ensures
            r == self.id(),
    {
        self.i
    }

    /// The bare number, for indexing the crate's own tables.
    pub(crate) fn raw(self) -> (r: u32)
        ensures
            r == self.id(),
    {
        self.i
    }

    /// The board this index was issued by.
    pub(crate) fn tag(self) -> (t: Tag)
        ensures
            t == Tag,
    {
        self.tag
    }
}

/// An index made from a number carries that number.
pub broadcast proof fn lemma_idx_number(i: int)
    requires
        0 <= i <= u32::MAX,
    ensures
        #[trigger] idx(i).id() == i,
{
}

/// An index is the index of its own number, and its number is a `u32`.
pub broadcast proof fn lemma_idx_of_number(x: Idx)
    ensures
        #[trigger] idx(x.id()) == x,
        0 <= x.id() <= u32::MAX,
{
}

/// An index's number is a `u32`.
pub broadcast proof fn lemma_idx_bounds(x: Idx)
    ensures
        0 <= #[trigger] x.id() <= u32::MAX,
{
}

/// Two indices with the same number are the same index.
pub broadcast proof fn lemma_idx_ext(a: Idx, b: Idx)
    ensures
        (#[trigger] a.id() == #[trigger] b.id()) == (a == b),
{
}

/// The facts that make [`idx`] and [`Idx::id`] usable outside this module.
pub broadcast group group_idx {
    lemma_idx_number,
    lemma_idx_bounds,
    lemma_idx_of_number,
    lemma_idx_ext,
}

// ---------------------------------------------------------------------------------------------
// Square
// ---------------------------------------------------------------------------------------------

/// A square-grid cell. `y` grows downward, as screen coordinates do.
#[derive(Debug, Clone, Copy, PartialEq, Eq, Structural, PartialOrd, Ord, Hash, Default)]
pub struct Sq {
    /// Column, growing east.
    pub x: i32,
    /// Row, growing south.
    pub y: i32,
}

impl Sq {
    /// A square cell at `(x, y)`.
    pub fn new(x: i32, y: i32) -> (r: Sq)
        ensures
            r == (Sq { x, y }),
    {
        Sq { x, y }
    }

    /// `|dx| + |dy|`, clamped to `u32`.
    pub open spec fn spec_manhattan(self, o: Sq) -> u32 {
        clamp_u32_spec(iabs(self.x - o.x) + iabs(self.y - o.y))
    }

    /// `max(|dx|, |dy|)`, clamped to `u32`.
    pub open spec fn spec_chebyshev(self, o: Sq) -> u32 {
        clamp_u32_spec(imax(iabs(self.x - o.x), iabs(self.y - o.y)))
    }

    /// `|dx| + |dy|`. Range 1 is a plus sign, range 2 a diamond. Pairs with four-way movement.
    ///
    /// Computed in `i64` and clamped, so the answer is exact for every pair of coordinates.
    pub fn manhattan(self, o: Sq) -> (d: u32)
        ensures
            d == self.spec_manhattan(o),
    {
        let dx = abs_i64(self.x as i64 - o.x as i64);
        let dy = abs_i64(self.y as i64 - o.y as i64);
        clamp_u32(dx + dy)
    }

    /// `max(|dx|, |dy|)`. Range 1 is the eight surrounding cells. Pairs with eight-way movement.
    pub fn chebyshev(self, o: Sq) -> (d: u32)
        ensures
            d == self.spec_chebyshev(o),
    {
        let dx = abs_i64(self.x as i64 - o.x as i64);
        let dy = abs_i64(self.y as i64 - o.y as i64);
        clamp_u32(if dx < dy {
            dy
        } else {
            dx
        })
    }
}

/// The eight directions out of a square cell, clockwise from north.
#[derive(Debug, Clone, Copy, PartialEq, Eq, Structural, PartialOrd, Ord, Hash)]
pub enum Dir8 {
    /// North: `y - 1`.
    N,
    /// North-east.
    Ne,
    /// East: `x + 1`.
    E,
    /// South-east.
    Se,
    /// South: `y + 1`.
    S,
    /// South-west.
    Sw,
    /// West: `x - 1`.
    W,
    /// North-west.
    Nw,
}

/// The offset one step in a square direction moves by.
pub open spec fn dir8_offset(d: Dir8) -> (int, int) {
    match d {
        Dir8::N => (0, -1),
        Dir8::Ne => (1, -1),
        Dir8::E => (1, 0),
        Dir8::Se => (1, 1),
        Dir8::S => (0, 1),
        Dir8::Sw => (-1, 1),
        Dir8::W => (-1, 0),
        Dir8::Nw => (-1, -1),
    }
}

/// The direction a half turn away.
pub open spec fn dir8_opposite(d: Dir8) -> Dir8 {
    match d {
        Dir8::N => Dir8::S,
        Dir8::Ne => Dir8::Sw,
        Dir8::E => Dir8::W,
        Dir8::Se => Dir8::Nw,
        Dir8::S => Dir8::N,
        Dir8::Sw => Dir8::Ne,
        Dir8::W => Dir8::E,
        Dir8::Nw => Dir8::Se,
    }
}

impl Dir8 {
    /// All eight, clockwise from north.
    pub const ALL: [Dir8; 8] = [
        Dir8::N,
        Dir8::Ne,
        Dir8::E,
        Dir8::Se,
        Dir8::S,
        Dir8::Sw,
        Dir8::W,
        Dir8::Nw,
    ];

    /// The four orthogonals, clockwise from north.
    pub const ORTHO: [Dir8; 4] = [Dir8::N, Dir8::E, Dir8::S, Dir8::W];

    /// The four diagonals, clockwise from north-east.
    pub const DIAG: [Dir8; 4] = [Dir8::Ne, Dir8::Se, Dir8::Sw, Dir8::Nw];

    /// Whether this is a diagonal. A diagonal step covers √2 cells, not 1.
    pub fn is_diagonal(self) -> (b: bool)
        ensures
            b == (self == Dir8::Ne || self == Dir8::Se || self == Dir8::Sw || self == Dir8::Nw),
    {
        match self {
            Dir8::Ne | Dir8::Se | Dir8::Sw | Dir8::Nw => true,
            _ => false,
        }
    }

    /// The two orthogonals a diagonal squeezes between; `None` for an orthogonal.
    ///
    /// Each flank shares a side with the cell the diagonal reaches.
    pub fn flanks(self) -> (r: Option<(Dir8, Dir8)>)
        ensures
            r == match self {
                Dir8::Ne => Some((Dir8::N, Dir8::E)),
                Dir8::Se => Some((Dir8::S, Dir8::E)),
                Dir8::Sw => Some((Dir8::S, Dir8::W)),
                Dir8::Nw => Some((Dir8::N, Dir8::W)),
                _ => None::<(Dir8, Dir8)>,
            },
            r matches Some((a, b)) ==> dir8_offset(a).0 + dir8_offset(b).0 == dir8_offset(
                self,
            ).0 && dir8_offset(a).1 + dir8_offset(b).1 == dir8_offset(self).1,
    {
        match self {
            Dir8::Ne => Some((Dir8::N, Dir8::E)),
            Dir8::Se => Some((Dir8::S, Dir8::E)),
            Dir8::Sw => Some((Dir8::S, Dir8::W)),
            Dir8::Nw => Some((Dir8::N, Dir8::W)),
            _ => None,
        }
    }

    /// The direction facing the other way.
    pub fn opposite(self) -> (r: Dir8)
        ensures
            r == dir8_opposite(self),
            dir8_offset(r).0 == -dir8_offset(self).0,
            dir8_offset(r).1 == -dir8_offset(self).1,
            dir8_opposite(r) == self,
    {
        match self {
            Dir8::N => Dir8::S,
            Dir8::Ne => Dir8::Sw,
            Dir8::E => Dir8::W,
            Dir8::Se => Dir8::Nw,
            Dir8::S => Dir8::N,
            Dir8::Sw => Dir8::Ne,
            Dir8::W => Dir8::E,
            Dir8::Nw => Dir8::Se,
        }
    }
}

// ---------------------------------------------------------------------------------------------
// Hex
// ---------------------------------------------------------------------------------------------

/// An axial hex cell `(q, r)`, with the third cube axis implied: `s = -q - r`.
#[derive(Debug, Clone, Copy, PartialEq, Eq, Structural, PartialOrd, Ord, Hash, Default)]
pub struct Hex {
    /// The first axial coordinate, growing east.
    pub q: i32,
    /// The second axial coordinate, growing north-east.
    pub r: i32,
}

impl Hex {
    /// A hex cell at axial `(q, r)`.
    pub fn new(q: i32, r: i32) -> (h: Hex)
        ensures
            h == (Hex { q, r }),
    {
        Hex { q, r }
    }

    /// The third cube axis, always `-q - r`.
    pub fn s(self) -> (s: i32)
        requires
            i32::MIN <= -self.q - self.r <= i32::MAX,
        ensures
            s == -self.q - self.r,
    {
        (-(self.q as i64) - self.r as i64) as i32
    }

    /// Cube distance, clamped to `u32`.
    pub open spec fn spec_hex_distance(self, o: Hex) -> u32 {
        let dq = self.q - o.q;
        let dr = self.r - o.r;
        clamp_u32_spec((iabs(dq) + iabs(dr) + iabs(dq + dr)) / 2)
    }

    /// Cube distance: the number of steps between two cells.
    ///
    /// Computed in `i64` and clamped, so no intermediate can overflow.
    pub fn distance(self, o: Hex) -> (d: u32)
        ensures
            d == self.spec_hex_distance(o),
    {
        let dq: i64 = self.q as i64 - o.q as i64;
        let dr: i64 = self.r as i64 - o.r as i64;
        let ds: i64 = dq + dr;
        let total = abs_i64(dq) + abs_i64(dr) + abs_i64(ds);
        clamp_u32(total / 2)
    }
}

/// The six directions out of a hex cell.
#[derive(Debug, Clone, Copy, PartialEq, Eq, Structural, PartialOrd, Ord, Hash)]
pub enum Dir6 {
    /// East: `q + 1`.
    E,
    /// North-east: `r + 1`.
    Ne,
    /// North-west.
    Nw,
    /// West: `q - 1`.
    W,
    /// South-west: `r - 1`.
    Sw,
    /// South-east.
    Se,
}

/// The offset one step in a hex direction moves by.
pub open spec fn dir6_offset(d: Dir6) -> (int, int) {
    match d {
        Dir6::E => (1, 0),
        Dir6::Ne => (0, 1),
        Dir6::Nw => (-1, 1),
        Dir6::W => (-1, 0),
        Dir6::Sw => (0, -1),
        Dir6::Se => (1, -1),
    }
}

/// The hex direction a half turn away.
pub open spec fn dir6_opposite(d: Dir6) -> Dir6 {
    match d {
        Dir6::E => Dir6::W,
        Dir6::Ne => Dir6::Sw,
        Dir6::Nw => Dir6::Se,
        Dir6::W => Dir6::E,
        Dir6::Sw => Dir6::Ne,
        Dir6::Se => Dir6::Nw,
    }
}

impl Dir6 {
    /// All six, anticlockwise from east.
    pub const ALL: [Dir6; 6] = [Dir6::E, Dir6::Ne, Dir6::Nw, Dir6::W, Dir6::Sw, Dir6::Se];

    /// The direction facing the other way.
    pub fn opposite(self) -> (r: Dir6)
        ensures
            r == dir6_opposite(self),
            dir6_offset(r).0 == -dir6_offset(self).0,
            dir6_offset(r).1 == -dir6_offset(self).1,
            dir6_opposite(r) == self,
    {
        match self {
            Dir6::E => Dir6::W,
            Dir6::Ne => Dir6::Sw,
            Dir6::Nw => Dir6::Se,
            Dir6::W => Dir6::E,
            Dir6::Sw => Dir6::Ne,
            Dir6::Se => Dir6::Nw,
        }
    }
}

// ---------------------------------------------------------------------------------------------
// Metrics
// ---------------------------------------------------------------------------------------------

/// Which distance a board measures with.
#[derive(Debug, Clone, Copy, PartialEq, Eq, Structural, Hash)]
pub enum MetricKind {
    /// `|dx| + |dy|`: four-way movement.
    Manhattan,
    /// `max(|dx|, |dy|)`: eight-way movement.
    Chebyshev,
    /// Cube distance on a hex lattice.
    Hex,
    /// The coordinate's own distance, with no offset table: range queries scan the board.
    Scanning,
}

/// `kr² + kr + 1`, saturating at `u64::MAX`: the centred polygonal numbers.
pub open spec fn centered_count(k: int, r: int) -> u64 {
    let v = k * r * r + k * r + 1;
    if v > u64::MAX {
        u64::MAX
    } else {
        v as u64
    }
}

/// `(2r + 1)²`, saturating at `u64::MAX`.
pub open spec fn chebyshev_count(r: int) -> u64 {
    let v = (2 * r + 1) * (2 * r + 1);
    if v > u64::MAX {
        u64::MAX
    } else {
        v as u64
    }
}

/// How many offsets lie within `r` under a metric.
pub open spec fn metric_count(kind: MetricKind, r: u32) -> u64 {
    match kind {
        MetricKind::Manhattan => centered_count(2, r as int),
        MetricKind::Chebyshev => chebyshev_count(r as int),
        MetricKind::Hex => centered_count(3, r as int),
        MetricKind::Scanning => u64::MAX,
    }
}

/// `kr² + kr + 1`, saturating: a Manhattan diamond for `k = 2`, a hexagon for `k = 3`.
fn count_centered(k: u64, r: u32) -> (c: u64)
    requires
        k == 2 || k == 3,
    ensures
        c == centered_count(k as int, r as int),
{
    let r: u128 = r as u128;
    let k: u128 = k as u128;
    assert(k * r * r + k * r + 1 <= 4 * 0x1_0000_0000 * 0x1_0000_0000) by (nonlinear_arith)
        requires
            k <= 3,
            r <= 0xffff_ffff,
    ;
    let v: u128 = k * r * r + k * r + 1;
    if v > u64::MAX as u128 {
        u64::MAX
    } else {
        v as u64
    }
}

/// `(2r + 1)²`, saturating. The count of a Chebyshev square.
fn count_chebyshev(r: u32) -> (c: u64)
    ensures
        c == chebyshev_count(r as int),
{
    let side: u128 = 2 * r as u128 + 1;
    assert(side * side <= 0x2_0000_0000 * 0x2_0000_0000) by (nonlinear_arith)
        requires
            side <= 0x2_0000_0000,
    ;
    let v: u128 = side * side;
    if v > u64::MAX as u128 {
        u64::MAX
    } else {
        v as u64
    }
}

/// The largest radius whose offset table [`Grid::within`](crate::Grid::within) will ever build.
///
/// Every shipped count passes the largest board, [`MAX_CELLS`](crate::MAX_CELLS), long before this.
pub open spec fn small_radius(r: u32) -> bool {
    r <= 4096
}

/// A metric whose offset table fits a board of at most 2²⁴ cells is asked only for a small radius,
/// and is not a scanning metric.
pub(crate) proof fn lemma_table_radius(m: Metric, r: u32, len: int)
    requires
        len <= 0x100_0000,
        metric_count(m.spec_kind(), r) <= len,
    ensures
        m.spec_kind() != MetricKind::Scanning,
        small_radius(r),
{
    if r > 4096 {
        let rr = r as int;
        assert(2 * rr * rr + 2 * rr + 1 > 0x100_0000) by (nonlinear_arith)
            requires
                rr > 4096,
        ;
        assert((2 * rr + 1) * (2 * rr + 1) > 0x100_0000) by (nonlinear_arith)
            requires
                rr > 4096,
        ;
        assert(3 * rr * rr + 3 * rr + 1 > 0x100_0000) by (nonlinear_arith)
            requires
                rr > 4096,
        ;
    }
}

/// For the shipped coordinates a metric's offset table holds exactly [`Metric::count`] offsets: a
/// Manhattan diamond of `2r² + 2r + 1`, a Chebyshev square of `(2r + 1)²`, and a hexagon of
/// `3r² + 3r + 1`, whenever a table that size fits a board.
pub proof fn lemma_count_is_table_len(m: Metric, r: u32)
    requires
        m.spec_kind() != MetricKind::Scanning,
        metric_count(m.spec_kind(), r) <= 0x100_0000,
    ensures
        <Sq as Coord>::spec_table_len(m.spec_kind(), r) == metric_count(m.spec_kind(), r),
        <Hex as Coord>::spec_table_len(m.spec_kind(), r) == metric_count(m.spec_kind(), r),
        m.spec_kind() == MetricKind::Manhattan ==> metric_count(m.spec_kind(), r) == 2 * r * r + 2 * r + 1,
        m.spec_kind() == MetricKind::Chebyshev ==> metric_count(m.spec_kind(), r) == (2 * r + 1) * (2 * r + 1),
        m.spec_kind() == MetricKind::Hex ==> metric_count(m.spec_kind(), r) == 3 * r * r + 3 * r + 1,
{
}

/// The largest radius that fits the lattice limit, `2^30 - 1`, as a spec constant.
pub open spec fn lattice_limit() -> int {
    LATTICE_LIMIT as int
}

/// A cell address, and the directions leading out of it.
///
/// Implement this to put a board of your own shape on the crate's pathfinding and geometry. A
/// coordinate must be cheap to copy, totally ordered (this is what makes tie-breaks
/// deterministic), addable as a vector, and must name itself by a key of three integers.
pub trait Coord: Copy + Sized + core::fmt::Debug {
    /// The directions of travel out of a cell. Eight for a square, six for a hex.
    type Dir: Copy + PartialEq + Eq + core::fmt::Debug;

    /// The cell one step away, as a value.
    spec fn spec_step(self, d: Self::Dir) -> Self;

    /// Vector addition, as a value.
    spec fn spec_plus(self, o: Self) -> Self;

    /// Vector subtraction, as a value.
    spec fn spec_minus(self, o: Self) -> Self;

    /// The strict total order coordinates are compared by.
    spec fn spec_lt(self, o: Self) -> bool;

    /// The order an offset table lists its offsets in: whether `self` is listed before `o`.
    spec fn spec_table_lt(self, o: Self) -> bool;

    /// How many offsets this coordinate's table within `r` holds under a metric.
    spec fn spec_table_len(kind: MetricKind, r: u32) -> u64;

    /// Three integers that name this coordinate and no other.
    spec fn spec_key(self) -> (i32, i32, i32);

    /// The distance between two coordinates under a metric.
    spec fn spec_distance(self, o: Self, kind: MetricKind) -> u32;

    /// The cell `t/n` of the way from `a` to `b`, rounded to the lattice.
    spec fn spec_lerp(a: Self, b: Self, t: u32, n: u32) -> Self;

    /// The cell one step from `self` in direction `d`.
    ///
    /// Pure arithmetic: it does not know whether the result is on any board.
    fn step(self, d: Self::Dir) -> (r: Self)
        ensures
            r == self.spec_step(d),
    ;

    /// Vector addition.
    fn plus(self, o: Self) -> (r: Self)
        ensures
            r == self.spec_plus(o),
    ;

    /// Vector subtraction.
    fn minus(self, o: Self) -> (r: Self)
        ensures
            r == self.spec_minus(o),
    ;

    /// Whether two coordinates are the same cell.
    fn same(self, o: Self) -> (b: bool)
        ensures
            b == (self == o),
    ;

    /// Whether two directions are the same.
    fn same_dir(a: Self::Dir, b: Self::Dir) -> (r: bool)
        ensures
            r == (a == b),
    ;

    /// Whether `self` comes strictly before `o`.
    fn precedes(self, o: Self) -> (b: bool)
        ensures
            b == self.spec_lt(o),
    ;

    /// The key this coordinate is looked up by.
    fn key(self) -> (k: (i32, i32, i32))
        ensures
            k == self.spec_key(),
    ;

    /// The distance between two coordinates under a metric.
    fn distance_by(self, o: Self, kind: MetricKind) -> (d: u32)
        ensures
            d == self.spec_distance(o, kind),
    ;

    /// Offsets that reach every cell within `r` of any cell, each with its distance from the
    /// origin. Only asked for a small radius of a metric with an offset table.
    fn offsets(kind: MetricKind, r: u32) -> (v: Vec<(Self, u32)>)
        requires
            kind != MetricKind::Scanning,
            small_radius(r),
        ensures
            forall|c: Self, o: Self|
                c.spec_distance(o, kind) <= r ==> exists|k: int|
                    0 <= k < v.len() && #[trigger] c.spec_plus(v@[k].0) == o,
            forall|c: Self, k: int|
                0 <= k < v.len() ==> #[trigger] c.spec_minus(c).spec_distance(v@[k].0, kind) == v@[k].1 && v@[k].1 <= r,
            forall|i: int, j: int|
                0 <= i < j < v.len() ==> (#[trigger] v@[i]).0 != (#[trigger] v@[j]).0 && v@[i].0.spec_table_lt(v@[j].0),
            v.len() == Self::spec_table_len(kind, r),
    ;

    /// The cell `t/n` of the way from `a` to `b`, rounded to the lattice.
    fn lerp(a: Self, b: Self, t: u32, n: u32) -> (c: Self)
        requires
            0 < n,
            t <= n,
        ensures
            c == Self::spec_lerp(a, b, t, n),
    ;

    /// Keys name coordinates: equal keys mean equal coordinates.
    proof fn lemma_key_injective(a: Self, b: Self)
        ensures
            a.spec_key() == b.spec_key() ==> a == b,
    ;

    /// The order is a strict total order.
    proof fn lemma_order(a: Self, b: Self, c: Self)
        ensures
            !a.spec_lt(a),
            a.spec_lt(b) ==> !b.spec_lt(a),
            a != b ==> a.spec_lt(b) || b.spec_lt(a),
            a.spec_lt(b) && b.spec_lt(c) ==> a.spec_lt(c),
    ;

    /// Every metric is zero on the diagonal, symmetric, and obeys the triangle inequality.
    proof fn lemma_metric(a: Self, b: Self, c: Self, kind: MetricKind)
        ensures
            a.spec_distance(a, kind) == 0,
            a.spec_distance(b, kind) == b.spec_distance(a, kind),
            a.spec_distance(c, kind) <= a.spec_distance(b, kind) + b.spec_distance(c, kind),
    ;
}

/// How a grid measures distance, and whether it knows a straight line.
///
/// A metric must never **over**estimate the number of steps between two cells, or A\* stops
/// being admissible. [`FullGrid::new`](crate::FullGrid::new) checks that no single step covers
/// more than one unit of it. The shipped metrics answer range queries from an offset table and
/// draw straight lines; a scanning metric does neither.
#[derive(Debug, Clone, Copy, PartialEq, Eq, Structural)]
pub enum Metric {
    /// Manhattan distance, with an offset table and a straight line.
    Manhattan,
    /// Chebyshev distance, with an offset table and a straight line.
    Chebyshev,
    /// Hex cube distance, with an offset table and a straight line.
    Hex,
    /// The coordinate's own distance, scanning the board, with no straight line.
    Scanning,
    /// Manhattan distance with an offset table and no straight line.
    TabulatedManhattan,
    /// Chebyshev distance with an offset table and no straight line.
    TabulatedChebyshev,
    /// Hex distance with an offset table and no straight line.
    TabulatedHex,
    /// The coordinate's own distance, scanning the board, with a straight line.
    ScanningWithLine,
}

impl Metric {
    /// `|dx| + |dy|`. Four-way movement: range 1 is a plus sign, range 2 a diamond.
    pub const MANHATTAN: Metric = Metric::Manhattan;

    /// `max(|dx|, |dy|)`. Eight-way movement: range 1 is the eight surrounding cells.
    pub const CHEBYSHEV: Metric = Metric::Chebyshev;

    /// Cube distance on a hex lattice.
    pub const HEX: Metric = Metric::Hex;

    /// The metric's kind.
    pub open spec fn spec_kind(self) -> MetricKind {
        match self {
            Metric::Manhattan | Metric::TabulatedManhattan => MetricKind::Manhattan,
            Metric::Chebyshev | Metric::TabulatedChebyshev => MetricKind::Chebyshev,
            Metric::Hex | Metric::TabulatedHex => MetricKind::Hex,
            Metric::Scanning | Metric::ScanningWithLine => MetricKind::Scanning,
        }
    }

    /// Whether the metric has a straight line.
    pub open spec fn spec_has_lerp(self) -> bool {
        match self {
            Metric::Manhattan | Metric::Chebyshev | Metric::Hex | Metric::ScanningWithLine => true,
            _ => false,
        }
    }

    /// A metric with no offset table and no straight line: the coordinate's own distance, with
    /// range queries scanning the board.
    pub fn scanning() -> (m: Metric)
        ensures
            m.spec_kind() == MetricKind::Scanning,
            !m.spec_has_lerp(),
    {
        Metric::Scanning
    }

    /// A metric of the given kind with no straight line.
    pub fn tabulated(kind: MetricKind) -> (m: Metric)
        ensures
            m.spec_kind() == kind,
            !m.spec_has_lerp(),
    {
        match kind {
            MetricKind::Manhattan => Metric::TabulatedManhattan,
            MetricKind::Chebyshev => Metric::TabulatedChebyshev,
            MetricKind::Hex => Metric::TabulatedHex,
            MetricKind::Scanning => Metric::Scanning,
        }
    }

    /// Give this metric the coordinate's straight line, which is what sight needs.
    pub fn with_lerp(self) -> (m: Metric)
        ensures
            m.spec_kind() == self.spec_kind(),
            m.spec_has_lerp(),
    {
        match self.kind() {
            MetricKind::Manhattan => Metric::Manhattan,
            MetricKind::Chebyshev => Metric::Chebyshev,
            MetricKind::Hex => Metric::Hex,
            MetricKind::Scanning => Metric::ScanningWithLine,
        }
    }

    /// The kind of distance this metric measures.
    pub fn kind(&self) -> (k: MetricKind)
        ensures
            k == self.spec_kind(),
    {
        match self {
            Metric::Manhattan | Metric::TabulatedManhattan => MetricKind::Manhattan,
            Metric::Chebyshev | Metric::TabulatedChebyshev => MetricKind::Chebyshev,
            Metric::Hex | Metric::TabulatedHex => MetricKind::Hex,
            Metric::Scanning | Metric::ScanningWithLine => MetricKind::Scanning,
        }
    }

    /// The number of steps between two cells, as this metric counts them.
    pub fn distance<C: Coord>(&self, a: C, b: C) -> (d: u32)
        ensures
            d == a.spec_distance(b, self.spec_kind()),
    {
        a.distance_by(b, self.kind())
    }

    /// How many offsets lie within `r`, without building them. Saturates at `u64::MAX`.
    pub fn count(&self, r: u32) -> (c: u64)
        ensures
            c == metric_count(self.spec_kind(), r),
    {
        match self.kind() {
            MetricKind::Manhattan => count_centered(2, r),
            MetricKind::Chebyshev => count_chebyshev(r),
            MetricKind::Hex => count_centered(3, r),
            MetricKind::Scanning => u64::MAX,
        }
    }

    /// Every offset within `r` of the origin, each once and with its distance, in the order the
    /// coordinate lists its offset tables in. A scanning metric has no table, and answers with
    /// nothing. Ask [`count`](Metric::count) first: a table is built only when it would fit the
    /// largest board.
    pub fn deltas<C: Coord>(&self, r: u32) -> (v: Vec<(C, u32)>)
        requires
            self.spec_kind() == MetricKind::Scanning || metric_count(self.spec_kind(), r) <= 0x100_0000,
        ensures
            self.spec_kind() == MetricKind::Scanning ==> v.len() == 0,
            self.spec_kind() != MetricKind::Scanning ==> forall|c: C, o: C|
                c.spec_distance(o, self.spec_kind()) <= r ==> exists|k: int|
                    0 <= k < v.len() && #[trigger] c.spec_plus(v@[k].0) == o,
            forall|c: C, k: int|
                0 <= k < v.len() ==> #[trigger] c.spec_minus(c).spec_distance(v@[k].0, self.spec_kind()) == v@[k].1 && v@[k].1
                    <= r,
            forall|i: int, j: int|
                0 <= i < j < v.len() ==> (#[trigger] v@[i]).0 != (#[trigger] v@[j]).0 && v@[i].0.spec_table_lt(v@[j].0),
            self.spec_kind() != MetricKind::Scanning ==> v.len() == C::spec_table_len(self.spec_kind(), r),
    {
        let kind = self.kind();
        if kind == MetricKind::Scanning {
            return Vec::new();
        }
        proof {
            lemma_table_radius(*self, r, 0x100_0000);
        }
        C::offsets(kind, r)
    }

    /// The cell `t/n` of the way from `a` to `b`, or `None` if this lattice has no straight line.
    pub fn lerp<C: Coord>(&self, a: C, b: C, t: u32, n: u32) -> (c: Option<C>)
        requires
            0 < n,
            t <= n,
        ensures
            c == (if self.spec_has_lerp() {
                Some(C::spec_lerp(a, b, t, n))
            } else {
                None
            }),
    {
        if self.has_lerp() {
            Some(C::lerp(a, b, t, n))
        } else {
            None
        }
    }

    /// Whether this lattice has a notion of a straight line at all.
    pub fn has_lerp(&self) -> (b: bool)
        ensures
            b == self.spec_has_lerp(),
    {
        match self {
            Metric::Manhattan | Metric::Chebyshev | Metric::Hex | Metric::ScanningWithLine => true,
            _ => false,
        }
    }
}

// ---------------------------------------------------------------------------------------------
// Distances on a pair of integer axes, shared by both shipped coordinates
// ---------------------------------------------------------------------------------------------

/// The distance between `(ax, ay)` and `(bx, by)` under a metric. `hexish` says which distance a
/// scanning metric uses: the hex cube distance, or Chebyshev.
pub open spec fn pair_distance(ax: int, ay: int, bx: int, by: int, kind: MetricKind, hexish: bool) -> u32 {
    let dx = ax - bx;
    let dy = ay - by;
    match kind {
        MetricKind::Manhattan => clamp_u32_spec(iabs(dx) + iabs(dy)),
        MetricKind::Chebyshev => clamp_u32_spec(imax(iabs(dx), iabs(dy))),
        MetricKind::Hex => clamp_u32_spec((iabs(dx) + iabs(dy) + iabs(dx + dy)) / 2),
        MetricKind::Scanning => if hexish {
            clamp_u32_spec((iabs(dx) + iabs(dy) + iabs(dx + dy)) / 2)
        } else {
            clamp_u32_spec(imax(iabs(dx), iabs(dy)))
        },
    }
}

/// The unclamped distance behind [`pair_distance`].
pub open spec fn pair_norm(dx: int, dy: int, kind: MetricKind, hexish: bool) -> int {
    match kind {
        MetricKind::Manhattan => iabs(dx) + iabs(dy),
        MetricKind::Chebyshev => imax(iabs(dx), iabs(dy)),
        MetricKind::Hex => (iabs(dx) + iabs(dy) + iabs(dx + dy)) / 2,
        MetricKind::Scanning => if hexish {
            (iabs(dx) + iabs(dy) + iabs(dx + dy)) / 2
        } else {
            imax(iabs(dx), iabs(dy))
        },
    }
}

proof fn lemma_pair_norm(dx: int, dy: int, ex: int, ey: int, kind: MetricKind, hexish: bool)
    ensures
        pair_norm(0, 0, kind, hexish) == 0,
        pair_norm(dx, dy, kind, hexish) == pair_norm(-dx, -dy, kind, hexish),
        pair_norm(dx + ex, dy + ey, kind, hexish) <= pair_norm(dx, dy, kind, hexish) + pair_norm(
            ex,
            ey,
            kind,
            hexish,
        ),
        pair_norm(dx, dy, kind, hexish) >= 0,
        iabs(dx) <= pair_norm(dx, dy, kind, hexish),
        iabs(dy) <= pair_norm(dx, dy, kind, hexish),
        pair_distance(dx, dy, 0, 0, kind, hexish) == clamp_u32_spec(pair_norm(dx, dy, kind, hexish)),
{
}

proof fn lemma_pair_distance(
    ax: int,
    ay: int,
    bx: int,
    by: int,
    cx: int,
    cy: int,
    kind: MetricKind,
    hexish: bool,
)
    ensures
        pair_distance(ax, ay, ax, ay, kind, hexish) == 0,
        pair_distance(ax, ay, bx, by, kind, hexish) == pair_distance(bx, by, ax, ay, kind, hexish),
        pair_distance(ax, ay, cx, cy, kind, hexish) <= pair_distance(ax, ay, bx, by, kind, hexish)
            + pair_distance(bx, by, cx, cy, kind, hexish),
        pair_distance(ax, ay, bx, by, kind, hexish) == clamp_u32_spec(
            pair_norm(ax - bx, ay - by, kind, hexish),
        ),
{
    lemma_pair_norm(ax - bx, ay - by, bx - cx, by - cy, kind, hexish);
    lemma_pair_norm(0, 0, 0, 0, kind, hexish);
    lemma_pair_norm(bx - cx, by - cy, 0, 0, kind, hexish);
}

fn pair_distance_exec(ax: i32, ay: i32, bx: i32, by: i32, kind: MetricKind, hexish: bool) -> (d: u32)
    ensures
        d == pair_distance(ax as int, ay as int, bx as int, by as int, kind, hexish),
{
    let dx: i64 = ax as i64 - bx as i64;
    let dy: i64 = ay as i64 - by as i64;
    let adx = abs_i64(dx);
    let ady = abs_i64(dy);
    let big = if adx < ady {
        ady
    } else {
        adx
    };
    let hex = (adx + ady + abs_i64(dx + dy)) / 2;
    match kind {
        MetricKind::Manhattan => clamp_u32(adx + ady),
        MetricKind::Chebyshev => clamp_u32(big),
        MetricKind::Hex => clamp_u32(hex),
        MetricKind::Scanning => if hexish {
            clamp_u32(hex)
        } else {
            clamp_u32(big)
        },
    }
}

/// The first column of row `dy` of the table within `r`: where the metric's ball starts on it.
pub open spec fn row_lo(dy: int, r: int, kind: MetricKind, hexish: bool) -> int {
    if kind == MetricKind::Manhattan {
        iabs(dy) - r
    } else if kind == MetricKind::Hex || (kind == MetricKind::Scanning && hexish) {
        imax(-r, -r - dy)
    } else {
        -r
    }
}

/// The last column of row `dy` of the table within `r`.
pub open spec fn row_hi(dy: int, r: int, kind: MetricKind, hexish: bool) -> int {
    if kind == MetricKind::Manhattan {
        r - iabs(dy)
    } else if kind == MetricKind::Hex || (kind == MetricKind::Scanning && hexish) {
        if dy > 0 {
            r - dy
        } else {
            r
        }
    } else {
        r
    }
}

/// How many offsets within `r` lie in the rows before row `dy`.
pub open spec fn rows_before(dy: int, r: int, kind: MetricKind, hexish: bool) -> int
    decreases dy + r,
{
    if dy <= -r {
        0
    } else {
        rows_before(dy - 1, r, kind, hexish) + row_hi(dy - 1, r, kind, hexish) - row_lo(dy - 1, r, kind, hexish) + 1
    }
}

/// How many offsets of row `dy` lie before column `dx`.
pub open spec fn cols_before(dx: int, dy: int, r: int, kind: MetricKind, hexish: bool) -> int {
    let (lo, hi) = (row_lo(dy, r, kind, hexish), row_hi(dy, r, kind, hexish));
    if dx <= lo {
        0
    } else if dx > hi {
        hi - lo + 1
    } else {
        dx - lo
    }
}

/// Inside the box, an offset is within `r` exactly when it lies between its row's first and last
/// column, and every row has at least one.
proof fn lemma_row(dx: int, dy: int, r: int, kind: MetricKind, hexish: bool)
    requires
        0 <= r,
        -r <= dx <= r,
        -r <= dy <= r,
    ensures
        (pair_norm(dx, dy, kind, hexish) <= r) == (row_lo(dy, r, kind, hexish) <= dx <= row_hi(dy, r, kind, hexish)),
        -r <= row_lo(dy, r, kind, hexish) <= row_hi(dy, r, kind, hexish) <= r,
{
}

/// The rows before row `dy`, counted in closed form.
proof fn lemma_rows_before(dy: int, r: int, kind: MetricKind, hexish: bool)
    requires
        0 <= r,
        -r <= dy <= r + 1,
    ensures
        kind == MetricKind::Manhattan ==> rows_before(dy, r, kind, hexish) == if dy <= 0 {
            (dy + r) * (dy + r)
        } else {
            r * r + dy * (2 * r + 1) - dy * (dy - 1)
        },
        (kind == MetricKind::Hex || (kind == MetricKind::Scanning && hexish)) ==> 2 * rows_before(dy, r, kind, hexish)
            == if dy <= 0 {
            2 * (dy + r) * (r + 1) + (dy + r) * (dy + r - 1)
        } else {
            2 * r * (r + 1) + r * (r - 1) + 2 * dy * (2 * r + 1) - dy * (dy - 1)
        },
        (kind == MetricKind::Chebyshev || (kind == MetricKind::Scanning && !hexish)) ==> rows_before(dy, r, kind, hexish)
            == (dy + r) * (2 * r + 1),
    decreases dy + r,
{
    if dy <= -r {
        assert(dy + r == 0);
        assert((dy + r) * (dy + r) == 0 && (dy + r) * (2 * r + 1) == 0 && 2 * (dy + r) * (r + 1) + (dy + r) * (dy + r - 1)
            == 0) by (nonlinear_arith)
            requires
                dy + r == 0,
        ;
    } else {
        lemma_rows_before(dy - 1, r, kind, hexish);
        let p = rows_before(dy - 1, r, kind, hexish);
        let y = dy - 1;
        if kind == MetricKind::Manhattan {
            if dy <= 0 {
                assert(p + 2 * (r + y) + 1 == (dy + r) * (dy + r)) by (nonlinear_arith)
                    requires
                        p == (y + r) * (y + r),
                        y == dy - 1,
                ;
            } else if dy == 1 {
                assert(p + 2 * r + 1 == r * r + (2 * r + 1)) by (nonlinear_arith)
                    requires
                        p == (y + r) * (y + r),
                        y == 0,
                ;
            } else {
                assert(p + 2 * (r - y) + 1 == r * r + dy * (2 * r + 1) - dy * (dy - 1)) by (nonlinear_arith)
                    requires
                        p == r * r + y * (2 * r + 1) - y * (y - 1),
                        y == dy - 1,
                ;
            }
        } else if kind == MetricKind::Hex || (kind == MetricKind::Scanning && hexish) {
            if dy <= 0 {
                assert(2 * (p + 2 * r + 1 + y) == 2 * (dy + r) * (r + 1) + (dy + r) * (dy + r - 1)) by (nonlinear_arith)
                    requires
                        2 * p == 2 * (y + r) * (r + 1) + (y + r) * (y + r - 1),
                        y == dy - 1,
                ;
            } else if dy == 1 {
                assert(2 * (p + 2 * r + 1) == 2 * r * (r + 1) + r * (r - 1) + 2 * (2 * r + 1)) by (nonlinear_arith)
                    requires
                        2 * p == 2 * (y + r) * (r + 1) + (y + r) * (y + r - 1),
                        y == 0,
                ;
            } else {
                assert(2 * (p + 2 * r + 1 - y) == 2 * r * (r + 1) + r * (r - 1) + 2 * dy * (2 * r + 1) - dy * (dy - 1))
                    by (nonlinear_arith)
                    requires
                        2 * p == 2 * r * (r + 1) + r * (r - 1) + 2 * y * (2 * r + 1) - y * (y - 1),
                        y == dy - 1,
                ;
            }
        } else {
            assert(p + 2 * r + 1 == (dy + r) * (2 * r + 1)) by (nonlinear_arith)
                requires
                    p == (y + r) * (2 * r + 1),
                    y == dy - 1,
            ;
        }
    }
}

/// A whole table within a small radius holds what the metric counts: the rows of a square, a
/// diamond, or a hexagon.
proof fn lemma_table_count(kind: MetricKind, r: u32, hexish: bool)
    requires
        kind != MetricKind::Scanning,
        small_radius(r),
    ensures
        rows_before(r + 1, r as int, kind, hexish) == metric_count(kind, r),
{
    let n = r as int;
    lemma_rows_before(n + 1, n, kind, hexish);
    let t = rows_before(n + 1, n, kind, hexish);
    if kind == MetricKind::Manhattan {
        assert(t == 2 * n * n + 2 * n + 1 && 2 * n * n + 2 * n + 1 <= u64::MAX) by (nonlinear_arith)
            requires
                t == n * n + (n + 1) * (2 * n + 1) - (n + 1) * n,
                0 <= n <= 4096,
        ;
    } else if kind == MetricKind::Hex {
        assert(t == 3 * n * n + 3 * n + 1 && 3 * n * n + 3 * n + 1 <= u64::MAX) by (nonlinear_arith)
            requires
                2 * t == 2 * n * (n + 1) + n * (n - 1) + 2 * (n + 1) * (2 * n + 1) - (n + 1) * n,
                0 <= n <= 4096,
        ;
    } else {
        assert(t == (2 * n + 1) * (2 * n + 1) && (2 * n + 1) * (2 * n + 1) <= u64::MAX) by (nonlinear_arith)
            requires
                t == (n + 1 + n) * (2 * n + 1),
                0 <= n <= 4096,
        ;
    }
}

/// Whether pair `p` is listed before pair `q`: by the second number, then the first.
pub open spec fn pair_before(p: (i32, i32, u32), q: (i32, i32, u32)) -> bool {
    p.1 < q.1 || (p.1 == q.1 && p.0 < q.0)
}

/// Every offset within `r` of the origin under a metric, as pairs, each with its distance, listed
/// by the second number and then the first.
///
/// The bounding box `-r..=r` on both axes holds every such offset, because each shipped distance
/// is at least the larger of the two axis distances.
fn box_offsets(r: u32, kind: MetricKind, hexish: bool) -> (v: Vec<(i32, i32, u32)>)
    requires
        small_radius(r),
    ensures
        forall|ex: int, ey: int|
            pair_norm(ex, ey, kind, hexish) <= r ==> exists|k: int|
                0 <= k < v.len() && v@[k].0 == ex && v@[k].1 == ey,
        forall|k: int|
            0 <= k < v.len() ==> (#[trigger] v@[k]).2 == pair_distance(v@[k].0 as int, v@[k].1 as int, 0, 0, kind, hexish)
                && v@[k].2 <= r,
        forall|i: int, j: int| 0 <= i < j < v.len() ==> pair_before(#[trigger] v@[i], #[trigger] v@[j]),
        v.len() == rows_before(r + 1, r as int, kind, hexish),
{
    let reach: i32 = r as i32;
    let mut v: Vec<(i32, i32, u32)> = Vec::new();
    let mut dy: i32 = -reach;
    while dy <= reach
        invariant
            reach == r,
            small_radius(r),
            -reach <= dy <= reach + 1,
            forall|ex: int, ey: int|
                -reach <= ey < dy && pair_norm(ex, ey, kind, hexish) <= r ==> exists|k: int|
                    0 <= k < v.len() && v@[k].0 == ex && v@[k].1 == ey,
            forall|k: int|
                0 <= k < v.len() ==> (#[trigger] v@[k]).2 == pair_distance(v@[k].0 as int, v@[k].1 as int, 0, 0, kind, hexish)
                    && v@[k].2 <= r,
            forall|i: int, j: int| 0 <= i < j < v.len() ==> pair_before(#[trigger] v@[i], #[trigger] v@[j]),
            forall|k: int| 0 <= k < v.len() ==> (#[trigger] v@[k]).1 < dy,
            v.len() == rows_before(dy as int, r as int, kind, hexish),
        decreases reach + 1 - dy,
    {
        proof {
            lemma_row(0, dy as int, r as int, kind, hexish);
        }
        let mut dx: i32 = -reach;
        while dx <= reach
            invariant
                reach == r,
                small_radius(r),
                -reach <= dy <= reach,
                -reach <= dx <= reach + 1,
                forall|ex: int, ey: int|
                    (-reach <= ey < dy || (ey == dy && ex < dx)) && pair_norm(ex, ey, kind, hexish)
                        <= r ==> exists|k: int|
                        0 <= k < v.len() && v@[k].0 == ex && v@[k].1 == ey,
                forall|k: int|
                    0 <= k < v.len() ==> (#[trigger] v@[k]).2 == pair_distance(v@[k].0 as int, v@[k].1 as int, 0, 0, kind, hexish)
                        && v@[k].2 <= r,
                forall|i: int, j: int| 0 <= i < j < v.len() ==> pair_before(#[trigger] v@[i], #[trigger] v@[j]),
                forall|k: int| 0 <= k < v.len() ==> (#[trigger] v@[k]).1 < dy || (v@[k].1 == dy && v@[k].0 < dx),
                v.len() == rows_before(dy as int, r as int, kind, hexish) + cols_before(dx as int, dy as int, r as int, kind, hexish),
                -reach <= row_lo(dy as int, r as int, kind, hexish) <= row_hi(dy as int, r as int, kind, hexish) <= reach,
            decreases reach + 1 - dx,
        {
            let dist = pair_distance_exec(dx, dy, 0, 0, kind, hexish);
            proof {
                lemma_pair_norm(dx as int, dy as int, 0, 0, kind, hexish);
                lemma_row(dx as int, dy as int, r as int, kind, hexish);
            }
            let ghost before = v@;
            if dist <= r {
                v.push((dx, dy, dist));
            }
            proof {
                assert forall|ex: int, ey: int|
                    (-reach <= ey < dy || (ey == dy && ex < dx + 1)) && pair_norm(
                        ex,
                        ey,
                        kind,
                        hexish,
                    ) <= r implies exists|k: int|
                    0 <= k < v.len() && v@[k].0 == ex && v@[k].1 == ey by {
                    if ey == dy && ex == dx {
                        let k = v.len() - 1;
                        assert(v@[k as int].0 == ex && v@[k as int].1 == ey);
                    } else {
                        let k = choose|k: int| 0 <= k < before.len() && before[k].0 == ex && before[k].1 == ey;
                        assert(v@[k].0 == ex && v@[k].1 == ey);
                    }
                }
            }
            dx = dx + 1;
        }
        proof {
            assert forall|ex: int, ey: int|
                -reach <= ey < dy + 1 && pair_norm(ex, ey, kind, hexish) <= r implies exists|k: int|
                0 <= k < v.len() && v@[k].0 == ex && v@[k].1 == ey by {
                lemma_pair_norm(ex, ey, 0, 0, kind, hexish);
            }
        }
        dy = dy + 1;
    }
    proof {
        assert forall|ex: int, ey: int| pair_norm(ex, ey, kind, hexish) <= r implies exists|k: int|
            0 <= k < v.len() && v@[k].0 == ex && v@[k].1 == ey by {
            lemma_pair_norm(ex, ey, 0, 0, kind, hexish);
        }
    }
    v
}

// ---------------------------------------------------------------------------------------------
// Straight lines, in exact integer arithmetic
// ---------------------------------------------------------------------------------------------

/// `num / den` rounded to the nearest integer, halfway cases away from zero.
pub open spec fn round_half_away(num: int, den: int) -> int {
    if num >= 0 {
        (2 * num + den) / (2 * den)
    } else {
        -((-2 * num + den) / (2 * den))
    }
}

/// `num / den` rounded to the nearest integer, halfway cases upward.
pub open spec fn round_half_up(num: int, den: int) -> int {
    (2 * num + den) / (2 * den)
}

/// The numerator of the point `t/n` of the way from `a` to `b`, over the denominator `n`.
pub open spec fn lerp_num(a: int, b: int, t: int, n: int) -> int {
    a * n + (b - a) * t
}

/// One axis of a square straight line: the nearest lattice value, clamped to the lattice limit.
pub open spec fn sq_lerp_axis(a: int, b: int, t: int, n: int) -> i32 {
    lattice_clamp(round_half_away(lerp_num(a, b, t, n), n))
}

fn lerp_num_exec(a: i32, b: i32, t: u32, n: u32) -> (r: i128)
    requires
        t <= n,
    ensures
        r == lerp_num(a as int, b as int, t as int, n as int),
        -0x8000_0000 * n <= r <= 0x8000_0000 * n,
        -0x1_0000_0000_0000_0000 <= r <= 0x1_0000_0000_0000_0000,
{
    assert(-0x8000_0000 * 0x1_0000_0000 <= a * n <= 0x8000_0000 * 0x1_0000_0000) by (nonlinear_arith)
        requires
            -0x8000_0000 <= a <= 0x8000_0000,
            0 <= n <= 0x1_0000_0000,
    ;
    let an: i128 = a as i128 * n as i128;
    let span: i128 = b as i128 - a as i128;
    assert(-0x1_0000_0000 * 0x1_0000_0000 <= span * t <= 0x1_0000_0000 * 0x1_0000_0000) by (nonlinear_arith)
        requires
            -0x1_0000_0000 <= span <= 0x1_0000_0000,
            0 <= t <= 0x1_0000_0000,
    ;
    let bt: i128 = span * t as i128;
    assert(-0x8000_0000 * n <= a * n + (b - a) * t <= 0x8000_0000 * n) by (nonlinear_arith)
        requires
            -0x8000_0000 <= a <= 0x8000_0000,
            -0x8000_0000 <= b <= 0x8000_0000,
            0 <= t <= n,
    ;
    assert(0x8000_0000 * n <= 0x8000_0000 * 0x1_0000_0000) by (nonlinear_arith)
        requires
            0 <= n <= 0x1_0000_0000,
    ;
    an + bt
}

/// `a / b` rounded down, for a positive `b`.
fn floor_div(a: i128, b: i128) -> (r: i128)
    requires
        0 < b < 0x10_0000_0000,
        -0x10_0000_0000_0000_0000 < a < 0x10_0000_0000_0000_0000,
    ensures
        r == a / b,
{
    if a >= 0 {
        a / b
    } else {
        let m: i128 = -a;
        let q: i128 = m / b;
        let rem: i128 = m % b;
        proof {
            lemma_fundamental_div_mod(m as int, b as int);
            assert(m == b * q + rem);
            assert(0 <= rem < b);
            assert(q >= 0) by (nonlinear_arith)
                requires
                    m >= 0,
                    b > 0,
                    m == b * q + rem,
                    0 <= rem < b,
            ;
            assert(q <= m) by (nonlinear_arith)
                requires
                    m >= 0,
                    b > 0,
                    m == b * q + rem,
                    0 <= rem < b,
            ;
        }
        if rem == 0 {
            proof {
                assert(a == (-q) * b + 0) by (nonlinear_arith)
                    requires
                        a == -m,
                        m == b * q + rem,
                        rem == 0,
                ;
                lemma_fundamental_div_mod_converse(a as int, b as int, -q as int, 0);
            }
            -q
        } else {
            proof {
                assert(a == (-q - 1) * b + (b - rem)) by (nonlinear_arith)
                    requires
                        a == -m,
                        m == b * q + rem,
                ;
                lemma_fundamental_div_mod_converse(a as int, b as int, -q - 1, b - rem);
            }
            -q - 1
        }
    }
}

fn round_half_away_exec(num: i128, den: i128) -> (r: i128)
    requires
        0 < den <= 0x1_0000_0000,
        -0x1_0000_0000_0000_0000 <= num <= 0x1_0000_0000_0000_0000,
    ensures
        r == round_half_away(num as int, den as int),
{
    if num >= 0 {
        floor_div(2 * num + den, 2 * den)
    } else {
        let m: i128 = -num;
        assert(0 < m <= 0x1_0000_0000_0000_0000);
        -floor_div(2 * m + den, 2 * den)
    }
}

/// The exact square lerp: both axes rounded half away from zero, then clamped.
pub open spec fn sq_lerp_spec(a: Sq, b: Sq, t: u32, n: u32) -> Sq {
    Sq { x: sq_lerp_axis(a.x as int, b.x as int, t as int, n as int), y: sq_lerp_axis(a.y as int, b.y as int, t as int, n as int) }
}

fn sq_lerp_axis_exec(a: i32, b: i32, t: u32, n: u32) -> (r: i32)
    requires
        0 < n,
        t <= n,
    ensures
        r == sq_lerp_axis(a as int, b as int, t as int, n as int),
{
    let num = lerp_num_exec(a, b, t, n);
    clamp_lattice(round_half_away_exec(num, n as i128))
}

/// `(ε-coefficient, magnitude)` comparison: whether `a + ea·ε` exceeds `b + eb·ε` for an
/// infinitesimal positive `ε`.
pub open spec fn eps_gt(a: int, ea: int, b: int, eb: int) -> bool {
    a > b || (a == b && ea > eb)
}

/// The exact hex lerp.
///
/// The point `t/n` of the way from `a` to `b`, nudged by an infinitesimal `ε` on `q` and `r`
/// (so `-2ε` on `s`) to break ties away from cell boundaries, is rounded on all three cube axes;
/// whichever axis drifted furthest is then recomputed from the other two so they still sum to
/// zero. Everything is exact rational arithmetic over the denominator `n`.
pub open spec fn hex_lerp_spec(a: Hex, b: Hex, t: u32, n: u32) -> Hex {
    let nn = n as int;
    let x = lerp_num(a.q as int, b.q as int, t as int, nn);
    let y = lerp_num(a.r as int, b.r as int, t as int, nn);
    let rq = round_half_up(x, nn);
    let rr = round_half_up(y, nn);
    let rs = -round_half_up(x + y, nn);
    let an = rq * nn - x;
    let bn = rr * nn - y;
    let cn = rs * nn + x + y;
    let dq = iabs(an);
    let eq = if an > 0 { -1int } else { 1int };
    let dr = iabs(bn);
    let er = if bn > 0 { -1int } else { 1int };
    let ds = iabs(cn);
    let es = if cn >= 0 { 2int } else { -2int };
    if eps_gt(dq, eq, dr, er) && eps_gt(dq, eq, ds, es) {
        Hex { q: lattice_clamp(-rr - rs), r: lattice_clamp(rr) }
    } else if eps_gt(dr, er, ds, es) {
        Hex { q: lattice_clamp(rq), r: lattice_clamp(-rq - rs) }
    } else {
        Hex { q: lattice_clamp(rq), r: lattice_clamp(rr) }
    }
}

fn i128_abs(v: i128) -> (r: i128)
    requires
        v > i128::MIN,
    ensures
        r == iabs(v as int),
{
    if v < 0 {
        -v
    } else {
        v
    }
}

fn hex_lerp_exec(a: Hex, b: Hex, t: u32, n: u32) -> (h: Hex)
    requires
        0 < n,
        t <= n,
    ensures
        h == hex_lerp_spec(a, b, t, n),
{
    let nn: i128 = n as i128;
    let x = lerp_num_exec(a.q, b.q, t, n);
    let y = lerp_num_exec(a.r, b.r, t, n);
    let rq = floor_div(2 * x + nn, 2 * nn);
    let rr = floor_div(2 * y + nn, 2 * nn);
    let rs0 = floor_div(2 * (x + y) + nn, 2 * nn);
    proof {
        lemma_fundamental_div_mod(2 * x + nn, 2 * nn as int);
        lemma_fundamental_div_mod(2 * y + nn, 2 * nn as int);
        lemma_fundamental_div_mod(2 * (x + y) + nn, 2 * nn as int);
    }
    assert(-0x1_0000_0000 <= rq <= 0x1_0000_0000) by (nonlinear_arith)
        requires
            0 < nn <= 0x1_0000_0000,
            -0x8000_0000 * nn <= x <= 0x8000_0000 * nn,
            2 * x + nn == 2 * nn * rq + (2 * x + nn) % (2 * nn),
            0 <= (2 * x + nn) % (2 * nn) < 2 * nn,
    ;
    assert(-0x1_0000_0000 <= rr <= 0x1_0000_0000) by (nonlinear_arith)
        requires
            0 < nn <= 0x1_0000_0000,
            -0x8000_0000 * nn <= y <= 0x8000_0000 * nn,
            2 * y + nn == 2 * nn * rr + (2 * y + nn) % (2 * nn),
            0 <= (2 * y + nn) % (2 * nn) < 2 * nn,
    ;
    assert(-0x2_0000_0000 <= rs0 <= 0x2_0000_0000) by (nonlinear_arith)
        requires
            0 < nn <= 0x1_0000_0000,
            -0x1_0000_0000 * nn <= x + y <= 0x1_0000_0000 * nn,
            2 * (x + y) + nn == 2 * nn * rs0 + (2 * (x + y) + nn) % (2 * nn),
            0 <= (2 * (x + y) + nn) % (2 * nn) < 2 * nn,
    ;
    let rs = -rs0;
    assert(-0x2_0000_0000 * 0x1_0000_0000 <= rq * nn <= 0x2_0000_0000 * 0x1_0000_0000) by (nonlinear_arith)
        requires
            -0x2_0000_0000 <= rq <= 0x2_0000_0000,
            0 < nn <= 0x1_0000_0000,
    ;
    assert(-0x2_0000_0000 * 0x1_0000_0000 <= rr * nn <= 0x2_0000_0000 * 0x1_0000_0000) by (nonlinear_arith)
        requires
            -0x2_0000_0000 <= rr <= 0x2_0000_0000,
            0 < nn <= 0x1_0000_0000,
    ;
    assert(-0x2_0000_0000 * 0x1_0000_0000 <= rs * nn <= 0x2_0000_0000 * 0x1_0000_0000) by (nonlinear_arith)
        requires
            -0x2_0000_0000 <= rs <= 0x2_0000_0000,
            0 < nn <= 0x1_0000_0000,
    ;
    let an = rq * nn - x;
    let bn = rr * nn - y;
    let cn = rs * nn + x + y;
    let dq = i128_abs(an);
    let eq: i128 = if an > 0 { -1 } else { 1 };
    let dr = i128_abs(bn);
    let er: i128 = if bn > 0 { -1 } else { 1 };
    let ds = i128_abs(cn);
    let es: i128 = if cn >= 0 { 2 } else { -2 };
    let q_over_r = dq > dr || (dq == dr && eq > er);
    let q_over_s = dq > ds || (dq == ds && eq > es);
    let r_over_s = dr > ds || (dr == ds && er > es);
    if q_over_r && q_over_s {
        Hex { q: clamp_lattice(-rr - rs), r: clamp_lattice(rr) }
    } else if r_over_s {
        Hex { q: clamp_lattice(rq), r: clamp_lattice(-rq - rs) }
    } else {
        Hex { q: clamp_lattice(rq), r: clamp_lattice(rr) }
    }
}

// ---------------------------------------------------------------------------------------------
// The two shipped coordinates
// ---------------------------------------------------------------------------------------------

/// The offset one square step moves by, as a cell.
pub open spec fn sq_step_spec(c: Sq, d: Dir8) -> Sq {
    Sq { x: sat_i32(c.x + dir8_offset(d).0), y: sat_i32(c.y + dir8_offset(d).1) }
}

/// The offset one hex step moves by, as a cell.
pub open spec fn hex_step_spec(c: Hex, d: Dir6) -> Hex {
    Hex { q: sat_i32(c.q + dir6_offset(d).0), r: sat_i32(c.r + dir6_offset(d).1) }
}

impl Coord for Sq {
    type Dir = Dir8;

    open spec fn spec_step(self, d: Dir8) -> Sq {
        sq_step_spec(self, d)
    }

    open spec fn spec_plus(self, o: Sq) -> Sq {
        Sq { x: sat_i32(self.x + o.x), y: sat_i32(self.y + o.y) }
    }

    open spec fn spec_minus(self, o: Sq) -> Sq {
        Sq { x: sat_i32(self.x - o.x), y: sat_i32(self.y - o.y) }
    }

    open spec fn spec_lt(self, o: Sq) -> bool {
        self.x < o.x || (self.x == o.x && self.y < o.y)
    }

    /// Row by row, and along each row: by `y`, then `x`.
    open spec fn spec_table_lt(self, o: Sq) -> bool {
        self.y < o.y || (self.y == o.y && self.x < o.x)
    }

    /// Exactly as many as [`Metric::count`] reports.
    open spec fn spec_table_len(kind: MetricKind, r: u32) -> u64 {
        metric_count(kind, r)
    }

    open spec fn spec_key(self) -> (i32, i32, i32) {
        (self.x, self.y, 0)
    }

    open spec fn spec_distance(self, o: Sq, kind: MetricKind) -> u32 {
        pair_distance(self.x as int, self.y as int, o.x as int, o.y as int, kind, false)
    }

    open spec fn spec_lerp(a: Sq, b: Sq, t: u32, n: u32) -> Sq {
        sq_lerp_spec(a, b, t, n)
    }

    fn step(self, d: Dir8) -> (r: Sq) {
        let (dx, dy): (i32, i32) = match d {
            Dir8::N => (0, -1),
            Dir8::Ne => (1, -1),
            Dir8::E => (1, 0),
            Dir8::Se => (1, 1),
            Dir8::S => (0, 1),
            Dir8::Sw => (-1, 1),
            Dir8::W => (-1, 0),
            Dir8::Nw => (-1, -1),
        };
        Sq { x: sat_add_i32(self.x, dx), y: sat_add_i32(self.y, dy) }
    }

    fn plus(self, o: Sq) -> (r: Sq) {
        Sq { x: sat_add_i32(self.x, o.x), y: sat_add_i32(self.y, o.y) }
    }

    fn minus(self, o: Sq) -> (r: Sq) {
        Sq { x: sat_sub_i32(self.x, o.x), y: sat_sub_i32(self.y, o.y) }
    }

    fn same(self, o: Sq) -> (b: bool) {
        self.x == o.x && self.y == o.y
    }

    fn same_dir(a: Dir8, b: Dir8) -> (r: bool) {
        a == b
    }

    fn precedes(self, o: Sq) -> (b: bool) {
        self.x < o.x || (self.x == o.x && self.y < o.y)
    }

    fn key(self) -> (k: (i32, i32, i32)) {
        (self.x, self.y, 0)
    }

    fn distance_by(self, o: Sq, kind: MetricKind) -> (d: u32) {
        pair_distance_exec(self.x, self.y, o.x, o.y, kind, false)
    }

    fn offsets(kind: MetricKind, r: u32) -> (v: Vec<(Sq, u32)>) {
        let pairs = box_offsets(r, kind, false);
        let mut v: Vec<(Sq, u32)> = Vec::new();
        let mut k: usize = 0;
        while k < pairs.len()
            invariant
                k <= pairs.len(),
                v.len() == k,
                forall|j: int| 0 <= j < k ==> v@[j].0 == (Sq { x: pairs@[j].0, y: pairs@[j].1 }) && v@[j].1 == pairs@[j].2,
            decreases pairs.len() - k,
        {
            let (x, y, d) = pairs[k];
            v.push((Sq { x, y }, d));
            k = k + 1;
        }
        proof {
            assert forall|c: Sq, o: Sq| c.spec_distance(o, kind) <= r implies exists|k: int|
                0 <= k < v.len() && #[trigger] c.spec_plus(v@[k].0) == o by {
                let ex = o.x - c.x;
                let ey = o.y - c.y;
                lemma_pair_distance(o.x as int, o.y as int, c.x as int, c.y as int, 0, 0, kind, false);
                lemma_pair_norm(ex, ey, 0, 0, kind, false);
                let j = choose|j: int| 0 <= j < pairs.len() && pairs@[j].0 == ex && pairs@[j].1 == ey;
                assert(c.spec_plus(v@[j].0) == o);
            }
            assert forall|i: int, j: int| 0 <= i < j < v.len() implies (#[trigger] v@[i]).0 != (#[trigger] v@[j]).0
                && v@[i].0.spec_table_lt(v@[j].0) by {
                assert(pair_before(pairs@[i], pairs@[j]));
            }
            lemma_table_count(kind, r, false);
        }
        v
    }

    fn lerp(a: Sq, b: Sq, t: u32, n: u32) -> (c: Sq) {
        Sq { x: sq_lerp_axis_exec(a.x, b.x, t, n), y: sq_lerp_axis_exec(a.y, b.y, t, n) }
    }

    proof fn lemma_key_injective(a: Sq, b: Sq) {
    }

    proof fn lemma_order(a: Sq, b: Sq, c: Sq) {
    }

    proof fn lemma_metric(a: Sq, b: Sq, c: Sq, kind: MetricKind) {
        lemma_pair_distance(a.x as int, a.y as int, b.x as int, b.y as int, c.x as int, c.y as int, kind, false);
    }
}

impl Coord for Hex {
    type Dir = Dir6;

    open spec fn spec_step(self, d: Dir6) -> Hex {
        hex_step_spec(self, d)
    }

    open spec fn spec_plus(self, o: Hex) -> Hex {
        Hex { q: sat_i32(self.q + o.q), r: sat_i32(self.r + o.r) }
    }

    open spec fn spec_minus(self, o: Hex) -> Hex {
        Hex { q: sat_i32(self.q - o.q), r: sat_i32(self.r - o.r) }
    }

    open spec fn spec_lt(self, o: Hex) -> bool {
        self.q < o.q || (self.q == o.q && self.r < o.r)
    }

    /// By `q`, then `r`.
    open spec fn spec_table_lt(self, o: Hex) -> bool {
        self.q < o.q || (self.q == o.q && self.r < o.r)
    }

    /// Exactly as many as [`Metric::count`] reports.
    open spec fn spec_table_len(kind: MetricKind, r: u32) -> u64 {
        metric_count(kind, r)
    }

    open spec fn spec_key(self) -> (i32, i32, i32) {
        (self.q, self.r, 1)
    }

    open spec fn spec_distance(self, o: Hex, kind: MetricKind) -> u32 {
        pair_distance(self.q as int, self.r as int, o.q as int, o.r as int, kind, true)
    }

    open spec fn spec_lerp(a: Hex, b: Hex, t: u32, n: u32) -> Hex {
        hex_lerp_spec(a, b, t, n)
    }

    fn step(self, d: Dir6) -> (r: Hex) {
        let (dq, dr): (i32, i32) = match d {
            Dir6::E => (1, 0),
            Dir6::Ne => (0, 1),
            Dir6::Nw => (-1, 1),
            Dir6::W => (-1, 0),
            Dir6::Sw => (0, -1),
            Dir6::Se => (1, -1),
        };
        Hex { q: sat_add_i32(self.q, dq), r: sat_add_i32(self.r, dr) }
    }

    fn plus(self, o: Hex) -> (r: Hex) {
        Hex { q: sat_add_i32(self.q, o.q), r: sat_add_i32(self.r, o.r) }
    }

    fn minus(self, o: Hex) -> (r: Hex) {
        Hex { q: sat_sub_i32(self.q, o.q), r: sat_sub_i32(self.r, o.r) }
    }

    fn same(self, o: Hex) -> (b: bool) {
        self.q == o.q && self.r == o.r
    }

    fn same_dir(a: Dir6, b: Dir6) -> (r: bool) {
        a == b
    }

    fn precedes(self, o: Hex) -> (b: bool) {
        self.q < o.q || (self.q == o.q && self.r < o.r)
    }

    fn key(self) -> (k: (i32, i32, i32)) {
        (self.q, self.r, 1)
    }

    fn distance_by(self, o: Hex, kind: MetricKind) -> (d: u32) {
        pair_distance_exec(self.q, self.r, o.q, o.r, kind, true)
    }

    fn offsets(kind: MetricKind, r: u32) -> (v: Vec<(Hex, u32)>) {
        // Listed by `q` and then `r`: the table's rows run along `q`.
        let pairs = box_offsets(r, kind, true);
        let mut v: Vec<(Hex, u32)> = Vec::new();
        let mut k: usize = 0;
        while k < pairs.len()
            invariant
                k <= pairs.len(),
                v.len() == k,
                forall|j: int| 0 <= j < k ==> v@[j].0 == (Hex { q: pairs@[j].1, r: pairs@[j].0 }) && v@[j].1 == pairs@[j].2,
            decreases pairs.len() - k,
        {
            let (b, a, d) = pairs[k];
            v.push((Hex { q: a, r: b }, d));
            k = k + 1;
        }
        proof {
            assert forall|c: Hex, o: Hex| c.spec_distance(o, kind) <= r implies exists|k: int|
                0 <= k < v.len() && #[trigger] c.spec_plus(v@[k].0) == o by {
                let ex = o.q - c.q;
                let ey = o.r - c.r;
                lemma_pair_distance(o.q as int, o.r as int, c.q as int, c.r as int, 0, 0, kind, true);
                lemma_pair_norm(ex, ey, 0, 0, kind, true);
                assert(pair_norm(ey, ex, kind, true) == pair_norm(ex, ey, kind, true));
                let j = choose|j: int| 0 <= j < pairs.len() && pairs@[j].0 == ey && pairs@[j].1 == ex;
                assert(c.spec_plus(v@[j].0) == o);
            }
            assert forall|c: Hex, k: int| 0 <= k < v.len() implies #[trigger] c.spec_minus(c).spec_distance(v@[k].0, kind)
                == v@[k].1 && v@[k].1 <= r by {
                let (b, a) = (pairs@[k].0 as int, pairs@[k].1 as int);
                assert(c.spec_minus(c) == Hex { q: 0, r: 0 });
                assert(pair_distance(0, 0, a, b, kind, true) == pair_distance(b, a, 0, 0, kind, true));
            }
            assert forall|i: int, j: int| 0 <= i < j < v.len() implies (#[trigger] v@[i]).0 != (#[trigger] v@[j]).0
                && v@[i].0.spec_table_lt(v@[j].0) by {
                assert(pair_before(pairs@[i], pairs@[j]));
            }
            lemma_table_count(kind, r, true);
        }
        v
    }

    fn lerp(a: Hex, b: Hex, t: u32, n: u32) -> (c: Hex) {
        hex_lerp_exec(a, b, t, n)
    }

    proof fn lemma_key_injective(a: Hex, b: Hex) {
    }

    proof fn lemma_order(a: Hex, b: Hex, c: Hex) {
    }

    proof fn lemma_metric(a: Hex, b: Hex, c: Hex, kind: MetricKind) {
        lemma_pair_distance(a.q as int, a.r as int, b.q as int, b.r as int, c.q as int, c.r as int, kind, true);
    }
}

// ---------------------------------------------------------------------------------------------
// Operators
// ---------------------------------------------------------------------------------------------

impl core::ops::Add for Sq {
    type Output = Sq;

    /// Vector addition, saturating at the ends of `i32`.
    fn add(self, o: Sq) -> (r: Sq)
        ensures
            r == self.spec_plus(o),
    {
        self.plus(o)
    }
}

impl vstd::std_specs::ops::AddSpecImpl for Sq {
    open spec fn obeys_add_spec() -> bool {
        true
    }

    open spec fn add_req(self, rhs: Sq) -> bool {
        true
    }

    open spec fn add_spec(self, rhs: Sq) -> Sq {
        <Sq as Coord>::spec_plus(self, rhs)
    }
}

impl core::ops::Sub for Sq {
    type Output = Sq;

    /// Vector subtraction, saturating at the ends of `i32`.
    fn sub(self, o: Sq) -> (r: Sq)
        ensures
            r == self.spec_minus(o),
    {
        self.minus(o)
    }
}

impl vstd::std_specs::ops::SubSpecImpl for Sq {
    open spec fn obeys_sub_spec() -> bool {
        true
    }

    open spec fn sub_req(self, rhs: Sq) -> bool {
        true
    }

    open spec fn sub_spec(self, rhs: Sq) -> Sq {
        <Sq as Coord>::spec_minus(self, rhs)
    }
}

impl core::ops::Add for Hex {
    type Output = Hex;

    /// Vector addition, saturating at the ends of `i32`.
    fn add(self, o: Hex) -> (r: Hex)
        ensures
            r == self.spec_plus(o),
    {
        self.plus(o)
    }
}

impl vstd::std_specs::ops::AddSpecImpl for Hex {
    open spec fn obeys_add_spec() -> bool {
        true
    }

    open spec fn add_req(self, rhs: Hex) -> bool {
        true
    }

    open spec fn add_spec(self, rhs: Hex) -> Hex {
        <Hex as Coord>::spec_plus(self, rhs)
    }
}

impl core::ops::Sub for Hex {
    type Output = Hex;

    /// Vector subtraction, saturating at the ends of `i32`.
    fn sub(self, o: Hex) -> (r: Hex)
        ensures
            r == self.spec_minus(o),
    {
        self.minus(o)
    }
}

impl vstd::std_specs::ops::SubSpecImpl for Hex {
    open spec fn obeys_sub_spec() -> bool {
        true
    }

    open spec fn sub_req(self, rhs: Hex) -> bool {
        true
    }

    open spec fn sub_spec(self, rhs: Hex) -> Hex {
        <Hex as Coord>::spec_minus(self, rhs)
    }
}

impl From<(i32, i32)> for Sq {
    fn from(p: (i32, i32)) -> (r: Sq)
        ensures
            r == (Sq { x: p.0, y: p.1 }),
    {
        Sq { x: p.0, y: p.1 }
    }
}

impl vstd::std_specs::convert::FromSpecImpl<(i32, i32)> for Sq {
    open spec fn obeys_from_spec() -> bool {
        true
    }

    open spec fn from_spec(p: (i32, i32)) -> Sq {
        Sq { x: p.0, y: p.1 }
    }
}

impl From<(i32, i32)> for Hex {
    fn from(p: (i32, i32)) -> (r: Hex)
        ensures
            r == (Hex { q: p.0, r: p.1 }),
    {
        Hex { q: p.0, r: p.1 }
    }
}

impl vstd::std_specs::convert::FromSpecImpl<(i32, i32)> for Hex {
    open spec fn obeys_from_spec() -> bool {
        true
    }

    open spec fn from_spec(p: (i32, i32)) -> Hex {
        Hex { q: p.0, r: p.1 }
    }
}

// ---------------------------------------------------------------------------------------------
// What a step is, on the shipped lattices
// ---------------------------------------------------------------------------------------------

/// A square step is one cell away and comes back: away from the edge of `i32`, stepping in `d` and
/// then in its opposite returns to where it began; the step is one cell under Chebyshev distance,
/// and one or two under Manhattan as it is orthogonal or diagonal.
pub proof fn lemma_sq_step_round_trip(c: Sq, d: Dir8)
    requires
        i32::MIN < c.x < i32::MAX,
        i32::MIN < c.y < i32::MAX,
    ensures
        c.spec_step(d).spec_step(dir8_opposite(d)) == c,
        c.spec_distance(c.spec_step(d), MetricKind::Chebyshev) == 1,
        c.spec_distance(c.spec_step(d), MetricKind::Manhattan) == (if d == Dir8::Ne || d == Dir8::Se || d == Dir8::Sw
            || d == Dir8::Nw {
            2u32
        } else {
            1u32
        }),
{
}

/// A hex step is one cell away and comes back: away from the edge of `i32`, stepping in `d` and
/// then in its opposite returns to where it began, and the step is one cell under hex distance.
pub proof fn lemma_hex_step_round_trip(c: Hex, d: Dir6)
    requires
        i32::MIN < c.q < i32::MAX,
        i32::MIN < c.r < i32::MAX,
    ensures
        c.spec_step(d).spec_step(dir6_opposite(d)) == c,
        c.spec_distance(c.spec_step(d), MetricKind::Hex) == 1,
{
}

/// Coordinates are vectors: adding an offset and taking it away again comes back, whenever
/// neither sum leaves `i32`.
pub proof fn lemma_sq_vectors(a: Sq, b: Sq)
    requires
        i32::MIN <= a.x + b.x <= i32::MAX,
        i32::MIN <= a.y + b.y <= i32::MAX,
    ensures
        a.spec_plus(b).spec_minus(b) == a,
        a.spec_plus(b).spec_minus(a) == b,
{
}

/// Hex coordinates are vectors too: adding an offset and taking it away again comes back.
pub proof fn lemma_hex_vectors(a: Hex, b: Hex)
    requires
        i32::MIN <= a.q + b.q <= i32::MAX,
        i32::MIN <= a.r + b.r <= i32::MAX,
    ensures
        a.spec_plus(b).spec_minus(b) == a,
        a.spec_plus(b).spec_minus(a) == b,
{
}

} // verus!
