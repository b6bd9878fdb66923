//! The tilemap side of a hex board: which way up it is drawn, and where a tile editor's
//! `(col, row)` puts each cell.
//!
//! Drawing and picking with pixels is floating point, and lives outside this library. What stays
//! here is integer: the staggered offset coordinates a tile editor stores a hex map in, and the
//! exact conversion between those and the board's own axial cells.

use vstd::prelude::*;
use crate::coord::{Coord, Dir6, Hex, dir6_offset};

verus! {

/// Which way up the hexes are drawn.
///
/// The compass names of [`Dir6`](crate::Dir6) describe a pointy-top board. Under
/// [`Flat`](Orientation::Flat) the lattice is unchanged and every route, distance and neighbour
/// is what it was; only the names become labels for lattice axes.
#[derive(Debug, Clone, Copy, PartialEq, Eq, Structural, Hash)]
pub enum Orientation {
    /// A vertex at the top. Neighbours due east and west; rows stagger.
    Pointy,
    /// A flat edge at the top. Neighbours due north and south; columns stagger.
    Flat,
}

/// How a tile editor staggers a hex map into a plain `(col, row)` rectangle.
///
/// Axial `r` grows north-east here, so going down a row goes down-left, and the shear is
/// subtracted where the usual formulas add it.
#[derive(Debug, Clone, Copy, PartialEq, Eq, Structural, Hash)]
pub enum Offset {
    /// Pointy-top, rows staggered, odd rows pushed right.
    OddR,
    /// Pointy-top, rows staggered, even rows pushed right.
    EvenR,
    /// Flat-top, columns staggered, odd columns pushed down.
    OddQ,
    /// Flat-top, columns staggered, even columns pushed down.
    EvenQ,
}

/// Half a cell's worth of stagger for a row or column: `(line ± parity) / 2`, which is exact.
pub open spec fn shear_spec(line: int, even: bool) -> int {
    let p = line % 2;
    if even {
        (line - p) / 2
    } else {
        (line + p) / 2
    }
}

/// A number clamped into `i32`.
pub open spec fn clamp_spec(v: int) -> i32 {
    if v < i32::MIN {
        i32::MIN
    } else if v > i32::MAX {
        i32::MAX
    } else {
        v as i32
    }
}

impl Offset {
    /// Whether this convention staggers rows (pointy-top) rather than columns.
    pub open spec fn rows(self) -> bool {
        self == Offset::OddR || self == Offset::EvenR
    }

    /// Whether this convention pushes the even lines rather than the odd ones.
    pub open spec fn evens(self) -> bool {
        self == Offset::EvenR || self == Offset::EvenQ
    }

    /// The `(col, row)` of a cell, before clamping into `i32`.
    pub open spec fn spec_from_hex_raw(self, h: Hex) -> (int, int) {
        let (q, r) = (h.q as int, h.r as int);
        if self.rows() {
            let row = -r;
            (q - shear_spec(row, self.evens()), row)
        } else {
            let col = q + r;
            (col, q - shear_spec(col, self.evens()))
        }
    }

    /// The `(col, row)` a tilemap would store this cell at.
    pub open spec fn spec_from_hex(self, h: Hex) -> (i32, i32) {
        let (col, row) = self.spec_from_hex_raw(h);
        (clamp_spec(col), clamp_spec(row))
    }

    /// The axial `(q, r)` of a tile, before clamping into `i32`.
    pub open spec fn spec_to_hex_raw(self, col: i32, row: i32) -> (int, int) {
        let (c, w) = (col as int, row as int);
        if self.rows() {
            (c + shear_spec(w, self.evens()), -w)
        } else {
            let s = shear_spec(c, self.evens());
            (w + s, c - w - s)
        }
    }

    /// The cell a tilemap's `(col, row)` means.
    pub open spec fn spec_to_hex(self, col: i32, row: i32) -> Hex {
        let (q, r) = self.spec_to_hex_raw(col, row);
        Hex { q: clamp_spec(q), r: clamp_spec(r) }
    }

    /// The `(col, row)` a tilemap would store this cell at.
    pub fn from_hex(self, h: Hex) -> (r: (i32, i32))
        ensures
            r == self.spec_from_hex(h),
    {
        let q = h.q as i64;
        let r = h.r as i64;
        let even = match self {
            Offset::EvenR | Offset::EvenQ => true,
            _ => false,
        };
        match self {
            Offset::OddR | Offset::EvenR => {
                let row = -r;
                (clamp_i64(q - shear(row, even)), clamp_i64(row))
            },
            Offset::OddQ | Offset::EvenQ => {
                let col = q + r;
                (clamp_i64(col), clamp_i64(q - shear(col, even)))
            },
        }
    }

    /// The cell a tilemap's `(col, row)` means. The exact inverse of [`Offset::from_hex`].
    pub fn to_hex(self, col: i32, row: i32) -> (h: Hex)
        ensures
            h == self.spec_to_hex(col, row),
    {
        let c = col as i64;
        let w = row as i64;
        let even = match self {
            Offset::EvenR | Offset::EvenQ => true,
            _ => false,
        };
        match self {
            Offset::OddR | Offset::EvenR => Hex::new(clamp_i64(c + shear(w, even)), clamp_i64(-w)),
            Offset::OddQ | Offset::EvenQ => {
                let s = shear(c, even);
                Hex::new(clamp_i64(w + s), clamp_i64(c - w - s))
            },
        }
    }
}

/// Whether a number fits in `i32`.
pub open spec fn fits(v: int) -> bool {
    i32::MIN <= v <= i32::MAX
}

/// A tile's cell names the tile back: `from_hex(to_hex(col, row)) == (col, row)`, for every tile
/// whose cell fits the lattice without clamping.
pub proof fn lemma_tile_round_trip(o: Offset, col: i32, row: i32)
    requires
        fits(o.spec_to_hex_raw(col, row).0),
        fits(o.spec_to_hex_raw(col, row).1),
    ensures
        o.spec_from_hex(o.spec_to_hex(col, row)) == (col, row),
{
}

/// A cell's tile names the cell back: `to_hex(from_hex(h)) == h`, for every cell whose tile fits
/// in `i32` without clamping.
pub proof fn lemma_cell_round_trip(o: Offset, h: Hex)
    requires
        fits(o.spec_from_hex_raw(h).0),
        fits(o.spec_from_hex_raw(h).1),
    ensures
        o.spec_to_hex(o.spec_from_hex(h).0, o.spec_from_hex(h).1) == h,
{
}

/// A tile of a map no larger than a board may be has a cell well inside the lattice.
pub proof fn lemma_small_tile(o: Offset, col: i32, row: i32)
    requires
        0 <= col <= 0x100_0000,
        0 <= row <= 0x100_0000,
    ensures
        fits(o.spec_to_hex_raw(col, row).0),
        fits(o.spec_to_hex_raw(col, row).1),
        -0x400_0000 <= o.spec_to_hex(col, row).q <= 0x400_0000,
        -0x400_0000 <= o.spec_to_hex(col, row).r <= 0x400_0000,
{
    let sc = shear_spec(col as int, o.evens());
    let sr = shear_spec(row as int, o.evens());
    assert(-1 <= sc <= 0x80_0001);
    assert(-1 <= sr <= 0x80_0001);
}

/// Which axis each convention lays along the tile map: a row-staggered (pointy-top) map keeps
/// each `r` on its own row, `row = -r`, and a column-staggered (flat-top) map keeps each `q + r`
/// on its own column, `col = q + r`. Both ways: a cell lands on its line, and a tile's cell lies
/// on the tile's line. So a step east or west stays in its row on a pointy-top map, and a step
/// north-west or south-east stays in its column on a flat-top one.
pub proof fn lemma_offset_axes(o: Offset, h: Hex, col: i32, row: i32)
    requires
        -0x1000_0000 <= h.q <= 0x1000_0000,
        -0x1000_0000 <= h.r <= 0x1000_0000,
        -0x1000_0000 <= col <= 0x1000_0000,
        -0x1000_0000 <= row <= 0x1000_0000,
    ensures
        (o == Offset::OddR || o == Offset::EvenR) ==> o.spec_from_hex(h).1 == -h.r && o.spec_to_hex(col, row).r == -row,
        (o == Offset::OddQ || o == Offset::EvenQ) ==> o.spec_from_hex(h).0 == h.q + h.r && o.spec_to_hex(col, row).q
            + o.spec_to_hex(col, row).r == col,
{
    let e = o.evens();
    lemma_shear_bounds(row as int, e);
    lemma_shear_bounds(col as int, e);
    lemma_shear_bounds(-(h.r as int), e);
    lemma_shear_bounds(h.q + h.r, e);
}

/// Which lines a convention pushes, read off the neighbours of a tile. On a flat-top map a tile
/// of a pushed column sits between the tiles of its own row and the row below in the column to
/// its left, and a tile of an unpushed column between its own row and the row above: `OddQ`
/// pushes the odd columns down and `EvenQ` the even ones. On a pointy-top map a tile of a pushed
/// row sits between the tiles of its own column and the next column in the row above it, and a
/// tile of an unpushed row between its own column and the one before: `OddR` pushes the odd rows
/// right and `EvenR` the even ones.
pub proof fn lemma_offset_stagger(o: Offset, col: i32, row: i32)
    requires
        -0x1000_0000 <= col <= 0x1000_0000,
        -0x1000_0000 <= row <= 0x1000_0000,
    ensures
        ({
            let here = o.spec_to_hex(col, row);
            let pushed_col = (col % 2 == 1) != o.evens();
            let pushed_row = (row % 2 == 1) != o.evens();
            &&& (o == Offset::OddQ || o == Offset::EvenQ) ==> if pushed_col {
                here.spec_hex_distance(o.spec_to_hex((col - 1) as i32, row)) == 1 && here.spec_hex_distance(
                    o.spec_to_hex((col - 1) as i32, (row + 1) as i32),
                ) == 1
            } else {
                here.spec_hex_distance(o.spec_to_hex((col - 1) as i32, (row - 1) as i32)) == 1 && here.spec_hex_distance(
                    o.spec_to_hex((col - 1) as i32, row),
                ) == 1
            }
            &&& (o == Offset::OddR || o == Offset::EvenR) ==> if pushed_row {
                here.spec_hex_distance(o.spec_to_hex(col, (row - 1) as i32)) == 1 && here.spec_hex_distance(
                    o.spec_to_hex((col + 1) as i32, (row - 1) as i32),
                ) == 1
            } else {
                here.spec_hex_distance(o.spec_to_hex((col - 1) as i32, (row - 1) as i32)) == 1 && here.spec_hex_distance(
                    o.spec_to_hex(col, (row - 1) as i32),
                ) == 1
            }
        }),
{
    let e = o.evens();
    let (c, w) = (col as int, row as int);
    assert(c % 2 == 0 || c % 2 == 1);
    assert(w % 2 == 0 || w % 2 == 1);
    assert((c - 1) % 2 == 1 - c % 2);
    assert((w - 1) % 2 == 1 - w % 2);
    lemma_shear_bounds(c, e);
    lemma_shear_bounds(c - 1, e);
    lemma_shear_bounds(w, e);
    lemma_shear_bounds(w - 1, e);
}

/// A stagger is within one of half its line.
proof fn lemma_shear_bounds(x: int, even: bool)
    ensures
        x - 1 <= 2 * shear_spec(x, even) <= x + 1,
{
    let p = x % 2;
    assert(p == 0 || p == 1);
}

/// The stagger of the next line is the same or one more.
proof fn lemma_shear_step(x: int, even: bool)
    ensures
        0 <= shear_spec(x + 1, even) - shear_spec(x, even) <= 1,
{
    let (p, p1) = (x % 2, (x + 1) % 2);
    assert(p == 0 || p == 1);
    assert(p == 0 ==> p1 == 1);
    assert(p == 1 ==> p1 == 0);
}

/// Offset coordinates keep neighbours neighbouring: a cell and each of its six neighbours land in
/// tiles at most one column and one row apart, and never in the same tile. This holds for every
/// cell within `2^28` of the origin on both axes.
pub proof fn lemma_neighbours_adjacent(o: Offset, h: Hex, d: Dir6)
    requires
        -0x1000_0000 <= h.q <= 0x1000_0000,
        -0x1000_0000 <= h.r <= 0x1000_0000,
    ensures
        ({
            let (c, w) = o.spec_from_hex(h);
            let (c2, w2) = o.spec_from_hex(h.spec_step(d));
            &&& -1 <= c2 - c <= 1
            &&& -1 <= w2 - w <= 1
            &&& (c2, w2) != (c, w)
        }),
{
    let (q, r) = (h.q as int, h.r as int);
    let (dq, dr) = dir6_offset(d);
    let n = h.spec_step(d);
    assert(n.q == q + dq && n.r == r + dr);
    let e = o.evens();
    if o.rows() {
        lemma_shear_step(-r - 1, e);
        lemma_shear_step(-r, e);
        assert(-0x1000_0002 <= shear_spec(-r, e) <= 0x1000_0002) by {
            lemma_shear_step(-r - 1, e);
            let p = (-r) % 2;
            assert(p == 0 || p == 1);
        }
    } else {
        lemma_shear_step(q + r - 1, e);
        lemma_shear_step(q + r, e);
        assert(-0x2000_0002 <= shear_spec(q + r, e) <= 0x2000_0002) by {
            let p = (q + r) % 2;
            assert(p == 0 || p == 1);
        }
    }
}

/// Half a cell's worth of stagger for this row or column.
///
/// `line & 1` is 1 for odd numbers on both sides of zero, and the numerator is always even, so the
/// division is exact.
fn shear(line: i64, even: bool) -> (r: i64)
    requires
        -0x1_0000_0000 <= line <= 0x1_0000_0000,
    ensures
        r == shear_spec(line as int, even),
{
    let p: i64 = line & 1;
    assert(p == 0 || p == 1) by (bit_vector)
        requires
            p == line & 1,
    ;
    assert(p == (line as int) % 2) by {
        assert((line & 1) == 0 ==> (line as int) % 2 == 0) by (bit_vector);
        assert((line & 1) == 1 ==> (line as int) % 2 == 1) by (bit_vector);
    }
    let n: i64 = if even {
        line - p
    } else {
        line + p
    };
    n / 2
}

/// A number clamped into `i32`, never wrapped.
fn clamp_i64(v: i64) -> (r: i32)
    ensures
        r == clamp_spec(v as int),
{
    if v < i32::MIN as i64 {
        i32::MIN
    } else if v > i32::MAX as i64 {
        i32::MAX
    } else {
        v as i32
    }
}

} // verus!
