//! Distances count steps.
//!
//! Each shipped distance is the length of the shortest walk between two cells: Manhattan counts
//! the four orthogonal steps of a square board, Chebyshev all eight of its steps, and the cube
//! distance the six steps of a hex board. Stated as laws: a cell is at distance zero only from
//! itself, no single step changes a distance by more than one, and from any other cell some step
//! brings the target one closer; so a walk as long as the distance reaches the target, and none
//! shorter can. They hold for every pair of cells inside the lattice limit, where no clamp bites.

use vstd::prelude::*;
use crate::coord::{Coord, Dir6, Dir8, Hex, LATTICE_LIMIT, MetricKind, Sq, dir8_offset, iabs};

verus! {

/// A square cell inside the lattice limit on both axes.
pub open spec fn sq_inside(c: Sq) -> bool {
    -LATTICE_LIMIT <= c.x <= LATTICE_LIMIT && -LATTICE_LIMIT <= c.y <= LATTICE_LIMIT
}

/// A hex cell inside the lattice limit on both axes.
pub open spec fn hex_inside(c: Hex) -> bool {
    -LATTICE_LIMIT <= c.q <= LATTICE_LIMIT && -LATTICE_LIMIT <= c.r <= LATTICE_LIMIT
}

/// Whether a step in direction `d` is one move of the walks a square metric counts: the four
/// orthogonal steps for Manhattan, every step for Chebyshev.
pub open spec fn sq_move(kind: MetricKind, d: Dir8) -> bool {
    kind == MetricKind::Chebyshev || dir8_offset(d).0 == 0 || dir8_offset(d).1 == 0
}

/// Where walking the steps `ds` from `a` ends, on a square board.
pub open spec fn sq_walk(a: Sq, ds: Seq<Dir8>) -> Sq
    decreases ds.len(),
{
    if ds.len() == 0 {
        a
    } else {
        sq_walk(a.spec_step(ds[0]), ds.drop_first())
    }
}

/// Where walking the steps `ds` from `a` ends, on a hex board.
pub open spec fn hex_walk(a: Hex, ds: Seq<Dir6>) -> Hex
    decreases ds.len(),
{
    if ds.len() == 0 {
        a
    } else {
        hex_walk(a.spec_step(ds[0]), ds.drop_first())
    }
}

/// The sign of an integer: -1, 0 or 1.
spec fn sign(v: int) -> int {
    if v < 0 {
        -1
    } else if v > 0 {
        1
    } else {
        0
    }
}

/// The square direction with a given offset.
spec fn sq_dir_of(dx: int, dy: int) -> Dir8 {
    if dx == 0 && dy < 0 {
        Dir8::N
    } else if dx > 0 && dy < 0 {
        Dir8::Ne
    } else if dx > 0 && dy == 0 {
        Dir8::E
    } else if dx > 0 && dy > 0 {
        Dir8::Se
    } else if dx == 0 && dy > 0 {
        Dir8::S
    } else if dx < 0 && dy > 0 {
        Dir8::Sw
    } else if dx < 0 && dy == 0 {
        Dir8::W
    } else {
        Dir8::Nw
    }
}

/// A step from `a` that heads for `b` under a square metric.
spec fn sq_toward(kind: MetricKind, a: Sq, b: Sq) -> Dir8 {
    let (sx, sy) = (sign(b.x - a.x), sign(b.y - a.y));
    if kind == MetricKind::Chebyshev || sy == 0 {
        sq_dir_of(sx, sy)
    } else if sx == 0 {
        sq_dir_of(0, sy)
    } else {
        sq_dir_of(sx, 0)
    }
}

/// A step from `a` that heads for `b` on a hex board.
spec fn hex_toward(a: Hex, b: Hex) -> Dir6 {
    let (dq, dr) = (b.q - a.q, b.r - a.r);
    if dq > 0 && dr < 0 {
        Dir6::Se
    } else if dq < 0 && dr > 0 {
        Dir6::Nw
    } else if dq > 0 {
        Dir6::E
    } else if dq < 0 {
        Dir6::W
    } else if dr > 0 {
        Dir6::Ne
    } else {
        Dir6::Sw
    }
}

/// Manhattan and Chebyshev distance on a square board count steps: zero only from a cell to
/// itself; one move (orthogonal for Manhattan, any for Chebyshev) changes the distance to a fixed
/// cell by at most one; and from any other cell some move, staying inside the lattice, brings the
/// target exactly one closer.
pub proof fn lemma_sq_distance_steps(kind: MetricKind, a: Sq, b: Sq)
    requires
        kind == MetricKind::Manhattan || kind == MetricKind::Chebyshev,
        sq_inside(a),
        sq_inside(b),
    ensures
        (a.spec_distance(b, kind) == 0) == (a == b),
        forall|d: Dir8|
            sq_move(kind, d) ==> #[trigger] a.spec_step(d).spec_distance(b, kind) <= a.spec_distance(b, kind) + 1
                && a.spec_distance(b, kind) <= a.spec_step(d).spec_distance(b, kind) + 1,
        a != b ==> exists|d: Dir8|
            sq_move(kind, d) && sq_inside(#[trigger] a.spec_step(d)) && a.spec_step(d).spec_distance(b, kind) + 1
                == a.spec_distance(b, kind),
{
    if a != b {
        let d = sq_toward(kind, a, b);
        assert(sq_move(kind, d) && sq_inside(a.spec_step(d)) && a.spec_step(d).spec_distance(b, kind) + 1 == a.spec_distance(
            b,
            kind,
        ));
    }
}

/// A square distance is the length of a walk: from `a`, a walk of exactly
/// `a.spec_distance(b, kind)` moves reaches `b`.
pub proof fn lemma_sq_walk_exists(kind: MetricKind, a: Sq, b: Sq)
    requires
        kind == MetricKind::Manhattan || kind == MetricKind::Chebyshev,
        sq_inside(a),
        sq_inside(b),
    ensures
        exists|ds: Seq<Dir8>|
            ds.len() == a.spec_distance(b, kind) && (forall|i: int| 0 <= i < ds.len() ==> sq_move(kind, #[trigger] ds[i]))
                && sq_walk(a, ds) == b,
    decreases a.spec_distance(b, kind),
{
    lemma_sq_distance_steps(kind, a, b);
    if a == b {
        let ds = Seq::<Dir8>::empty();
        assert(sq_walk(a, ds) == b);
    } else {
        let d = choose|d: Dir8|
            sq_move(kind, d) && sq_inside(#[trigger] a.spec_step(d)) && a.spec_step(d).spec_distance(b, kind) + 1
                == a.spec_distance(b, kind);
        let a1 = a.spec_step(d);
        lemma_sq_walk_exists(kind, a1, b);
        let ds1 = choose|ds: Seq<Dir8>|
            ds.len() == a1.spec_distance(b, kind) && (forall|i: int| 0 <= i < ds.len() ==> sq_move(kind, #[trigger] ds[i]))
                && sq_walk(a1, ds) == b;
        let ds = seq![d] + ds1;
        assert(ds.drop_first() =~= ds1);
        assert(forall|i: int| 0 <= i < ds.len() ==> sq_move(kind, #[trigger] ds[i])) by {
            assert forall|i: int| 0 <= i < ds.len() implies sq_move(kind, #[trigger] ds[i]) by {
                if i > 0 {
                    assert(ds[i] == ds1[i - 1]);
                }
            }
        }
        assert(sq_walk(a, ds) == b);
    }
}

/// A square distance is the least length of a walk: a walk of moves that stays inside the
/// lattice ends no further from where it began than it has moves.
pub proof fn lemma_sq_walk_bound(kind: MetricKind, a: Sq, ds: Seq<Dir8>)
    requires
        kind == MetricKind::Manhattan || kind == MetricKind::Chebyshev,
        forall|i: int| 0 <= i < ds.len() ==> sq_move(kind, #[trigger] ds[i]),
        forall|k: int| 0 <= k <= ds.len() ==> sq_inside(#[trigger] sq_walk(a, ds.take(k))),
    ensures
        a.spec_distance(sq_walk(a, ds), kind) <= ds.len(),
    decreases ds.len(),
{
    assert(ds.take(0) =~= Seq::<Dir8>::empty());
    assert(sq_inside(sq_walk(a, ds.take(0))));
    assert(ds.take(ds.len() as int) =~= ds);
    assert(sq_inside(sq_walk(a, ds.take(ds.len() as int))));
    let b = sq_walk(a, ds);
    if ds.len() == 0 {
        lemma_sq_distance_steps(kind, a, a);
    } else {
        let a1 = a.spec_step(ds[0]);
        let rest = ds.drop_first();
        assert(ds.take(1).drop_first() =~= Seq::<Dir8>::empty());
        assert(sq_inside(sq_walk(a, ds.take(1))));
        assert(ds.take(1)[0] == ds[0]);
        assert(sq_walk(a1, Seq::<Dir8>::empty()) == a1);
        assert(sq_walk(a, ds.take(1)) == a1);
        assert forall|k: int| 0 <= k <= rest.len() implies sq_inside(#[trigger] sq_walk(a1, rest.take(k))) by {
            assert(ds.take(k + 1).drop_first() =~= rest.take(k));
            assert(sq_inside(sq_walk(a, ds.take(k + 1))));
        }
        assert forall|i: int| 0 <= i < rest.len() implies sq_move(kind, #[trigger] rest[i]) by {
            assert(rest[i] == ds[i + 1]);
        }
        lemma_sq_walk_bound(kind, a1, rest);
        assert(sq_walk(a, ds) == sq_walk(a1, rest));
        assert(a.spec_step(ds[0]) == a1);
        lemma_sq_distance_steps(kind, a, b);
        assert(a1.spec_distance(b, kind) <= rest.len());
        assert(a.spec_distance(b, kind) <= a1.spec_distance(b, kind) + 1);
    }
}

/// The cube distance on a hex board counts steps: zero only from a cell to itself; one step
/// changes the distance to a fixed cell by at most one; and from any other cell some step,
/// staying inside the lattice, brings the target exactly one closer.
pub proof fn lemma_hex_distance_steps(a: Hex, b: Hex)
    requires
        hex_inside(a),
        hex_inside(b),
    ensures
        (a.spec_hex_distance(b) == 0) == (a == b),
        forall|d: Dir6|
            #[trigger] a.spec_step(d).spec_hex_distance(b) <= a.spec_hex_distance(b) + 1 && a.spec_hex_distance(b)
                <= a.spec_step(d).spec_hex_distance(b) + 1,
        a != b ==> exists|d: Dir6|
            hex_inside(#[trigger] a.spec_step(d)) && a.spec_step(d).spec_hex_distance(b) + 1 == a.spec_hex_distance(b),
        a.spec_hex_distance(b) == a.spec_distance(b, MetricKind::Hex),
{
    lemma_cube(a, b);
    assert forall|d: Dir6| #[trigger] a.spec_step(d).spec_hex_distance(b) <= a.spec_hex_distance(b) + 1 && a.spec_hex_distance(b)
        <= a.spec_step(d).spec_hex_distance(b) + 1 by {
        lemma_cube(a.spec_step(d), b);
    }
    if a != b {
        let d = hex_toward(a, b);
        lemma_cube(a.spec_step(d), b);
        assert(hex_inside(a.spec_step(d)) && a.spec_step(d).spec_hex_distance(b) + 1 == a.spec_hex_distance(b));
    }
}

/// Near the lattice, the cube distance is the largest of the three cube axes, unclamped.
proof fn lemma_cube(a: Hex, b: Hex)
    requires
        -LATTICE_LIMIT - 1 <= a.q <= LATTICE_LIMIT + 1,
        -LATTICE_LIMIT - 1 <= a.r <= LATTICE_LIMIT + 1,
        hex_inside(b),
    ensures
        a.spec_hex_distance(b) as int == max3(iabs(a.q - b.q), iabs(a.r - b.r), iabs((a.q - b.q) + (a.r - b.r))),
        a.spec_distance(b, MetricKind::Hex) == a.spec_hex_distance(b),
{
    let (dq, dr) = (a.q - b.q, a.r - b.r);
    let v = (iabs(dq) + iabs(dr) + iabs(dq + dr)) / 2;
    assert(v == max3(iabs(dq), iabs(dr), iabs(dq + dr)));
    assert(v <= u32::MAX);
}

spec fn max3(a: int, b: int, c: int) -> int {
    if a >= b && a >= c {
        a
    } else if b >= c {
        b
    } else {
        c
    }
}

/// A hex distance is the length of a walk: from `a`, a walk of exactly `a.spec_hex_distance(b)`
/// steps reaches `b`.
pub proof fn lemma_hex_walk_exists(a: Hex, b: Hex)
    requires
        hex_inside(a),
        hex_inside(b),
    ensures
        exists|ds: Seq<Dir6>| ds.len() == a.spec_hex_distance(b) && #[trigger] hex_walk(a, ds) == b,
    decreases a.spec_hex_distance(b),
{
    lemma_hex_distance_steps(a, b);
    if a == b {
        let ds = Seq::<Dir6>::empty();
        assert(hex_walk(a, ds) == b);
    } else {
        let d = choose|d: Dir6| hex_inside(#[trigger] a.spec_step(d)) && a.spec_step(d).spec_hex_distance(b) + 1 == a.spec_hex_distance(b);
        let a1 = a.spec_step(d);
        lemma_hex_walk_exists(a1, b);
        let ds1 = choose|ds: Seq<Dir6>| ds.len() == a1.spec_hex_distance(b) && #[trigger] hex_walk(a1, ds) == b;
        let ds = seq![d] + ds1;
        assert(ds.drop_first() =~= ds1);
        assert(hex_walk(a, ds) == b);
    }
}

/// The eight square directions are the eight cells around a cell, each reached once: north is
/// up (`y` grows downward) and east is to the right, and every cell one Chebyshev step away is
/// the step in exactly one direction.
pub proof fn lemma_sq_compass(c: Sq)
    requires
        sq_inside(c),
    ensures
        c.spec_step(Dir8::N) == (Sq { x: c.x, y: (c.y - 1) as i32 }),
        c.spec_step(Dir8::E) == (Sq { x: (c.x + 1) as i32, y: c.y }),
        c.spec_step(Dir8::S) == (Sq { x: c.x, y: (c.y + 1) as i32 }),
        c.spec_step(Dir8::W) == (Sq { x: (c.x - 1) as i32, y: c.y }),
        forall|d1: Dir8, d2: Dir8| d1 != d2 ==> #[trigger] c.spec_step(d1) != #[trigger] c.spec_step(d2),
        forall|o: Sq| c.spec_distance(o, MetricKind::Chebyshev) == 1 ==> exists|d: Dir8| #[trigger] c.spec_step(d) == o,
{
    assert forall|o: Sq| c.spec_distance(o, MetricKind::Chebyshev) == 1 implies exists|d: Dir8| #[trigger] c.spec_step(d) == o by {
        let d = sq_dir_of(o.x - c.x, o.y - c.y);
        assert(c.spec_step(d) == o);
    }
}

/// The six hex directions are the six cells around a cell, each reached once: east is `q + 1`
/// and north-east is `r + 1`, and every cell one step away is the step in exactly one direction.
pub proof fn lemma_hex_compass(c: Hex)
    requires
        hex_inside(c),
    ensures
        c.spec_step(Dir6::E) == (Hex { q: (c.q + 1) as i32, r: c.r }),
        c.spec_step(Dir6::Ne) == (Hex { q: c.q, r: (c.r + 1) as i32 }),
        c.spec_step(Dir6::W) == (Hex { q: (c.q - 1) as i32, r: c.r }),
        c.spec_step(Dir6::Sw) == (Hex { q: c.q, r: (c.r - 1) as i32 }),
        forall|d1: Dir6, d2: Dir6| d1 != d2 ==> #[trigger] c.spec_step(d1) != #[trigger] c.spec_step(d2),
        forall|o: Hex| c.spec_hex_distance(o) == 1 ==> exists|d: Dir6| #[trigger] c.spec_step(d) == o,
{
    assert forall|o: Hex| c.spec_hex_distance(o) == 1 implies exists|d: Dir6| #[trigger] c.spec_step(d) == o by {
        let (dq, dr) = (o.q - c.q, o.r - c.r);
        let d = if dq == 1 && dr == 0 {
            Dir6::E
        } else if dq == 0 && dr == 1 {
            Dir6::Ne
        } else if dq == -1 && dr == 1 {
            Dir6::Nw
        } else if dq == -1 && dr == 0 {
            Dir6::W
        } else if dq == 0 && dr == -1 {
            Dir6::Sw
        } else {
            Dir6::Se
        };
        assert(c.spec_step(d) == o);
    }
}

/// The named square distances are the metric's: `manhattan` is the Manhattan distance and
/// `chebyshev` the Chebyshev distance the board measures by.
pub proof fn lemma_sq_named(a: Sq, b: Sq)
    ensures
        a.spec_manhattan(b) == a.spec_distance(b, MetricKind::Manhattan),
        a.spec_chebyshev(b) == a.spec_distance(b, MetricKind::Chebyshev),
{
}

} // verus!
