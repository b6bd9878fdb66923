//! Where a straight line's cells sit between its ends, and why sight over a height field is
//! mutual.
//!
//! On a square board each axis of a sample is rounded from a value between the ends' and lands
//! between them, so under Manhattan distance its distances from the two ends add up; under
//! Chebyshev distance the cell sampled `t` of the way is exactly `t` from one end and `n - t` from
//! the other. On a hex board the cube component that spans the line is sampled exactly and the
//! rounding keeps the other two within half a unit, with the same result. Every cell of a line lies
//! between its ends. That is what makes a height test read the same from
//! either end, and so what makes [`Grid::los_by`](crate::Grid::los_by) through a height gate
//! answer alike both ways.

use vstd::prelude::*;
use vstd::arithmetic::div_mod::lemma_fundamental_div_mod;
use vstd::relations::total_ordering;
use crate::coord::{
    Coord, Hex, Idx, LATTICE_LIMIT, MetricKind, Sq, eps_gt, hex_lerp_spec, iabs, idx, imax, lattice_clamp, lerp_num,
    pair_distance, round_half_away, round_half_up, sq_lerp_axis, sq_lerp_spec,
};
use crate::grid::{Model, Sight};
use crate::height::{blocks_sight, reads_height};
use crate::line::{
    clear_by, dense_line, forward_line, lemma_line_symmetric, lemma_sight_symmetric, line_before, line_of, low_end, on_line,
    sample, samples, seen_by, sparse_line, sparse_ok, steps_of,
};
use crate::path::verdict;

verus! {

broadcast use crate::coord::group_idx;

/// A coordinate inside the lattice limit on both axes.
pub open spec fn in_lattice(c: Sq) -> bool {
    -LATTICE_LIMIT <= c.x <= LATTICE_LIMIT && -LATTICE_LIMIT <= c.y <= LATTICE_LIMIT
}

/// Rounding half up a value that lies between two integers lands between them.
proof fn lemma_half_up_between(v: int, n: int, lo: int, hi: int)
    requires
        n > 0,
        lo * n <= v <= hi * n,
    ensures
        lo <= (2 * v + n) / (2 * n) <= hi,
{
    let d = 2 * n;
    let x = 2 * v + n;
    lemma_fundamental_div_mod(x, d);
    let q = x / d;
    let r = x % d;
    assert(x == d * q + r && 0 <= r < d);
    assert(q <= hi) by (nonlinear_arith)
        requires
            x == d * q + r,
            0 <= r,
            d == 2 * n,
            x == 2 * v + n,
            v <= hi * n,
            n > 0,
    ;
    assert(lo <= q) by (nonlinear_arith)
        requires
            x == d * q + r,
            r < d,
            d == 2 * n,
            x == 2 * v + n,
            lo * n <= v,
            n > 0,
    ;
}

/// Rounding half away from zero a value that lies between two integers lands between them.
proof fn lemma_round_between(v: int, n: int, lo: int, hi: int)
    requires
        n > 0,
        lo * n <= v <= hi * n,
    ensures
        lo <= round_half_away(v, n) <= hi,
{
    if v >= 0 {
        lemma_half_up_between(v, n, lo, hi);
    } else {
        assert((-hi) * n <= -v <= (-lo) * n) by (nonlinear_arith)
            requires
                lo * n <= v <= hi * n,
        ;
        lemma_half_up_between(-v, n, -hi, -lo);
    }
}

/// One axis of a line sampled `t` of the way along `n` lies within `t` of its start, within
/// `n - t` of its end, between the two, and exactly `t` along when the axis spans all of `n`.
proof fn lemma_axis_between(a: int, b: int, t: int, n: int)
    requires
        -LATTICE_LIMIT <= a <= LATTICE_LIMIT,
        -LATTICE_LIMIT <= b <= LATTICE_LIMIT,
        0 < n,
        0 <= t <= n,
        iabs(b - a) <= n,
    ensures
        ({
            let x = sq_lerp_axis(a, b, t, n) as int;
            &&& iabs(x - a) <= t
            &&& iabs(b - x) <= n - t
            &&& a <= b ==> a <= x <= b
            &&& b <= a ==> b <= x <= a
            &&& -LATTICE_LIMIT <= x <= LATTICE_LIMIT
            &&& iabs(b - a) == n ==> iabs(x - a) == t && iabs(b - x) == n - t
        }),
{
    let v = lerp_num(a, b, t, n);
    assert(v == a * n + (b - a) * t);
    // Within `t` of the start.
    assert((a - t) * n <= v <= (a + t) * n) by (nonlinear_arith)
        requires
            v == a * n + (b - a) * t,
            -n <= b - a <= n,
            0 <= t,
    ;
    lemma_round_between(v, n, a - t, a + t);
    // Within `n - t` of the end.
    assert((b - (n - t)) * n <= v <= (b + (n - t)) * n) by (nonlinear_arith)
        requires
            v == a * n + (b - a) * t,
            -n <= b - a <= n,
            t <= n,
    ;
    lemma_round_between(v, n, b - (n - t), b + (n - t));
    // Between the two ends, so inside the lattice.
    let lo = if a < b { a } else { b };
    let hi = if a < b { b } else { a };
    assert(lo * n <= v <= hi * n) by (nonlinear_arith)
        requires
            v == a * n + (b - a) * t,
            0 <= t <= n,
            lo <= a <= hi,
            lo <= b <= hi,
    ;
    lemma_round_between(v, n, lo, hi);
    let r = round_half_away(v, n);
    assert(lattice_clamp(r) as int == r);
    if iabs(b - a) == n {
        if b >= a {
            assert(v == (a + t) * n) by (nonlinear_arith)
                requires
                    v == a * n + (b - a) * t,
                    b - a == n,
            ;
            lemma_round_between(v, n, a + t, a + t);
        } else {
            assert(v == (a - t) * n) by (nonlinear_arith)
                requires
                    v == a * n + (b - a) * t,
                    a - b == n,
            ;
            lemma_round_between(v, n, a - t, a - t);
        }
    }
}

/// A square line of Chebyshev length `n`, sampled `t` of the way along, lands `t` from its start
/// and `n - t` from its end.
pub proof fn lemma_sq_sample_between(a: Sq, b: Sq, t: int, n: int)
    requires
        in_lattice(a),
        in_lattice(b),
        n == imax(iabs(b.x - a.x), iabs(b.y - a.y)),
        0 < n,
        0 <= t <= n,
    ensures
        ({
            let p = sq_lerp_spec(a, b, t as u32, n as u32);
            &&& in_lattice(p)
            &&& pair_distance(a.x as int, a.y as int, p.x as int, p.y as int, MetricKind::Chebyshev, false) == t
            &&& pair_distance(p.x as int, p.y as int, b.x as int, b.y as int, MetricKind::Chebyshev, false) == n - t
        }),
{
    assert(n <= 2 * LATTICE_LIMIT);
    lemma_axis_between(a.x as int, b.x as int, t, n);
    lemma_axis_between(a.y as int, b.y as int, t, n);
}

// ---------------------------------------------------------------------------------------------
// Hex lines
// ---------------------------------------------------------------------------------------------

/// A hex coordinate inside the lattice limit on both axial axes.
pub open spec fn hex_in_lattice(c: Hex) -> bool {
    -LATTICE_LIMIT <= c.q <= LATTICE_LIMIT && -LATTICE_LIMIT <= c.r <= LATTICE_LIMIT
}

/// The cube distance of an axial offset is the largest of its three cube components.
proof fn lemma_hex_norm(u: int, v: int)
    ensures
        (iabs(u) + iabs(v) + iabs(u + v)) / 2 == imax(imax(iabs(u), iabs(v)), iabs(u + v)),
{
}

/// Rounding half up lands within half a unit: `-n < 2(r·n - v) <= n`.
proof fn lemma_half_up_error(v: int, n: int)
    requires
        n > 0,
    ensures
        -n < 2 * (round_half_up(v, n) * n - v) <= n,
{
    let d = 2 * n;
    let x = 2 * v + n;
    lemma_fundamental_div_mod(x, d);
    let q = x / d;
    assert(round_half_up(v, n) == q);
    assert(-n < 2 * (q * n - v) <= n) by (nonlinear_arith)
        requires
            x == d * q + x % d,
            0 <= x % d < d,
            d == 2 * n,
            x == 2 * v + n,
    ;
}

/// An integer whose multiple by `n` lies within half of `n` of a value between `lo·n` and `hi·n`
/// lies between `lo` and `hi`.
proof fn lemma_round_into(d: int, n: int, f: int, g: int, lo: int, hi: int)
    requires
        n > 0,
        d * n == f + g,
        -n <= 2 * f <= n,
        lo * n <= g <= hi * n,
    ensures
        lo <= d <= hi,
{
    if d > hi {
        assert(d * n >= (hi + 1) * n) by (nonlinear_arith)
            requires
                d >= hi + 1,
                n > 0,
        ;
        assert((hi + 1) * n == hi * n + n) by (nonlinear_arith);
    }
    if d < lo {
        assert(d * n <= (lo - 1) * n) by (nonlinear_arith)
            requires
                d <= lo - 1,
                n > 0,
        ;
        assert((lo - 1) * n == lo * n - n) by (nonlinear_arith);
    }
}

/// A multiple of `n` no more than half of `n` from zero is zero.
proof fn lemma_small_multiple(k: int, n: int)
    requires
        n > 0,
        -n <= 2 * (k * n) <= n,
    ensures
        k * n == 0,
{
    if k > 0 {
        assert(k * n >= n) by (nonlinear_arith)
            requires
                k >= 1,
                n > 0,
        ;
    }
    if k < 0 {
        assert(k * n <= -n) by (nonlinear_arith)
            requires
                k <= -1,
                n > 0,
        ;
    }
}

/// The axial cell a hex line rounds to at `t` of `n`, before clamping to the lattice: each cube
/// component rounded half up, then the one that drifted furthest recomputed from the other two.
pub open spec fn hex_pick(a: Hex, b: Hex, t: int, n: int) -> (int, int) {
    let x = lerp_num(a.q as int, b.q as int, t, n);
    let y = lerp_num(a.r as int, b.r as int, t, n);
    let rq = round_half_up(x, n);
    let rr = round_half_up(y, n);
    let rs = -round_half_up(x + y, n);
    let an = rq * n - x;
    let bn = rr * n - y;
    let cn = rs * n + x + y;
    let dq = iabs(an);
    let eq = if an > 0 { -1int } else { 1int };
    let dr = iabs(bn);
    let er = if bn > 0 { -1int } else { 1int };
    let ds = iabs(cn);
    let es = if cn >= 0 { 2int } else { -2int };
    if eps_gt(dq, eq, dr, er) && eps_gt(dq, eq, ds, es) {
        (-rr - rs, rr)
    } else if eps_gt(dr, er, ds, es) {
        (rq, -rq - rs)
    } else {
        (rq, rr)
    }
}

/// The rounded hex point ends within half a unit of the true point on all three cube components.
///
/// The component along which the line spans all of `n` is sampled exactly, so it is recomputed
/// from the other two only when every component is exact.
proof fn lemma_hex_pick_near(a: Hex, b: Hex, t: int, n: int)
    requires
        n == imax(imax(iabs(b.q - a.q), iabs(b.r - a.r)), iabs((b.q - a.q) + (b.r - a.r))),
        0 < n,
        0 <= t <= n,
    ensures
        ({
            let (pq, pr) = hex_pick(a, b, t, n);
            let x = lerp_num(a.q as int, b.q as int, t, n);
            let y = lerp_num(a.r as int, b.r as int, t, n);
            &&& -n <= 2 * (pq * n - x) <= n
            &&& -n <= 2 * (pr * n - y) <= n
            &&& -n <= 2 * ((-pq - pr) * n + x + y) <= n
        }),
{
    let (dq0, dr0) = (b.q - a.q, b.r - a.r);
    let ds0 = -(dq0 + dr0);
    let x = lerp_num(a.q as int, b.q as int, t, n);
    let y = lerp_num(a.r as int, b.r as int, t, n);
    let rq = round_half_up(x, n);
    let rr = round_half_up(y, n);
    let big = round_half_up(x + y, n);
    let rs = -big;
    let an = rq * n - x;
    let bn = rr * n - y;
    let cn = rs * n + x + y;
    lemma_half_up_error(x, n);
    lemma_half_up_error(y, n);
    lemma_half_up_error(x + y, n);
    assert(cn == -(big * n - (x + y))) by (nonlinear_arith)
        requires
            cn == rs * n + x + y,
            rs == -big,
    ;
    let dq = iabs(an);
    let eq = if an > 0 { -1int } else { 1int };
    let dr = iabs(bn);
    let er = if bn > 0 { -1int } else { 1int };
    let ds = iabs(cn);
    let es = if cn >= 0 { 2int } else { -2int };
    let k = rq + rr + rs;
    assert(an + bn + cn == k * n) by (nonlinear_arith)
        requires
            an == rq * n - x,
            bn == rr * n - y,
            cn == rs * n + x + y,
            k == rq + rr + rs,
    ;
    // The component that spans the whole line is sampled exactly.
    assert(x == a.q * n + dq0 * t && y == a.r * n + dr0 * t);
    assert(x + y == (a.q + a.r) * n + (dq0 + dr0) * t) by (nonlinear_arith)
        requires
            x == a.q * n + dq0 * t,
            y == a.r * n + dr0 * t,
    ;
    if dq0 == n {
        assert(x == (a.q + t) * n) by (nonlinear_arith)
            requires
                x == a.q * n + dq0 * t,
                dq0 == n,
        ;
        lemma_round_into(rq, n, an, x, a.q + t, a.q + t);
    } else if dq0 == -n {
        assert(x == (a.q - t) * n) by (nonlinear_arith)
            requires
                x == a.q * n + dq0 * t,
                dq0 == -n,
        ;
        lemma_round_into(rq, n, an, x, a.q - t, a.q - t);
    }
    if dr0 == n {
        assert(y == (a.r + t) * n) by (nonlinear_arith)
            requires
                y == a.r * n + dr0 * t,
                dr0 == n,
        ;
        lemma_round_into(rr, n, bn, y, a.r + t, a.r + t);
    } else if dr0 == -n {
        assert(y == (a.r - t) * n) by (nonlinear_arith)
            requires
                y == a.r * n + dr0 * t,
                dr0 == -n,
        ;
        lemma_round_into(rr, n, bn, y, a.r - t, a.r - t);
    }
    assert((-rs) * n == -cn + (x + y)) by (nonlinear_arith)
        requires
            cn == rs * n + x + y,
    ;
    if ds0 == n {
        assert(x + y == (a.q + a.r - t) * n) by (nonlinear_arith)
            requires
                x + y == (a.q + a.r) * n + (dq0 + dr0) * t,
                ds0 == -(dq0 + dr0),
                ds0 == n,
        ;
        lemma_round_into(-rs, n, -cn, x + y, a.q + a.r - t, a.q + a.r - t);
    } else if ds0 == -n {
        assert(x + y == (a.q + a.r + t) * n) by (nonlinear_arith)
            requires
                x + y == (a.q + a.r) * n + (dq0 + dr0) * t,
                ds0 == -(dq0 + dr0),
                ds0 == -n,
        ;
        lemma_round_into(-rs, n, -cn, x + y, a.q + a.r + t, a.q + a.r + t);
    }
    assert(an == 0 || bn == 0 || cn == 0);
    let (pq, pr) = hex_pick(a, b, t, n);
    if eps_gt(dq, eq, dr, er) && eps_gt(dq, eq, ds, es) {
        assert(pq * n - x == -bn - cn) by (nonlinear_arith)
            requires
                pq == -rr - rs,
                bn == rr * n - y,
                cn == rs * n + x + y,
        ;
        assert((-pq - pr) * n + x + y == cn) by (nonlinear_arith)
            requires
                pq == -rr - rs,
                pr == rr,
                cn == rs * n + x + y,
        ;
        if an == 0 {
            assert(dr == 0 && ds == 0);
        }
    } else if eps_gt(dr, er, ds, es) {
        assert(pr * n - y == -an - cn) by (nonlinear_arith)
            requires
                pr == -rq - rs,
                an == rq * n - x,
                cn == rs * n + x + y,
        ;
        assert((-pq - pr) * n + x + y == cn) by (nonlinear_arith)
            requires
                pq == rq,
                pr == -rq - rs,
                cn == rs * n + x + y,
        ;
        if bn == 0 {
            assert(ds == 0);
            lemma_small_multiple(k, n);
        }
    } else {
        assert((-pq - pr) * n + x + y == -an - bn) by (nonlinear_arith)
            requires
                pq == rq,
                pr == rr,
                an == rq * n - x,
                bn == rr * n - y,
        ;
        if cn == 0 {
            assert(dr == 0);
            lemma_small_multiple(k, n);
        }
    }
}

/// One cube component of a hex line, within half a unit of the true point `t` of the way along
/// `n`, lies within `t` of the start and `n - t` of the end, exactly so when it spans the line,
/// and between the ends.
proof fn lemma_component_between(p: int, a: int, b: int, t: int, n: int)
    requires
        0 < n,
        0 <= t <= n,
        iabs(b - a) <= n,
        -n <= 2 * (p * n - lerp_num(a, b, t, n)) <= n,
    ensures
        iabs(p - a) <= t,
        iabs(b - p) <= n - t,
        a <= b ==> a <= p <= b,
        b <= a ==> b <= p <= a,
        iabs(b - a) == n ==> iabs(p - a) == t && iabs(b - p) == n - t,
{
    let v = lerp_num(a, b, t, n);
    let f = p * n - v;
    let u = n - t;
    assert((p - a) * n == f + (b - a) * t) by (nonlinear_arith)
        requires
            f == p * n - v,
            v == a * n + (b - a) * t,
    ;
    assert((b - p) * n == -f + (b - a) * u) by (nonlinear_arith)
        requires
            f == p * n - v,
            v == a * n + (b - a) * t,
            u == n - t,
    ;
    assert(-t * n <= (b - a) * t <= t * n && -u * n <= (b - a) * u <= u * n) by (nonlinear_arith)
        requires
            -n <= b - a <= n,
            0 <= t,
            0 <= u,
    ;
    lemma_round_into(p - a, n, f, (b - a) * t, -t, t);
    lemma_round_into(b - p, n, -f, (b - a) * u, -u, u);
    if b - a == n {
        assert((b - a) * t == t * n && (b - a) * u == u * n) by (nonlinear_arith)
            requires
                b - a == n,
        ;
        lemma_round_into(p - a, n, f, (b - a) * t, t, t);
        lemma_round_into(b - p, n, -f, (b - a) * u, u, u);
    } else if b - a == -n {
        assert((b - a) * t == -t * n && (b - a) * u == -u * n) by (nonlinear_arith)
            requires
                b - a == -n,
        ;
        lemma_round_into(p - a, n, f, (b - a) * t, -t, -t);
        lemma_round_into(b - p, n, -f, (b - a) * u, -u, -u);
    }
    if a <= b {
        assert(a * n <= v <= b * n) by (nonlinear_arith)
            requires
                v == a * n + (b - a) * t,
                0 <= t <= n,
                a <= b,
        ;
        lemma_round_into(p, n, f, v, a, b);
    }
    if b <= a {
        assert(b * n <= v <= a * n) by (nonlinear_arith)
            requires
                v == a * n + (b - a) * t,
                0 <= t <= n,
                b <= a,
        ;
        lemma_round_into(p, n, f, v, b, a);
    }
}

/// A hex line of cube length `n`, sampled `t` of the way along, lands `t` from its start and
/// `n - t` from its end.
pub proof fn lemma_hex_sample_between(a: Hex, b: Hex, t: int, n: int)
    requires
        hex_in_lattice(a),
        hex_in_lattice(b),
        n == (iabs(b.q - a.q) + iabs(b.r - a.r) + iabs((b.q - a.q) + (b.r - a.r))) / 2,
        0 < n,
        0 <= t <= n,
    ensures
        ({
            let p = hex_lerp_spec(a, b, t as u32, n as u32);
            &&& hex_in_lattice(p)
            &&& pair_distance(a.q as int, a.r as int, p.q as int, p.r as int, MetricKind::Hex, true) == t
            &&& pair_distance(p.q as int, p.r as int, b.q as int, b.r as int, MetricKind::Hex, true) == n - t
        }),
{
    lemma_hex_norm(b.q - a.q, b.r - a.r);
    assert(n <= 0xffff_ffff);
    assert((t as u32) as int == t && (n as u32) as int == n);
    lemma_hex_pick_near(a, b, t, n);
    let (pq, pr) = hex_pick(a, b, t, n);
    let x = lerp_num(a.q as int, b.q as int, t, n);
    let y = lerp_num(a.r as int, b.r as int, t, n);
    let (sa, sb) = (-a.q - a.r, -b.q - b.r);
    assert(lerp_num(sa, sb, t, n) == -(x + y)) by (nonlinear_arith)
        requires
            x == a.q * n + (b.q - a.q) * t,
            y == a.r * n + (b.r - a.r) * t,
            sa == -a.q - a.r,
            sb == -b.q - b.r,
    ;
    lemma_component_between(pq, a.q as int, b.q as int, t, n);
    lemma_component_between(pr, a.r as int, b.r as int, t, n);
    lemma_component_between(-pq - pr, sa, sb, t, n);
    assert(hex_lerp_spec(a, b, t as u32, n as u32) == Hex { q: lattice_clamp(pq), r: lattice_clamp(pr) });
    lemma_hex_norm(a.q - pq, a.r - pr);
    lemma_hex_norm(pq - b.q, pr - b.r);
}

// ---------------------------------------------------------------------------------------------
// Which cells a line holds
// ---------------------------------------------------------------------------------------------

/// Every cell a line's samples land on is a sample of it.
proof fn lemma_samples_sampled<C: Coord>(m: Model<C>, lo: int, hi: int, n: int, t: nat)
    ensures
        forall|k: int|
            #![trigger samples(m, lo, hi, n, t)[k]]
            0 <= k < samples(m, lo, hi, n, t).len() ==> 0 <= samples(m, lo, hi, n, t)[k] <= u32::MAX && exists|u: int|
                0 <= u < t && #[trigger] sample(m, lo, hi, u, n) == Some(idx(samples(m, lo, hi, n, t)[k])),
    decreases t,
{
    if t > 0 {
        lemma_samples_sampled(m, lo, hi, n, (t - 1) as nat);
        let prev = samples(m, lo, hi, n, (t - 1) as nat);
        let cur = samples(m, lo, hi, n, t);
        assert forall|k: int| #![trigger cur[k]] 0 <= k < cur.len() implies 0 <= cur[k] <= u32::MAX && exists|u: int|
            0 <= u < t && #[trigger] sample(m, lo, hi, u, n) == Some(idx(cur[k])) by {
            if k < prev.len() {
                assert(cur[k] == prev[k]);
                let u = choose|u: int| 0 <= u < t - 1 && #[trigger] sample(m, lo, hi, u, n) == Some(idx(prev[k]));
                assert(sample(m, lo, hi, u, n) == Some(idx(cur[k])));
            } else {
                let j = sample(m, lo, hi, t - 1, n)->0;
                assert(cur[k] == j.id());
                assert(sample(m, lo, hi, t - 1, n) == Some(idx(cur[k])));
            }
        }
    }
}

/// A cell of a short line, its ends aside, is a cell of the board the line samples at some
/// `u` of its `n` steps.
proof fn lemma_dense_cell<C: Coord>(m: Model<C>, lo: int, hi: int, x: int)
    requires
        m.laws(),
        dense_line(m, lo, hi).contains(x),
        x != lo,
        x != hi,
    ensures
        exists|u: int|
            0 <= u <= steps_of(m, lo, hi) && m.valid(x) && #[trigger] C::spec_lerp(
                m.cells[lo],
                m.cells[hi],
                u as u32,
                steps_of(m, lo, hi) as u32,
            ) == m.cells[x],
{
    let ns = steps_of(m, lo, hi);
    let smp = samples(m, lo, hi, ns, (ns + 1) as nat);
    lemma_samples_sampled(m, lo, hi, ns, (ns + 1) as nat);
    let s1 = if smp.len() > 0 && smp[0] == lo {
        smp
    } else {
        seq![lo] + smp
    };
    assert(s1.contains(x));
    let q = choose|q: int| 0 <= q < s1.len() && s1[q] == x;
    let q0 = if smp.len() > 0 && smp[0] == lo {
        q
    } else {
        q - 1
    };
    assert(smp[q0] == x);
    let u = choose|u: int| 0 <= u < ns + 1 && #[trigger] sample(m, lo, hi, u, ns) == Some(idx(smp[q0]));
    let c = C::spec_lerp(m.cells[lo], m.cells[hi], u as u32, ns as u32);
    assert(m.index_of(c) == Some(idx(x)));
    assert(m.cells.contains(c));
    let w = m.cells.index_of(c);
    assert(0 <= w < m.cells.len() && m.cells[w] == c);
    assert(idx(w) == idx(x));
    assert(idx(w).id() == w);
    assert(0 <= x <= u32::MAX);
    assert(idx(x).id() == x);
}

/// Dropping values from a list of distinct values leaves it distinct.
proof fn lemma_filter_distinct(s: Seq<int>, p: spec_fn(int) -> bool)
    requires
        s.no_duplicates(),
    ensures
        s.filter(p).no_duplicates(),
    decreases s.len(),
{
    reveal(Seq::filter);
    if s.len() > 0 {
        let r = s.drop_last();
        assert(r.no_duplicates());
        lemma_filter_distinct(r, p);
        if p(s.last()) && r.filter(p).contains(s.last()) {
            r.lemma_filter_contains_rev(p, s.last());
            let i = choose|i: int| 0 <= i < r.len() && r[i] == s.last();
            assert(s[i] == s[s.len() - 1]);
        }
    }
}

/// Some list holds a long line's cells in order along it: the board's cells on the line, sorted.
pub proof fn lemma_sparse_exists<C: Coord>(m: Model<C>, lo: int, hi: int)
    ensures
        sparse_ok(m, lo, hi, sparse_line(m, lo, hi)),
{
    broadcast use vstd::seq_lib::group_to_multiset_ensures, vstd::seq_lib::group_filter_ensures;

    let base = Seq::new(m.len(), |i: int| i);
    let p = |x: int| on_line(m, lo, hi, x);
    let f = base.filter(p);
    let leq = |x: int, y: int| x == y || line_before(m, lo, x, y);
    assert(total_ordering(leq));
    let s = f.sort_by(leq);
    f.lemma_sort_by_ensures(leq);
    lemma_filter_distinct(base, p);
    f.lemma_multiset_has_no_duplicates();
    assert forall|x: int| s.to_multiset().contains(x) implies s.to_multiset().count(x) == 1 by {
        assert(f.to_multiset().contains(x));
    }
    s.lemma_multiset_has_no_duplicates_conv();
    assert forall|x: int| #[trigger] s.contains(x) <==> (m.valid(x) && on_line(m, lo, hi, x)) by {
        if s.contains(x) {
            assert(s.to_multiset().count(x) > 0);
            assert(f.contains(x));
            let k = choose|k: int| 0 <= k < f.len() && f[k] == x;
            assert(p(f[k]));
            base.lemma_filter_contains_rev(p, x);
        }
        if m.valid(x) && on_line(m, lo, hi, x) {
            assert(base[x] == x);
            assert(f.contains(base[x]));
            assert(f.to_multiset().count(x) > 0);
        }
    }
    assert forall|a: int, b: int| 0 <= a < b < s.len() implies line_before(m, lo, #[trigger] s[a], #[trigger] s[b]) by {
        assert(leq(s[a], s[b]));
    }
    assert(sparse_ok(m, lo, hi, s));
}

/// The point of the line from cell `p` to cell `q` sampled `t` of the way along its length.
pub open spec fn lerp_at<C: Coord>(m: Model<C>, p: int, q: int, t: int) -> C {
    C::spec_lerp(m.cells[p], m.cells[q], t as u32, m.dist(p, q))
}

/// Every sample of the line from `p` to `q` lies between them: its distances from the two ends
/// add up to the line's length.
pub open spec fn samples_between<C: Coord>(m: Model<C>, p: int, q: int) -> bool {
    forall|t: int|
        0 <= t <= m.dist(p, q) ==> m.cells[p].spec_distance(#[trigger] lerp_at(m, p, q, t), m.metric.spec_kind())
            + lerp_at(m, p, q, t).spec_distance(m.cells[q], m.metric.spec_kind()) == m.dist(p, q)
}

/// Every cell of a straight line lies between its ends, when the line's samples do: its distance
/// from one end and its distance from the other add up to the line's length.
proof fn lemma_line_between<C: Coord>(m: Model<C>, a: int, b: int)
    requires
        m.laws(),
        m.valid(a),
        m.valid(b),
        a != b ==> m.dist(a, b) > 0 && samples_between(m, a, b) && samples_between(m, b, a),
    ensures
        forall|k: int|
            0 <= k < line_of(m, a, b).len() ==> m.valid(#[trigger] line_of(m, a, b)[k]) && m.dist(a, line_of(m, a, b)[k])
                + m.dist(line_of(m, a, b)[k], b) == m.dist(a, b),
{
    let kind = m.metric.spec_kind();
    let line = line_of(m, a, b);
    C::lemma_metric(m.cells[a], m.cells[a], m.cells[b], kind);
    C::lemma_metric(m.cells[b], m.cells[b], m.cells[a], kind);
    if !m.metric.spec_has_lerp() || a == b {
        return;
    }
    let lo = low_end(m, a, b);
    let hi = if lo == a { b } else { a };
    let n = m.dist(lo, hi) as int;
    C::lemma_metric(m.cells[lo], m.cells[hi], m.cells[lo], kind);
    assert(n > 0 && samples_between(m, lo, hi));
    assert forall|k: int| 0 <= k < line.len() implies m.valid(#[trigger] line[k]) && m.dist(lo, line[k]) + m.dist(line[k], hi)
        == n by {
        let fwd = forward_line(m, lo, hi);
        let kk = if lo == a { k } else { fwd.len() - 1 - k };
        assert(line[k] == fwd[kk]);
        let x = fwd[kk];
        C::lemma_metric(m.cells[lo], m.cells[lo], m.cells[hi], kind);
        C::lemma_metric(m.cells[hi], m.cells[hi], m.cells[lo], kind);
        if m.dist(lo, hi) > m.len() {
            lemma_sparse_exists(m, lo, hi);
            let mid = sparse_line(m, lo, hi);
            if 0 < kk < fwd.len() - 1 {
                assert(x == mid[kk - 1]);
                assert(mid.contains(x));
                assert(on_line(m, lo, hi, x));
                let t = m.dist(lo, x) as int;
                assert(lerp_at(m, lo, hi, t) == m.cells[x]);
            }
        } else {
            assert(steps_of(m, lo, hi) == n);
            if x != lo && x != hi {
                assert(fwd.contains(x));
                lemma_dense_cell(m, lo, hi, x);
                let u = choose|u: int|
                    0 <= u <= n && m.valid(x) && #[trigger] C::spec_lerp(m.cells[lo], m.cells[hi], u as u32, n as u32)
                        == m.cells[x];
                assert(lerp_at(m, lo, hi, u) == m.cells[x]);
            }
        }
    }
    assert forall|k: int| 0 <= k < line.len() implies m.valid(#[trigger] line[k]) && m.dist(a, line[k]) + m.dist(line[k], b)
        == m.dist(a, b) by {
        let x = line[k];
        C::lemma_metric(m.cells[a], m.cells[x], m.cells[b], kind);
        C::lemma_metric(m.cells[b], m.cells[x], m.cells[a], kind);
        C::lemma_metric(m.cells[x], m.cells[a], m.cells[b], kind);
    }
}

/// On a square board inside the lattice, measured by Chebyshev or Manhattan distance, the
/// samples of a line lie between its ends.
proof fn lemma_sq_samples_between(m: Model<Sq>, p: int, q: int)
    requires
        m.laws(),
        m.valid(p),
        m.valid(q),
        p != q,
        m.metric.spec_kind() == MetricKind::Chebyshev || m.metric.spec_kind() == MetricKind::Manhattan,
        in_lattice(m.cells[p]),
        in_lattice(m.cells[q]),
    ensures
        m.dist(p, q) > 0,
        samples_between(m, p, q),
{
    let (a, b) = (m.cells[p], m.cells[q]);
    assert(a != b);
    let n = m.dist(p, q) as int;
    let kind = m.metric.spec_kind();
    if kind == MetricKind::Chebyshev {
        assert(n == imax(iabs(b.x - a.x), iabs(b.y - a.y)));
    } else {
        assert(n == iabs(b.x - a.x) + iabs(b.y - a.y));
    }
    assert forall|t: int| 0 <= t <= m.dist(p, q) implies m.cells[p].spec_distance(#[trigger] lerp_at(m, p, q, t), kind)
        + lerp_at(m, p, q, t).spec_distance(m.cells[q], kind) == m.dist(p, q) by {
        assert((n as u32) == m.dist(p, q));
        if kind == MetricKind::Chebyshev {
            lemma_sq_sample_between(a, b, t, n);
        } else {
            lemma_axis_between(a.x as int, b.x as int, t, n);
            lemma_axis_between(a.y as int, b.y as int, t, n);
        }
    }
}

/// On a hex board inside the lattice, the samples of a line lie between its ends.
proof fn lemma_hex_samples_between(m: Model<Hex>, p: int, q: int)
    requires
        m.laws(),
        m.valid(p),
        m.valid(q),
        p != q,
        m.metric.spec_kind() == MetricKind::Hex,
        hex_in_lattice(m.cells[p]),
        hex_in_lattice(m.cells[q]),
    ensures
        m.dist(p, q) > 0,
        samples_between(m, p, q),
{
    let (a, b) = (m.cells[p], m.cells[q]);
    assert(a != b);
    lemma_hex_norm(b.q - a.q, b.r - a.r);
    lemma_hex_norm(a.q - b.q, a.r - b.r);
    let n = m.dist(p, q) as int;
    assert(n == (iabs(b.q - a.q) + iabs(b.r - a.r) + iabs((b.q - a.q) + (b.r - a.r))) / 2);
    assert forall|t: int| 0 <= t <= m.dist(p, q) implies m.cells[p].spec_distance(
        #[trigger] lerp_at(m, p, q, t),
        m.metric.spec_kind(),
    ) + lerp_at(m, p, q, t).spec_distance(m.cells[q], m.metric.spec_kind()) == m.dist(p, q) by {
        assert((n as u32) == m.dist(p, q));
        lemma_hex_sample_between(a, b, t, n);
    }
}

// ---------------------------------------------------------------------------------------------
// Sight over a height field is mutual
// ---------------------------------------------------------------------------------------------

/// Whether `a` sees `b` over a height field: no cell of the line between them, its ends aside,
/// pokes above the sight line.
pub open spec fn clear_over<C: Coord, T: Fn(Idx) -> i32, L: Fn(Idx) -> i32>(
    m: Model<C>,
    top: &T,
    looks_from: &L,
    a: int,
    b: int,
) -> bool {
    forall|k: int|
        0 <= k < line_of(m, a, b).len() ==> #[trigger] line_of(m, a, b)[k] == a || line_of(m, a, b)[k] == b || !blocks_sight(
            m,
            top,
            looks_from,
            Sight { eye: idx(a), at: idx(line_of(m, a, b)[k]), target: idx(b) },
        )
}

/// Over a height field, `a` sees `b` exactly when `b` sees `a`, on a board whose line between
/// them holds only cells between them.
proof fn lemma_clear_over_mutual<C: Coord, T: Fn(Idx) -> i32, L: Fn(Idx) -> i32>(
    m: Model<C>,
    top: &T,
    looks_from: &L,
    a: int,
    b: int,
)
    requires
        m.laws(),
        m.valid(a),
        m.valid(b),
        forall|k: int|
            0 <= k < line_of(m, a, b).len() ==> m.valid(#[trigger] line_of(m, a, b)[k]) && m.dist(a, line_of(m, a, b)[k])
                + m.dist(line_of(m, a, b)[k], b) == m.dist(a, b),
    ensures
        clear_over(m, top, looks_from, a, b) == clear_over(m, top, looks_from, b, a),
{
    lemma_line_symmetric(m, a, b);
    let s = line_of(m, a, b);
    let t = line_of(m, b, a);
    assert(t.reverse().reverse() =~= t);
    assert forall|k: int| 0 <= k < s.len() && s[k] != a && s[k] != b implies blocks_sight(
        m,
        top,
        looks_from,
        Sight { eye: idx(a), at: idx(s[k]), target: idx(b) },
    ) == blocks_sight(m, top, looks_from, Sight { eye: idx(b), at: idx(s[k]), target: idx(a) }) by {
        assert(m.valid(s[k]));
        lemma_sight_symmetric(m, top, looks_from, Sight { eye: idx(a), at: idx(s[k]), target: idx(b) });
    }
    if clear_over(m, top, looks_from, a, b) {
        assert forall|k: int| 0 <= k < t.len() implies #[trigger] t[k] == b || t[k] == a || !blocks_sight(
            m,
            top,
            looks_from,
            Sight { eye: idx(b), at: idx(t[k]), target: idx(a) },
        ) by {
            assert(t[k] == s[s.len() - 1 - k]);
        }
    }
    if clear_over(m, top, looks_from, b, a) {
        assert forall|k: int| 0 <= k < s.len() implies #[trigger] s[k] == a || s[k] == b || !blocks_sight(
            m,
            top,
            looks_from,
            Sight { eye: idx(a), at: idx(s[k]), target: idx(b) },
        ) by {
            assert(s[k] == t[t.len() - 1 - k]);
        }
    }
}

/// Through a gate that reads heights, a sighting answered as [`Grid::los_by`] answers is the
/// height test itself: seen exactly when no cell between pokes above the sight line.
///
/// [`Grid::los_by`]: crate::Grid::los_by
pub proof fn lemma_gate_answers_height<C: Coord, T: Fn(Idx) -> i32, L: Fn(Idx) -> i32, B: Fn(Sight) -> bool>(
    m: Model<C>,
    top: &T,
    looks_from: &L,
    gate: B,
    a: int,
    b: int,
    seen: bool,
)
    requires
        m.valid(a),
        m.valid(b),
        forall|k: int| 0 <= k < line_of(m, a, b).len() ==> m.valid(#[trigger] line_of(m, a, b)[k]),
        reads_height(m, top, looks_from, gate),
        seen == clear_by(m, a, b, gate),
        seen ==> seen_by(m, a, b, gate),
    ensures
        seen == clear_over(m, top, looks_from, a, b),
{
    let s = line_of(m, a, b);
    if seen {
        assert forall|k: int| 0 <= k < s.len() implies #[trigger] s[k] == a || s[k] == b || !blocks_sight(
            m,
            top,
            looks_from,
            Sight { eye: idx(a), at: idx(s[k]), target: idx(b) },
        ) by {
            assert(m.valid(s[k]));
        }
    } else {
        let k = choose|k: int|
            0 <= k < s.len() && !(#[trigger] s[k] == a || s[k] == b || !verdict(
                gate,
                Sight { eye: idx(a), at: idx(s[k]), target: idx(b) },
            ));
        assert(m.valid(s[k]));
    }
}

/// Sight over a height field is mutual on a square board: through a gate that reads heights, what
/// [`Grid::los_by`] answers looking from `a` to `b` it answers looking back, under eight-way
/// (Chebyshev) and four-way (Manhattan) distance alike.
///
/// [`Grid::los_by`]: crate::Grid::los_by
pub proof fn lemma_height_sight_mutual<T: Fn(Idx) -> i32, L: Fn(Idx) -> i32, B: Fn(Sight) -> bool>(
    m: Model<Sq>,
    top: &T,
    looks_from: &L,
    gate: B,
    a: int,
    b: int,
    there: bool,
    back: bool,
)
    requires
        m.laws(),
        m.valid(a),
        m.valid(b),
        m.metric.spec_kind() == MetricKind::Chebyshev || m.metric.spec_kind() == MetricKind::Manhattan,
        in_lattice(m.cells[a]),
        in_lattice(m.cells[b]),
        reads_height(m, top, looks_from, gate),
        there == clear_by(m, a, b, gate),
        there ==> seen_by(m, a, b, gate),
        back == clear_by(m, b, a, gate),
        back ==> seen_by(m, b, a, gate),
    ensures
        there == back,
{
    if a != b {
        lemma_sq_samples_between(m, a, b);
        lemma_sq_samples_between(m, b, a);
    }
    lemma_line_between(m, a, b);
    lemma_line_between(m, b, a);
    lemma_gate_answers_height(m, top, looks_from, gate, a, b, there);
    lemma_gate_answers_height(m, top, looks_from, gate, b, a, back);
    lemma_clear_over_mutual(m, top, looks_from, a, b);
}

/// Sight over a height field is mutual on a hex board: through a gate that reads heights, what
/// [`Grid::los_by`] answers looking from `a` to `b` it answers looking back.
///
/// [`Grid::los_by`]: crate::Grid::los_by
pub proof fn lemma_height_sight_mutual_hex<T: Fn(Idx) -> i32, L: Fn(Idx) -> i32, B: Fn(Sight) -> bool>(
    m: Model<Hex>,
    top: &T,
    looks_from: &L,
    gate: B,
    a: int,
    b: int,
    there: bool,
    back: bool,
)
    requires
        m.laws(),
        m.valid(a),
        m.valid(b),
        m.metric.spec_kind() == MetricKind::Hex,
        hex_in_lattice(m.cells[a]),
        hex_in_lattice(m.cells[b]),
        reads_height(m, top, looks_from, gate),
        there == clear_by(m, a, b, gate),
        there ==> seen_by(m, a, b, gate),
        back == clear_by(m, b, a, gate),
        back ==> seen_by(m, b, a, gate),
    ensures
        there == back,
{
    if a != b {
        lemma_hex_samples_between(m, a, b);
        lemma_hex_samples_between(m, b, a);
    }
    lemma_line_between(m, a, b);
    lemma_line_between(m, b, a);
    lemma_gate_answers_height(m, top, looks_from, gate, a, b, there);
    lemma_gate_answers_height(m, top, looks_from, gate, b, a, back);
    lemma_clear_over_mutual(m, top, looks_from, a, b);
}

} // verus!
