//! Straight lines across a board, as values.
//!
//! A line is drawn from the lower coordinate of its two ends to the higher one and flipped when
//! asked the other way round, so `line(a, b)` is always `line(b, a)` reversed. A short line is
//! sampled one lattice step at a time; a line much longer than the board has cells is found by
//! asking each cell where on the line it would sit.

use vstd::prelude::*;
use crate::coord::{Coord, Idx, idx};
use crate::grid::{Model, Sight};
use crate::path::verdict;
use crate::height::{blocks_sight, value_at};

verus! {

broadcast use crate::coord::group_idx;

/// The numbers of a list of indices.
pub open spec fn nums(s: Seq<Idx>) -> Seq<int> {
    s.map_values(|i: Idx| i.id())
}

/// The cell of the board the line from `lo` to `hi` passes `t/n` of the way along, if any.
pub open spec fn sample<C: Coord>(m: Model<C>, lo: int, hi: int, t: int, n: int) -> Option<Idx> {
    m.index_of(C::spec_lerp(m.cells[lo], m.cells[hi], t as u32, n as u32))
}

/// The cells the first `t` samples of the line land on, a cell sampled twice in a row kept once.
pub open spec fn samples<C: Coord>(m: Model<C>, lo: int, hi: int, n: int, t: nat) -> Seq<int>
    decreases t,
{
    if t == 0 {
        seq![]
    } else {
        let prev = samples(m, lo, hi, n, (t - 1) as nat);
        match sample(m, lo, hi, t - 1, n) {
            Some(j) => if prev.len() > 0 && prev.last() == j.id() {
                prev
            } else {
                prev.push(j.id())
            },
            None => prev,
        }
    }
}

/// How many steps a short line is sampled in: its length, and at least one.
pub open spec fn steps_of<C: Coord>(m: Model<C>, lo: int, hi: int) -> int {
    if m.dist(lo, hi) == 0 {
        1
    } else {
        m.dist(lo, hi) as int
    }
}

/// A short line from `lo` to `hi`: every sample, then both ends made sure of.
pub open spec fn dense_line<C: Coord>(m: Model<C>, lo: int, hi: int) -> Seq<int> {
    let n = steps_of(m, lo, hi);
    let s = samples(m, lo, hi, n, (n + 1) as nat);
    let s1 = if s.len() > 0 && s[0] == lo {
        s
    } else {
        seq![lo] + s
    };
    if s1.last() == hi {
        s1
    } else {
        s1.push(hi)
    }
}

/// Whether cell `j` lies on a long line from `lo` to `hi` between its ends: a cell other than the
/// ends that the line rounds to at the cell's own distance from `lo`.
pub open spec fn on_line<C: Coord>(m: Model<C>, lo: int, hi: int, j: int) -> bool {
    &&& j != lo
    &&& j != hi
    &&& m.dist(lo, j) <= m.dist(lo, hi)
    &&& C::spec_lerp(m.cells[lo], m.cells[hi], m.dist(lo, j), m.dist(lo, hi)) == m.cells[j]
}

/// Whether `x` comes before `y` along a line from `lo`: nearer first, then the lower index.
pub open spec fn line_before<C: Coord>(m: Model<C>, lo: int, x: int, y: int) -> bool {
    m.dist(lo, x) < m.dist(lo, y) || (m.dist(lo, x) == m.dist(lo, y) && x < y)
}

/// A list of the cells on a long line between its ends, each once, in order along the line.
pub open spec fn sparse_ok<C: Coord>(m: Model<C>, lo: int, hi: int, s: Seq<int>) -> bool {
    &&& forall|x: int| #[trigger] s.contains(x) <==> (m.valid(x) && on_line(m, lo, hi, x))
    &&& forall|a: int, b: int| 0 <= a < b < s.len() ==> line_before(m, lo, #[trigger] s[a], #[trigger] s[b])
}

/// The cells on a long line between its ends, in order along it.
pub open spec fn sparse_line<C: Coord>(m: Model<C>, lo: int, hi: int) -> Seq<int> {
    choose|s: Seq<int>| sparse_ok(m, lo, hi, s)
}

/// The line from `lo` to `hi`, drawn from `lo`: sampled when it is no longer than the board has
/// cells, and otherwise the cells found between its two ends.
pub open spec fn forward_line<C: Coord>(m: Model<C>, lo: int, hi: int) -> Seq<int> {
    if m.dist(lo, hi) > m.len() {
        seq![lo] + sparse_line(m, lo, hi) + seq![hi]
    } else {
        dense_line(m, lo, hi)
    }
}

/// Of two distinct cells, the one a line between them is drawn from.
pub open spec fn low_end<C: Coord>(m: Model<C>, a: int, b: int) -> int {
    if m.cells[a].spec_lt(m.cells[b]) {
        a
    } else {
        b
    }
}

/// The straight line from `a` to `b`, as cell numbers in order: what [`Grid::line`] answers.
///
/// Empty when the metric draws no lines, and `a` alone from a cell to itself. Otherwise drawn
/// from the lower coordinate to the higher, both ends always present, first and last: sampled
/// when the line is no longer than the board has cells, and otherwise its ends around the cells
/// found by scanning the board; then reversed when `a` is the higher end.
///
/// [`Grid::line`]: crate::Grid::line
pub open spec fn line_of<C: Coord>(m: Model<C>, a: int, b: int) -> Seq<int> {
    if !m.metric.spec_has_lerp() {
        seq![]
    } else if a == b {
        seq![a]
    } else {
        let lo = low_end(m, a, b);
        let hi = if lo == a {
            b
        } else {
            a
        };
        let fwd = forward_line(m, lo, hi);
        if lo == a {
            fwd
        } else {
            fwd.reverse()
        }
    }
}

/// Whether `a` sees `b` when `blocks` says which sightings are stopped: no cell of the line
/// between them, its ends aside, is blocked for this looker and this target.
pub open spec fn clear_by<C: Coord, B: Fn(Sight) -> bool>(m: Model<C>, a: int, b: int, blocks: B) -> bool {
    forall|k: int|
        0 <= k < line_of(m, a, b).len() ==> #[trigger] line_of(m, a, b)[k] == a || line_of(m, a, b)[k] == b || !verdict(
            blocks,
            Sight { eye: idx(a), at: idx(line_of(m, a, b)[k]), target: idx(b) },
        )
}

/// Every cell of the line between `a` and `b`, its ends aside, was put to `blocks` and answered
/// that it does not stop this sighting.
pub open spec fn seen_by<C: Coord, B: Fn(Sight) -> bool>(m: Model<C>, a: int, b: int, blocks: B) -> bool {
    forall|k: int|
        0 <= k < line_of(m, a, b).len() ==> #[trigger] line_of(m, a, b)[k] == a || line_of(m, a, b)[k] == b
            || blocks.ensures((Sight { eye: idx(a), at: idx(line_of(m, a, b)[k]), target: idx(b) },), false)
}

/// Whether `a` sees `b` when `blocks` says which cells stop sight: no cell of the line between
/// them, its ends aside, blocks.
pub open spec fn clear<C: Coord, P: Fn(Idx) -> bool>(m: Model<C>, a: int, b: int, blocks: P) -> bool {
    forall|k: int|
        0 <= k < line_of(m, a, b).len() ==> #[trigger] line_of(m, a, b)[k] == a || line_of(m, a, b)[k] == b || !verdict(
            blocks,
            idx(line_of(m, a, b)[k]),
        )
}

/// A line read backwards is the line drawn the other way: `line(a, b)` is `line(b, a)`
/// reversed, for any two cells of a board.
pub proof fn lemma_line_symmetric<C: Coord>(m: Model<C>, a: int, b: int)
    requires
        m.laws(),
        m.valid(a),
        m.valid(b),
    ensures
        line_of(m, a, b) == line_of(m, b, a).reverse(),
{
    if !m.metric.spec_has_lerp() {
        assert(line_of(m, a, b) =~= line_of(m, b, a).reverse());
    } else if a == b {
        assert(line_of(m, a, b) =~= line_of(m, b, a).reverse());
    } else {
        C::lemma_order(m.cells[a], m.cells[b], m.cells[a]);
        assert(m.cells[a] != m.cells[b]);
        let lo = low_end(m, a, b);
        assert(low_end(m, b, a) == lo);
        let hi = if lo == a {
            b
        } else {
            a
        };
        let fwd = forward_line(m, lo, hi);
        assert(fwd.reverse().reverse() =~= fwd);
    }
}

/// A line runs from end to end: when the metric draws lines, the line from `a` to `b` starts at
/// `a` and ends at `b`, for any two cells of a board.
pub proof fn lemma_line_ends<C: Coord>(m: Model<C>, a: int, b: int)
    requires
        m.laws(),
        m.valid(a),
        m.valid(b),
        m.metric.spec_has_lerp(),
    ensures
        line_of(m, a, b).len() >= 1,
        line_of(m, a, b)[0] == a,
        line_of(m, a, b).last() == b,
{
    if a != b {
        C::lemma_order(m.cells[a], m.cells[b], m.cells[a]);
        let lo = low_end(m, a, b);
        let hi = if lo == a {
            b
        } else {
            a
        };
        let fwd = forward_line(m, lo, hi);
        assert(fwd.len() >= 1 && fwd[0] == lo && fwd.last() == hi);
        if lo != a {
            assert(line_of(m, a, b) == fwd.reverse());
        }
    }
}

/// Sight is mutual: `a` sees `b` exactly when `b` sees `a`, for a predicate over cells.
pub proof fn lemma_clear_symmetric<C: Coord, P: Fn(Idx) -> bool>(m: Model<C>, a: int, b: int, blocks: P)
    requires
        m.laws(),
        m.valid(a),
        m.valid(b),
    ensures
        clear(m, a, b, blocks) == clear(m, b, a, blocks),
{
    lemma_line_symmetric(m, a, b);
    let s = line_of(m, a, b);
    let t = line_of(m, b, a);
    assert(s.len() == t.len());
    if clear(m, a, b, blocks) {
        assert forall|k: int| 0 <= k < t.len() implies #[trigger] t[k] == b || t[k] == a || !verdict(blocks, idx(t[k])) by {
            assert(t[k] == s[s.len() - 1 - k]) by {
                assert(t.reverse().reverse() =~= t);
            }
        }
    }
    if clear(m, b, a, blocks) {
        assert forall|k: int| 0 <= k < s.len() implies #[trigger] s[k] == a || s[k] == b || !verdict(blocks, idx(s[k])) by {
            assert(s[k] == t[t.len() - 1 - k]);
        }
    }
}

/// Two lists of cells of a long line, each strictly in order along it, that hold the same cells
/// are the same list.
pub proof fn lemma_sorted_unique<C: Coord>(m: Model<C>, lo: int, s1: Seq<int>, s2: Seq<int>)
    requires
        forall|x: int| s1.contains(x) <==> s2.contains(x),
        forall|a: int, b: int| 0 <= a < b < s1.len() ==> line_before(m, lo, #[trigger] s1[a], #[trigger] s1[b]),
        forall|a: int, b: int| 0 <= a < b < s2.len() ==> line_before(m, lo, #[trigger] s2[a], #[trigger] s2[b]),
    ensures
        s1 == s2,
    decreases s1.len(),
{
    if s1.len() == 0 {
        if s2.len() > 0 {
            assert(s2.contains(s2[0]));
        }
        assert(s1 =~= s2);
    } else {
        assert(s1.contains(s1[0]));
        assert(s2.len() > 0);
        let k = s2.index_of(s1[0]);
        assert(s2.contains(s2[0]));
        let h = s1.index_of(s2[0]);
        if k > 0 {
            assert(line_before(m, lo, s2[0], s2[k]));
            if h > 0 {
                assert(line_before(m, lo, s1[0], s1[h]));
            }
        }
        assert(s1[0] == s2[0]);
        let r1 = s1.drop_first();
        let r2 = s2.drop_first();
        assert forall|x: int| r1.contains(x) <==> r2.contains(x) by {
            if r1.contains(x) {
                let i = r1.index_of(x);
                assert(s1[i + 1] == x);
                assert(line_before(m, lo, s1[0], s1[i + 1]));
                assert(s2.contains(x));
                let j = s2.index_of(x);
                assert(j != 0);
                assert(r2[j - 1] == x);
            }
            if r2.contains(x) {
                let i = r2.index_of(x);
                assert(s2[i + 1] == x);
                assert(line_before(m, lo, s2[0], s2[i + 1]));
                assert(s1.contains(x));
                let j = s1.index_of(x);
                assert(j != 0);
                assert(r1[j - 1] == x);
            }
        }
        assert forall|a: int, b: int| 0 <= a < b < r1.len() implies line_before(m, lo, #[trigger] r1[a], #[trigger] r1[b]) by {
            assert(r1[a] == s1[a + 1] && r1[b] == s1[b + 1]);
        }
        assert forall|a: int, b: int| 0 <= a < b < r2.len() implies line_before(m, lo, #[trigger] r2[a], #[trigger] r2[b]) by {
            assert(r2[a] == s2[a + 1] && r2[b] == s2[b + 1]);
        }
        lemma_sorted_unique(m, lo, r1, r2);
        assert(s1 =~= seq![s1[0]] + r1);
        assert(s2 =~= seq![s2[0]] + r2);
    }
}

/// The second numbers of a list of pairs.
pub open spec fn seconds(s: Seq<(u32, u32)>) -> Seq<int> {
    s.map_values(|p: (u32, u32)| p.1 as int)
}

/// Sorting the scan of a long line by distance, then index, lists the cells between its ends in
/// order.
///
/// `found` is the scan: each cell on the line between its ends once, in index order, paired with
/// its distance from `lo`. `sorted` holds the same pairs in pair order.
pub proof fn lemma_sparse_sorted<C: Coord>(m: Model<C>, lo: int, hi: int, found: Seq<(u32, u32)>, sorted: Seq<(u32, u32)>)
    requires
        forall|k: int| 0 <= k < found.len() ==> (#[trigger] found[k]).0 == m.dist(lo, found[k].1 as int)
            && m.valid(found[k].1 as int) && on_line(m, lo, hi, found[k].1 as int),
        forall|x: int| m.valid(x) && on_line(m, lo, hi, x) ==> exists|k: int| 0 <= k < found.len() && #[trigger] found[k].1 == x,
        forall|a: int, b: int| 0 <= a < b < found.len() ==> (#[trigger] found[a]).1 < (#[trigger] found[b]).1,
        sorted.to_multiset() == found.to_multiset(),
        forall|i: int, j: int| 0 <= i < j < sorted.len() ==> pair_le(#[trigger] sorted[i], #[trigger] sorted[j]),
    ensures
        sparse_ok(m, lo, hi, seconds(sorted)),
{
    broadcast use vstd::seq_lib::group_seq_properties;
    sorted.to_multiset_ensures();
    found.to_multiset_ensures();
    assert forall|k: int| 0 <= k < sorted.len() implies found.contains(#[trigger] sorted[k]) by {
        assert(sorted.contains(sorted[k]));
        assert(sorted.to_multiset().count(sorted[k]) > 0);
        assert(found.to_multiset().count(sorted[k]) > 0);
    }
    assert(found.no_duplicates()) by {
        assert forall|i: int, j: int| 0 <= i < found.len() && 0 <= j < found.len() && i != j implies found[i] != found[j] by {
            if i < j {
                assert(found[i].1 < found[j].1);
            } else {
                assert(found[j].1 < found[i].1);
            }
        }
    }
    found.lemma_multiset_has_no_duplicates();
    sorted.lemma_multiset_has_no_duplicates_conv();
    let s = seconds(sorted);
    assert forall|x: int| #[trigger] s.contains(x) <==> (m.valid(x) && on_line(m, lo, hi, x)) by {
        if s.contains(x) {
            let k = s.index_of(x);
            assert(found.contains(sorted[k]));
        }
        if m.valid(x) && on_line(m, lo, hi, x) {
            let k = choose|k: int| 0 <= k < found.len() && #[trigger] found[k].1 == x;
            assert(found.contains(found[k]));
            assert(found.to_multiset().count(found[k]) > 0);
            assert(sorted.to_multiset().count(found[k]) > 0);
            assert(sorted.contains(found[k]));
            let h = sorted.index_of(found[k]);
            assert(s[h] == x);
        }
    }
    assert forall|a: int, b: int| 0 <= a < b < s.len() implies line_before(m, lo, #[trigger] s[a], #[trigger] s[b]) by {
        assert(found.contains(sorted[a]));
        assert(found.contains(sorted[b]));
        let ka = found.index_of(sorted[a]);
        let kb = found.index_of(sorted[b]);
        assert(pair_le(sorted[a], sorted[b]));
        assert(sorted[a] != sorted[b]);
        if sorted[a].1 == sorted[b].1 {
            if ka < kb {
                assert(found[ka].1 < found[kb].1);
            } else if kb < ka {
                assert(found[kb].1 < found[ka].1);
            }
        }
    }
}

/// Whether pair `p` sorts no later than pair `q`: by the first number, then the second.
pub open spec fn pair_le(p: (u32, u32), q: (u32, u32)) -> bool {
    p.0 < q.0 || (p.0 == q.0 && p.1 <= q.1)
}

/// Sort pairs of numbers in place, by the first number and then the second.
/// `slice::sort_unstable` does the work; the order of a tuple of integers is lexicographic.
#[verifier::external_body]
pub(crate) fn sort_pairs(v: &mut Vec<(u32, u32)>)
    ensures
        final(v)@.to_multiset() == old(v)@.to_multiset(),
        forall|i: int, j: int| 0 <= i < j < final(v)@.len() ==> pair_le(final(v)@[i], final(v)@[j]),
{
    v.sort_unstable();
}

/// The same indices, last first.
pub(crate) fn reversed(v: Vec<Idx>) -> (r: Vec<Idx>)
    ensures
        r@ == v@.reverse(),
        nums(r@) == nums(v@).reverse(),
{
    let mut r: Vec<Idx> = Vec::new();
    let mut k: usize = v.len();
    while k > 0
        invariant
            k <= v@.len(),
            r@.len() == v@.len() - k,
            forall|i: int| 0 <= i < r@.len() ==> #[trigger] r@[i] == v@[v@.len() - 1 - i],
        decreases k,
    {
        k = k - 1;
        r.push(v[k]);
    }
    assert(r@ =~= v@.reverse());
    assert(nums(r@) =~= nums(v@).reverse());
    r
}

/// Sight over a height field is mutual: a cell that lies between the eye and the target blocks
/// the view one way exactly when it blocks the view the other way, because one `looks_from`
/// places both ends.
pub proof fn lemma_sight_symmetric<C: Coord, T: Fn(Idx) -> i32, L: Fn(Idx) -> i32>(m: Model<C>, top: &T, looks_from: &L, s: Sight)
    requires
        m.valid(s.eye.id()),
        m.valid(s.at.id()),
        m.valid(s.target.id()),
        m.dist(s.eye.id(), s.at.id()) + m.dist(s.at.id(), s.target.id()) == m.dist(s.eye.id(), s.target.id()),
    ensures
        blocks_sight(m, top, looks_from, s) == blocks_sight(m, top, looks_from, Sight { eye: s.target, at: s.at, target: s.eye }),
{
    let (e, x, t) = (m.cells[s.eye.id()], m.cells[s.at.id()], m.cells[s.target.id()]);
    let kind = m.metric.spec_kind();
    C::lemma_metric(e, t, x, kind);
    C::lemma_metric(t, x, e, kind);
    C::lemma_metric(x, t, e, kind);
    let top_v = value_at(top, s.at) as int;
    let a = value_at(looks_from, s.eye) as int;
    let b = value_at(looks_from, s.target) as int;
    let n = m.dist(s.eye.id(), s.target.id()) as int;
    let near = m.dist(s.eye.id(), s.at.id()) as int;
    assert(m.dist(s.target.id(), s.eye.id()) == n);
    assert(m.dist(s.target.id(), s.at.id()) == n - near);
    lemma_flip_cross(top_v, a, b, n, near);
}

/// The cross-multiplied sight test reads the same from either end of the line.
proof fn lemma_flip_cross(top: int, a: int, b: int, n: int, t: int)
    ensures
        ((top - a) * n > (b - a) * t) == ((top - b) * n > (a - b) * (n - t)),
{
    assert(((top - a) * n > (b - a) * t) == ((top - b) * n > (a - b) * (n - t))) by (nonlinear_arith);
}

} // verus!
