//! Routes through nodes that you name yourself, with no grid.
//!
//! A grid finds its edges in its geometry. Some maps have no geometry: rooms and the doors between
//! them, towns and their roads, a handful of waypoints. The edges are a list, and that list is all
//! there is. [`Graph`] is that list, with the searches a [`Grid`](crate::Grid) has.
//!
//! A node has two names, as a cell has. Its key is yours and is what you save. Its [`Idx`] is a
//! dense number that only this graph issues, and the searches speak it. The edges are directed,
//! so a [`Path`] cannot be reversed, and [`Graph::reachable`] and [`Graph::reaching`] are
//! different questions. Every search is Dijkstra, which is always correct.

use vstd::prelude::*;
use crate::coord::{Idx, idx};
use crate::full::MAX_CELLS;
use crate::grid::{ceiling_of, cost_ceiling};
use crate::path::{Cost, Path, copied};
use crate::tag::Tag;
use crate::search::{
    astar, connects, graph_ok, lemma_least_cost_transposed, transposed, explore, least_cost, lemma_minted_reach, mint, minted, no_estimate, reach_ok, route_ok, consistent,
    yields_edges, yields_estimates, ids, positive, ties_by_index,
};
use crate::text::{decimal, push_decimal, push_text};
use vstd::laws_eq::obeys_concrete_eq;

verus! {

broadcast use crate::coord::group_idx;

/// Why a graph could not be built.
#[derive(Debug, Clone, Copy, PartialEq, Eq, Structural)]
pub enum GraphError {
    /// The edges name more nodes than [`MAX_CELLS`].
    TooManyNodes {
        /// The number of nodes named when the limit was passed.
        nodes: u64,
    },
    /// An edge costs more than a path on this graph can safely accumulate.
    CostTooHigh {
        /// The largest cost in the edge list.
        cost: Cost,
        /// The largest safe cost for a graph of this size.
        ceiling: Cost,
        /// The number of nodes in the graph.
        nodes: usize,
    },
}

impl GraphError {
    /// What went wrong, as one sentence.
    pub open spec fn spec_message(self) -> Seq<char> {
        match self {
            GraphError::TooManyNodes { nodes } => "the edges name "@ + decimal(nodes as int) + " nodes; a graph may hold at most "@
                + decimal(MAX_CELLS as int),
            GraphError::CostTooHigh { cost, ceiling, nodes } => "an edge costs "@ + decimal(cost as int)
                + ", but on a graph of "@ + decimal(nodes as int) + " nodes no edge may cost more than "@ + decimal(
                ceiling as int,
            ) + " without overflowing Cost ("@ + decimal(u32::MAX as int) + ")"@,
        }
    }

    /// What went wrong, as one sentence.
    pub fn message(&self) -> (m: String)
        ensures
            m@ == self.spec_message(),
    {
        let mut m = String::new();
        match *self {
            GraphError::TooManyNodes { nodes } => {
                push_text(&mut m, "the edges name ");
                push_decimal(&mut m, nodes as i128);
                push_text(&mut m, " nodes; a graph may hold at most ");
                push_decimal(&mut m, MAX_CELLS as i128);
            },
            GraphError::CostTooHigh { cost, ceiling, nodes } => {
                push_text(&mut m, "an edge costs ");
                push_decimal(&mut m, cost as i128);
                push_text(&mut m, ", but on a graph of ");
                push_decimal(&mut m, nodes as i128);
                push_text(&mut m, " nodes no edge may cost more than ");
                push_decimal(&mut m, ceiling as i128);
                push_text(&mut m, " without overflowing Cost (");
                push_decimal(&mut m, u32::MAX as i128);
                push_text(&mut m, ")");
            },
        }
        m
    }
}

// ---------------------------------------------------------------------------------------------
// Edges in rows
// ---------------------------------------------------------------------------------------------

/// The edges out of node `r`, as `(other, cost)`, in the order they were listed.
pub open spec fn row_of(edges: Seq<(u32, u32, Cost)>, r: int) -> Seq<(u32, u32)>
    decreases edges.len(),
{
    if edges.len() == 0 {
        seq![]
    } else {
        let prev = row_of(edges.drop_last(), r);
        let e = edges.last();
        if e.0 == r {
            prev.push((e.1, e.2))
        } else {
            prev
        }
    }
}

/// The edges of nodes `0..n`, row by row.
pub open spec fn rows_of(n: int, edges: Seq<(u32, u32, Cost)>) -> Seq<Seq<(u32, u32)>> {
    Seq::new(n as nat, |r: int| row_of(edges, r))
}

/// Every edge the other way round.
pub open spec fn flipped(edges: Seq<(u32, u32, Cost)>) -> Seq<(u32, u32, Cost)> {
    edges.map_values(|e: (u32, u32, Cost)| (e.1, e.0, e.2))
}

/// How many edges leave rows before `j`.
pub open spec fn before(edges: Seq<(u32, u32, Cost)>, j: int) -> int
    decreases j,
{
    if j <= 0 {
        0
    } else {
        before(edges, j - 1) + row_of(edges, j - 1).len()
    }
}

/// Every edge starts at a node below `n`.
pub open spec fn rows_fit(edges: Seq<(u32, u32, Cost)>, n: int) -> bool {
    forall|k: int| 0 <= k < edges.len() ==> (#[trigger] edges[k]).0 < n
}

proof fn lemma_row_push(edges: Seq<(u32, u32, Cost)>, e: (u32, u32, Cost), r: int)
    ensures
        row_of(edges.push(e), r) == if e.0 == r {
            row_of(edges, r).push((e.1, e.2))
        } else {
            row_of(edges, r)
        },
{
    assert(edges.push(e).drop_last() =~= edges);
}

proof fn lemma_before_push(edges: Seq<(u32, u32, Cost)>, e: (u32, u32, Cost), j: int)
    ensures
        before(edges.push(e), j) == before(edges, j) + if 0 <= e.0 < j {
            1int
        } else {
            0int
        },
    decreases j,
{
    if j > 0 {
        lemma_before_push(edges, e, j - 1);
        lemma_row_push(edges, e, j - 1);
    }
}

proof fn lemma_before_empty(edges: Seq<(u32, u32, Cost)>, j: int)
    requires
        edges.len() == 0,
    ensures
        before(edges, j) == 0,
    decreases j,
{
    if j > 0 {
        lemma_before_empty(edges, j - 1);
    }
}

proof fn lemma_before_all(edges: Seq<(u32, u32, Cost)>, n: int)
    requires
        rows_fit(edges, n),
    ensures
        before(edges, n) == edges.len(),
    decreases edges.len(),
{
    if edges.len() > 0 {
        let p = edges.drop_last();
        assert(rows_fit(p, n)) by {
            assert forall|k: int| 0 <= k < p.len() implies (#[trigger] p[k]).0 < n by {
                assert(p[k] == edges[k]);
            }
        }
        lemma_before_all(p, n);
        assert(edges[edges.len() - 1].0 < n);
        assert(p.push(edges.last()) =~= edges);
        lemma_before_push(p, edges.last(), n);
    } else {
        lemma_before_empty(edges, n);
    }
}

proof fn lemma_before_rises(edges: Seq<(u32, u32, Cost)>, i: int, j: int)
    requires
        i <= j,
    ensures
        before(edges, i) <= before(edges, j),
    decreases j - i,
{
    if i < j {
        lemma_before_rises(edges, i, j - 1);
    }
}

proof fn lemma_row_prefix(edges: Seq<(u32, u32, Cost)>, k: int, r: int)
    requires
        0 <= k <= edges.len(),
    ensures
        row_of(edges.take(k), r).len() <= row_of(edges, r).len(),
        forall|t: int| 0 <= t < row_of(edges.take(k), r).len() ==> #[trigger] row_of(edges.take(k), r)[t] == row_of(edges, r)[t],
    decreases edges.len() - k,
{
    if k < edges.len() {
        lemma_row_prefix(edges, k + 1, r);
        assert(edges.take(k + 1) =~= edges.take(k).push(edges[k]));
        lemma_row_push(edges.take(k), edges[k], r);
        assert forall|t: int| 0 <= t < row_of(edges.take(k), r).len() implies #[trigger] row_of(edges.take(k), r)[t] == row_of(edges, r)[t] by {
            assert(row_of(edges.take(k + 1), r)[t] == row_of(edges, r)[t]);
        }
    } else {
        assert(edges.take(k) =~= edges);
    }
}

/// Edges in compressed-row form: the edges of node `n` are `node[start[n]..start[n + 1]]`, each
/// with its cost.
#[derive(Debug)]
struct Rows {
    start: Vec<usize>,
    node: Vec<u32>,
    cost: Vec<Cost>,
}

impl Rows {
    /// The same rows.
    fn copy(&self) -> (r: Rows)
        ensures
            r.start@ == self.start@,
            r.node@ == self.node@,
            r.cost@ == self.cost@,
    {
        Rows { start: copied(&self.start), node: copied(&self.node), cost: copied(&self.cost) }
    }

    /// The rows hold exactly the edges of `edges`, node by node, in the order they were listed.
    spec fn holds(&self, n: int, edges: Seq<(u32, u32, Cost)>) -> bool {
        &&& self.start@.len() == n + 1
        &&& self.node@.len() == edges.len()
        &&& self.cost@.len() == edges.len()
        &&& forall|r: int| 0 <= r <= n ==> #[trigger] self.start@[r] == before(edges, r)
        &&& forall|r: int, t: int|
            0 <= r < n && 0 <= t < row_of(edges, r).len() ==> (self.node@[before(edges, r) + t], self.cost@[before(edges, r)
                + t]) == #[trigger] row_of(edges, r)[t]
    }

    /// Two passes: count what lands in each row, then place it. Placement keeps the input order,
    /// so the order the searches meet edges in is the order the caller listed them in.
    fn of(nodes: usize, edges: &Vec<(u32, u32, Cost)>) -> (r: Rows)
        requires
            nodes < usize::MAX,
            rows_fit(edges@, nodes as int),
        ensures
            r.holds(nodes as int, edges@),
    {
        let ghost es = edges@;
        let count = edges.len();
        let mut start: Vec<usize> = Vec::new();
        let mut k: usize = 0;
        while k <= nodes
            invariant
                k <= nodes + 1,
                nodes < usize::MAX,
                start@.len() == k,
                forall|r: int| 0 <= r < k ==> #[trigger] start@[r] == 0,
            decreases nodes + 1 - k,
        {
            start.push(0);
            k = k + 1;
        }
        // Count what lands in each row: `start[r + 1]` is the size of row `r`.
        let mut k: usize = 0;
        while k < edges.len()
            invariant
                es == edges@,
                rows_fit(es, nodes as int),
                k <= es.len(),
                start@.len() == nodes + 1,
                start@[0] == 0,
                forall|r: int| 0 <= r < nodes ==> #[trigger] start@[r + 1] == row_of(es.take(k as int), r).len(),
            decreases es.len() - k,
        {
            let row = edges[k].0 as usize;
            proof {
                assert(es[k as int].0 < nodes);
                lemma_row_prefix(es, k as int, row as int);
                assert(es.take(k as int + 1) =~= es.take(k as int).push(es[k as int]));
                assert forall|r: int| 0 <= r < nodes implies row_of(es.take(k as int + 1), r).len() == row_of(es.take(k as int), r).len()
                    + if r == row { 1int } else { 0int } by {
                    lemma_row_push(es.take(k as int), es[k as int], r);
                }
                lemma_row_prefix(es, k as int + 1, row as int);
                assert(row_of(es, row as int).len() <= es.len()) by {
                    lemma_before_all(es, nodes as int);
                    lemma_before_rises(es, row as int + 1, nodes as int);
                    lemma_before_rises(es, 0, row as int);
                }
            }
            let c = start[row + 1];
            start.set(row + 1, c + 1);
            k = k + 1;
        }
        proof {
            assert(es.take(es.len() as int) =~= es);
            assert forall|r: int| 1 <= r <= nodes implies #[trigger] start@[r] == row_of(es, r - 1).len() by {
                assert(start@[(r - 1) + 1] == row_of(es.take(es.len() as int), r - 1).len());
            }
        }
        // Running sums: `start[r]` becomes the number of edges in rows before `r`.
        let mut j: usize = 1;
        while j <= nodes
            invariant
                es == edges@,
                rows_fit(es, nodes as int),
                1 <= j <= nodes + 1,
                nodes < usize::MAX,
                count == es.len(),
                start@.len() == nodes + 1,
                forall|r: int| 0 <= r < j ==> #[trigger] start@[r] == before(es, r),
                forall|r: int| j <= r <= nodes ==> #[trigger] start@[r] == row_of(es, r - 1).len(),
            decreases nodes + 1 - j,
        {
            proof {
                lemma_before_all(es, nodes as int);
                lemma_before_rises(es, j as int, nodes as int);
                assert(before(es, j as int) == before(es, j - 1) + row_of(es, j - 1).len());
            }
            let a = start[j - 1];
            let b = start[j];
            start.set(j, a + b);
            j = j + 1;
        }
        proof {
            lemma_before_all(es, nodes as int);
        }
        let total = start[nodes];
        let mut node: Vec<u32> = Vec::new();
        let mut cost: Vec<Cost> = Vec::new();
        let mut k: usize = 0;
        while k < total
            invariant
                k <= total,
                node@.len() == k,
                cost@.len() == k,
            decreases total - k,
        {
            node.push(0);
            cost.push(0);
            k = k + 1;
        }
        // Place each edge at the next free slot of its row.
        let mut at = start.clone();
        proof {
            assert(at@ =~= start@);
        }
        let mut k: usize = 0;
        while k < edges.len()
            invariant
                es == edges@,
                rows_fit(es, nodes as int),
                k <= es.len(),
                total == es.len(),
                start@.len() == nodes + 1,
                at@.len() == nodes + 1,
                node@.len() == total,
                cost@.len() == total,
                forall|r: int| 0 <= r <= nodes ==> #[trigger] start@[r] == before(es, r),
                forall|r: int| 0 <= r < nodes ==> #[trigger] at@[r] == before(es, r) + row_of(es.take(k as int), r).len(),
                forall|r: int, t: int|
                    0 <= r < nodes && 0 <= t < row_of(es.take(k as int), r).len() ==> (node@[before(es, r) + t], cost@[before(es, r)
                        + t]) == #[trigger] row_of(es.take(k as int), r)[t],
            decreases es.len() - k,
        {
            let (row, other, c) = edges[k];
            let ghost pre = es.take(k as int);
            let ghost r0 = row as int;
            proof {
                assert(es[k as int].0 < nodes);
                lemma_row_prefix(es, k as int, r0);
                lemma_row_prefix(es, k as int + 1, r0);
                assert(es.take(k as int + 1) =~= pre.push(es[k as int]));
                lemma_row_push(pre, es[k as int], r0);
                lemma_before_rises(es, r0 + 1, nodes as int);
                lemma_before_all(es, nodes as int);
            }
            let put = at[row as usize];
            let ghost n0 = node@;
            let ghost c0 = cost@;
            node.set(put, other);
            cost.set(put, c);
            at.set(row as usize, put + 1);
            proof {
                let post = es.take(k as int + 1);
                assert forall|r: int| 0 <= r < nodes implies #[trigger] at@[r] == before(es, r) + row_of(post, r).len() by {
                    lemma_row_push(pre, es[k as int], r);
                }
                assert forall|r: int, t: int|
                    0 <= r < nodes && 0 <= t < row_of(post, r).len() implies (node@[before(es, r) + t], cost@[before(es, r)
                        + t]) == #[trigger] row_of(post, r)[t] by {
                    lemma_row_push(pre, es[k as int], r);
                    lemma_row_prefix(es, k as int + 1, r);
                    let pos = before(es, r) + t;
                    lemma_before_rises(es, 0, r);
                    lemma_before_rises(es, r + 1, nodes as int);
                    assert(0 <= pos < n0.len());
                    if r == r0 {
                        if t < row_of(pre, r0).len() {
                            assert(pos != put);
                            assert(row_of(post, r)[t] == row_of(pre, r)[t]);
                            assert((n0[pos], c0[pos]) == row_of(pre, r)[t]);
                        } else {
                            assert(pos == put);
                        }
                    } else {
                        if r < r0 {
                            lemma_before_rises(es, r + 1, r0);
                            assert(pos < put);
                        } else {
                            lemma_before_rises(es, r0 + 1, r);
                            assert(pos > put);
                        }
                        assert(row_of(post, r) == row_of(pre, r));
                        assert((n0[pos], c0[pos]) == row_of(pre, r)[t]);
                    }
                }
            }
            k = k + 1;
        }
        proof {
            assert(es.take(es.len() as int) =~= es);
        }
        Rows { start, node, cost }
    }

    /// The edges out of node `n`, as `(other, cost)`.
    fn row(&self, n: u32, Ghost(nodes): Ghost<int>, Ghost(edges): Ghost<Seq<(u32, u32, Cost)>>) -> (r: Vec<(u32, Cost)>)
        requires
            self.holds(nodes, edges),
            n < nodes,
            rows_fit(edges, nodes),
        ensures
            r@ == row_of(edges, n as int),
    {
        proof {
            lemma_before_all(edges, nodes);
            lemma_before_rises(edges, n as int + 1, nodes);
        }
        let rows = self.start.len();
        assert(rows == nodes + 1);
        let lo = self.start[n as usize];
        let hi = self.start[n as usize + 1];
        let mut r: Vec<(u32, Cost)> = Vec::new();
        let mut k: usize = lo;
        while k < hi
            invariant
                self.holds(nodes, edges),
                n < nodes,
                lo == before(edges, n as int),
                hi == before(edges, n as int + 1),
                hi <= edges.len(),
                lo <= k <= hi,
                r@.len() == k - lo,
                forall|t: int| 0 <= t < r@.len() ==> #[trigger] r@[t] == row_of(edges, n as int)[t],
            decreases hi - k,
        {
            proof {
                assert(row_of(edges, n as int)[k - lo] == (self.node@[before(edges, n as int) + (k - lo)], self.cost@[before(
                    edges,
                    n as int,
                ) + (k - lo)]));
            }
            r.push((self.node[k], self.cost[k]));
            k = k + 1;
        }
        proof {
            assert(r@ =~= row_of(edges, n as int));
        }
        r
    }
}

// ---------------------------------------------------------------------------------------------
// Numbering the keys
// ---------------------------------------------------------------------------------------------

/// The keys with `k` added at the end, unless it is there already.
pub open spec fn add_key<K>(keys: Seq<K>, k: K) -> Seq<K> {
    if keys.contains(k) {
        keys
    } else {
        keys.push(k)
    }
}

/// The keys an edge list names, in the order it first names them, `from` before `to`.
pub open spec fn named<K>(edges: Seq<(K, K, Cost)>) -> Seq<K>
    decreases edges.len(),
{
    if edges.len() == 0 {
        seq![]
    } else {
        let e = edges.last();
        add_key(add_key(named(edges.drop_last()), e.0), e.1)
    }
}

/// The edges of a list between two different keys, each as the numbers of its two keys and its
/// cost, in the order listed.
pub open spec fn numbered<K>(edges: Seq<(K, K, Cost)>) -> Seq<(u32, u32, Cost)>
    decreases edges.len(),
{
    if edges.len() == 0 {
        seq![]
    } else {
        let prev = numbered(edges.drop_last());
        let e = edges.last();
        let ks = named(edges);
        if e.0 == e.1 {
            prev
        } else {
            prev.push((ks.index_of(e.0) as u32, ks.index_of(e.1) as u32, e.2))
        }
    }
}

/// The dearest cost in a list of edges, or 0 for none.
pub open spec fn dearest(es: Seq<(u32, u32, Cost)>) -> Cost
    decreases es.len(),
{
    if es.len() == 0 {
        0
    } else if dearest(es.drop_last()) >= es.last().2 {
        dearest(es.drop_last())
    } else {
        es.last().2
    }
}

proof fn lemma_add_key<K>(keys: Seq<K>, k: K)
    requires
        keys.no_duplicates(),
    ensures
        add_key(keys, k).no_duplicates(),
        add_key(keys, k).contains(k),
        add_key(keys, k).len() >= keys.len(),
        forall|x: K| keys.contains(x) ==> add_key(keys, k).contains(x) && add_key(keys, k).index_of(x) == keys.index_of(x),
        forall|x: K| #[trigger] add_key(keys, k).contains(x) ==> keys.contains(x) || x == k,
{
    let r = add_key(keys, k);
    if !keys.contains(k) {
        assert(r[keys.len() as int] == k);
        assert forall|x: K| keys.contains(x) implies r.contains(x) && r.index_of(x) == keys.index_of(x) by {
            let i = keys.index_of(x);
            assert(r[i] == x);
            let j = r.index_of(x);
            if j < i {
                assert(keys[j] == x);
            }
        }
        assert forall|x: K| #[trigger] r.contains(x) implies keys.contains(x) || x == k by {
            let j = r.index_of(x);
            if j < keys.len() {
                assert(keys[j] == x);
            }
        }
    } else {
        assert(r.contains(k));
    }
}

proof fn lemma_named_grows<K>(edges: Seq<(K, K, Cost)>, k: int)
    requires
        0 <= k <= edges.len(),
    ensures
        named(edges.take(k)).len() <= named(edges).len(),
        named(edges).no_duplicates(),
    decreases edges.len() - k,
{
    lemma_named_distinct(edges);
    if k < edges.len() {
        lemma_named_grows(edges, k + 1);
        let p = edges.take(k + 1);
        assert(p.drop_last() =~= edges.take(k));
        lemma_named_distinct(edges.take(k));
        lemma_add_key(named(edges.take(k)), p.last().0);
        lemma_add_key(add_key(named(edges.take(k)), p.last().0), p.last().1);
    } else {
        assert(edges.take(k) =~= edges);
    }
}

proof fn lemma_named_distinct<K>(edges: Seq<(K, K, Cost)>)
    ensures
        named(edges).no_duplicates(),
    decreases edges.len(),
{
    if edges.len() > 0 {
        let e = edges.last();
        lemma_named_distinct(edges.drop_last());
        lemma_add_key(named(edges.drop_last()), e.0);
        lemma_add_key(add_key(named(edges.drop_last()), e.0), e.1);
    }
}

/// Whether two keys are the same, for a key type whose `==` is equality.
fn same_key<K: PartialEq>(a: &K, b: &K) -> (r: bool)
    requires
        obeys_concrete_eq::<K>(),
    ensures
        r == (*a == *b),
{
    proof {
        reveal(obeys_concrete_eq);
    }
    *a == *b
}

/// The number of `key`, giving it the next one if it has none yet.
fn number<K: Copy + PartialEq>(keys: &mut Vec<K>, key: K) -> (r: Result<u32, GraphError>)
    requires
        obeys_concrete_eq::<K>(),
        old(keys)@.no_duplicates(),
        old(keys)@.len() <= MAX_CELLS,
    ensures
        old(keys)@.contains(key) ==> r == Ok::<u32, GraphError>(old(keys)@.index_of(key) as u32) && final(keys)@ == old(keys)@,
        !old(keys)@.contains(key) && old(keys)@.len() >= MAX_CELLS ==> r == Err::<u32, GraphError>(
            GraphError::TooManyNodes { nodes: (old(keys)@.len() + 1) as u64 },
        ) && final(keys)@ == old(keys)@,
        !old(keys)@.contains(key) && old(keys)@.len() < MAX_CELLS ==> r == Ok::<u32, GraphError>(old(keys)@.len() as u32)
            && final(keys)@ == old(keys)@.push(key),
{
    let mut j: usize = 0;
    while j < keys.len()
        invariant
            obeys_concrete_eq::<K>(),
            keys@ == old(keys)@,
            keys@.len() <= MAX_CELLS,
            keys@.no_duplicates(),
            j <= keys@.len(),
            forall|q: int| 0 <= q < j ==> keys@[q] != key,
        decreases keys@.len() - j,
    {
        if same_key(&keys[j], &key) {
            proof {
                assert(keys@.contains(key));
                let q = keys@.index_of(key);
                if q != j {
                    assert(keys@[q] == keys@[j as int]);
                }
            }
            return Ok(j as u32);
        }
        j = j + 1;
    }
    let n = keys.len();
    if n as u64 >= MAX_CELLS {
        return Err(GraphError::TooManyNodes { nodes: n as u64 + 1 });
    }
    keys.push(key);
    Ok(n as u32)
}

/// A directed graph over nodes that you name with a type of your own.
///
/// `K` is the name of a node: an enum, a newtype, or anything else that is cheap to copy and whose
/// `==` is equality.
#[derive(Debug)]
pub struct Graph<K> {
    /// Every node's key, in index order: `keys[i]` is the key of node `i`.
    keys: Vec<K>,
    /// Where each node leads.
    out: Rows,
    /// Who leads to each node.
    back: Rows,
    /// The numbered edges the rows were built from.
    edges: Vec<(u32, u32, Cost)>,
    /// This graph's numbering.
    tag: Tag,
}

impl<K: Copy + Eq + core::hash::Hash + core::fmt::Debug> Clone for Graph<K> {
    /// The same graph: the same keys, in the same order, and the same edges.
    fn clone(&self) -> (g: Self)
        ensures
            g.spec_keys() == self.spec_keys(),
            g.spec_edges() == self.spec_edges(),
            g.wf() == self.wf(),
    {
        Graph {
            keys: copied(&self.keys),
            out: self.out.copy(),
            back: self.back.copy(),
            edges: copied(&self.edges),
            tag: self.tag,
        }
    }
}

impl<K: Copy + Eq + core::hash::Hash + core::fmt::Debug> Graph<K> {
    /// The graph is well formed: its keys are distinct and few enough, every edge joins two of its
    /// nodes, and the rows hold its edges both ways round.
    pub closed spec fn wf(&self) -> bool {
        let n = self.keys@.len() as int;
        &&& obeys_concrete_eq::<K>()
        &&& self.keys@.no_duplicates()
        &&& self.keys@.len() <= MAX_CELLS
        &&& rows_fit(self.edges@, n)
        &&& rows_fit(flipped(self.edges@), n)
        &&& self.out.holds(n, self.edges@)
        &&& self.back.holds(n, flipped(self.edges@))
    }

    /// Every node's key, in index order.
    pub closed spec fn spec_keys(&self) -> Seq<K> {
        self.keys@
    }

    /// The edges between two different nodes, as the numbers of their ends and their cost.
    pub closed spec fn spec_edges(&self) -> Seq<(u32, u32, Cost)> {
        self.edges@
    }

    /// Where each node leads, and at what cost.
    pub open spec fn spec_out(&self) -> Seq<Seq<(u32, u32)>> {
        rows_of(self.spec_keys().len() as int, self.spec_edges())
    }

    /// Who leads to each node, and at what cost.
    pub open spec fn spec_back(&self) -> Seq<Seq<(u32, u32)>> {
        rows_of(self.spec_keys().len() as int, flipped(self.spec_edges()))
    }

    /// Fallibly build a graph from its edges: `(from, to, cost)`.
    ///
    /// The nodes are the keys that the edges name, numbered in the order the list first names
    /// them, `from` before `to`. An edge from a node to itself adds the node and no edge. Two edges
    /// may join the same pair of nodes; a search takes the cheaper one.
    ///
    /// Refused when the edges name more than [`MAX_CELLS`] nodes, or when an edge costs so much
    /// that a path total could overflow [`Cost`]: the ceiling is `Cost::MAX / (nodes - 1)`.
    pub fn try_new(edges: Vec<(K, K, Cost)>) -> (r: Result<Self, GraphError>)
        requires
            obeys_concrete_eq::<K>(),
        ensures
            named(edges@).len() > MAX_CELLS ==> r == Err::<Self, GraphError>(
                GraphError::TooManyNodes { nodes: (MAX_CELLS + 1) as u64 },
            ),
            named(edges@).len() <= MAX_CELLS && dearest(numbered(edges@)) > ceiling_of(named(edges@).len() as int) ==> r
                == Err::<Self, GraphError>(
                GraphError::CostTooHigh {
                    cost: dearest(numbered(edges@)),
                    ceiling: ceiling_of(named(edges@).len() as int) as u32,
                    nodes: named(edges@).len() as usize,
                },
            ),
            named(edges@).len() <= MAX_CELLS && dearest(numbered(edges@)) <= ceiling_of(named(edges@).len() as int) ==> match r {
                Ok(g) => g.wf() && g.spec_keys() == named(edges@) && g.spec_edges() == numbered(edges@),
                Err(_) => false,
            },
    {
        let ghost es = edges@;
        let mut keys: Vec<K> = Vec::new();
        let mut listed: Vec<(u32, u32, Cost)> = Vec::new();
        let mut top: Cost = 0;
        let mut k: usize = 0;
        while k < edges.len()
            invariant
                obeys_concrete_eq::<K>(),
                es == edges@,
                k <= es.len(),
                keys@ == named(es.take(k as int)),
                keys@.no_duplicates(),
                keys@.len() <= MAX_CELLS,
                listed@ == numbered(es.take(k as int)),
                top == dearest(listed@),
                rows_fit(listed@, keys@.len() as int),
                rows_fit(flipped(listed@), keys@.len() as int),
            decreases es.len() - k,
        {
            let (from, to, cost) = edges[k];
            let ghost pre = es.take(k as int);
            let ghost post = es.take(k as int + 1);
            proof {
                assert(post.drop_last() =~= pre);
                assert(post.last() == (from, to, cost));
                lemma_named_distinct(pre);
                lemma_add_key(named(pre), from);
                lemma_add_key(add_key(named(pre), from), to);
                lemma_named_grows(es, k as int + 1);
            }
            let a = match number(&mut keys, from) {
                Ok(a) => a,
                Err(e) => {
                    proof {
                        assert(named(post).len() > MAX_CELLS);
                    }
                    return Err(e);
                },
            };
            let b = match number(&mut keys, to) {
                Ok(b) => b,
                Err(e) => {
                    proof {
                        assert(named(post).len() > MAX_CELLS);
                    }
                    return Err(e);
                },
            };
            let ghost l0 = listed@;
            if a != b {
                listed.push((a, b, cost));
                proof {
                    assert(listed@.drop_last() =~= l0);
                }
                if cost > top {
                    top = cost;
                }
            }
            proof {
                assert(keys@ == named(post));
                assert(a as int == named(post).index_of(from));
                assert(b as int == named(post).index_of(to));
                assert((a == b) == (from == to)) by {
                    if a == b {
                        assert(named(post)[a as int] == from);
                        assert(named(post)[b as int] == to);
                    }
                }
                assert(listed@ == numbered(post));
                assert forall|q: int| 0 <= q < listed@.len() implies (#[trigger] listed@[q]).0 < keys@.len() by {
                    if q < l0.len() {
                        assert(listed@[q] == l0[q]);
                    }
                }
                assert forall|q: int| 0 <= q < flipped(listed@).len() implies (#[trigger] flipped(listed@)[q]).0 < keys@.len() by {
                    if q < l0.len() {
                        assert(listed@[q] == l0[q]);
                        assert(flipped(l0)[q] == flipped(listed@)[q]);
                    }
                }
            }
            k = k + 1;
        }
        proof {
            assert(es.take(es.len() as int) =~= es);
        }
        let n = keys.len();
        let ceiling = cost_ceiling(n);
        if top > ceiling {
            return Err(GraphError::CostTooHigh { cost: top, ceiling, nodes: n });
        }
        let mut turned: Vec<(u32, u32, Cost)> = Vec::new();
        let mut k: usize = 0;
        while k < listed.len()
            invariant
                k <= listed@.len(),
                turned@.len() == k,
                forall|q: int| 0 <= q < k ==> #[trigger] turned@[q] == flipped(listed@)[q],
            decreases listed@.len() - k,
        {
            let (a, b, c) = listed[k];
            turned.push((b, a, c));
            k = k + 1;
        }
        proof {
            assert(turned@ =~= flipped(listed@));
        }
        let out = Rows::of(n, &listed);
        let back = Rows::of(n, &turned);
        let tag = Tag::of(keys.as_slice());
        Ok(Graph { keys, out, back, edges: listed, tag })
    }

    /// Build a graph from its edges: `(from, to, cost)`, for edges [`Graph::try_new`] accepts.
    pub fn new(edges: Vec<(K, K, Cost)>) -> (g: Self)
        requires
            obeys_concrete_eq::<K>(),
            named(edges@).len() <= MAX_CELLS,
            dearest(numbered(edges@)) <= ceiling_of(named(edges@).len() as int),
        ensures
            g.wf(),
            g.spec_keys() == named(edges@),
            g.spec_edges() == numbered(edges@),
    {
        match Self::try_new(edges) {
            Ok(g) => g,
            Err(_) => vstd::pervasive::unreached(),
        }
    }

    /// How many nodes the graph has.
    pub fn len(&self) -> (r: usize)
        ensures
            r == self.spec_keys().len(),
    {
        self.keys.len()
    }

    /// Whether the graph has no nodes at all.
    pub fn is_empty(&self) -> (b: bool)
        ensures
            b == (self.spec_keys().len() == 0),
    {
        self.keys.len() == 0
    }

    /// The index of a node, or `None` if no edge names it.
    pub fn index_of(&self, key: K) -> (r: Option<Idx>)
        requires
            self.wf(),
        ensures
            self.spec_keys().contains(key) ==> r == Some(idx(self.spec_keys().index_of(key))),
            !self.spec_keys().contains(key) ==> r is None,
    {
        let mut j: usize = 0;
        while j < self.keys.len()
            invariant
                self.wf(),
                j <= self.keys@.len(),
                forall|q: int| 0 <= q < j ==> self.keys@[q] != key,
            decreases self.keys@.len() - j,
        {
            if same_key(&self.keys[j], &key) {
                proof {
                    assert(self.keys@.contains(key));
                    let q = self.keys@.index_of(key);
                    if q != j {
                        assert(self.keys@[q] == self.keys@[j as int]);
                    }
                }
                return Some(Idx::new(self.tag, j as u32));
            }
            j = j + 1;
        }
        None
    }

    /// The index of a node that you know is in the graph.
    pub fn at(&self, key: K) -> (r: Idx)
        requires
            self.wf(),
            self.spec_keys().contains(key),
        ensures
            r == idx(self.spec_keys().index_of(key)),
    {
        match self.index_of(key) {
            Some(i) => i,
            None => vstd::pervasive::unreached(),
        }
    }

    /// The key of the node at an index.
    pub fn key(&self, i: Idx) -> (k: K)
        requires
            i.id() < self.spec_keys().len(),
        ensures
            k == self.spec_keys()[i.id()],
    {
        self.keys[i.raw() as usize]
    }

    /// Every node index, in order.
    pub fn indices(&self) -> (r: Vec<Idx>)
        requires
            self.wf(),
        ensures
            r@.len() == self.spec_keys().len(),
            forall|k: int| 0 <= k < r@.len() ==> #[trigger] r@[k] == idx(k),
    {
        let mut r: Vec<Idx> = Vec::new();
        let mut k: usize = 0;
        while k < self.keys.len()
            invariant
                self.wf(),
                k <= self.keys@.len(),
                r@.len() == k,
                forall|q: int| 0 <= q < k ==> #[trigger] r@[q] == idx(q),
            decreases self.keys@.len() - k,
        {
            r.push(Idx::new(self.tag, k as u32));
            k = k + 1;
        }
        r
    }

    /// Every node's key, in index order.
    pub fn keys(&self) -> (r: Vec<K>)
        ensures
            r@ == self.spec_keys(),
    {
        let mut r: Vec<K> = Vec::new();
        let mut k: usize = 0;
        while k < self.keys.len()
            invariant
                k <= self.keys@.len(),
                r@ == self.keys@.take(k as int),
            decreases self.keys@.len() - k,
        {
            r.push(self.keys[k]);
            proof {
                assert(r@ =~= self.keys@.take(k as int + 1));
            }
            k = k + 1;
        }
        proof {
            assert(r@ =~= self.keys@);
        }
        r
    }

    /// The keys of some indices, in the order given. This is how you read a [`Path`].
    pub fn keys_of(&self, of: &[Idx]) -> (r: Vec<K>)
        requires
            forall|k: int| 0 <= k < of@.len() ==> (#[trigger] of@[k]).id() < self.spec_keys().len(),
        ensures
            r@.len() == of@.len(),
            forall|k: int| 0 <= k < r@.len() ==> #[trigger] r@[k] == self.spec_keys()[of@[k].id()],
    {
        let mut r: Vec<K> = Vec::new();
        let mut k: usize = 0;
        while k < of.len()
            invariant
                forall|q: int| 0 <= q < of@.len() ==> (#[trigger] of@[q]).id() < self.spec_keys().len(),
                k <= of@.len(),
                r@.len() == k,
                forall|q: int| 0 <= q < k ==> #[trigger] r@[q] == self.spec_keys()[of@[q].id()],
            decreases of@.len() - k,
        {
            r.push(self.key(of[k]));
            k = k + 1;
        }
        r
    }

    /// The cheapest path from `start` to `goal`, or `None` if no route leads there.
    pub fn path(&self, start: Idx, goal: Idx) -> (r: Option<Path>)
        requires
            self.wf(),
            start.id() < self.spec_keys().len(),
            goal.id() < self.spec_keys().len(),
        ensures
            match r {
                Some(p) => {
                    &&& route_ok(self.spec_out(), start.id(), goal.id(), p.spec_steps(), p.spec_cost() as int)
                    &&& least_cost(self.spec_out(), start.id(), goal.id(), p.spec_cost() as int)
                },
                None => !connects(self.spec_out(), start.id(), goal.id()),
            },
    {
        let n = self.keys.len();
        let ghost adj = self.spec_out();
        let ghost hs = no_estimate(n as int);
        let ghost es = self.edges@;
        let edges = |u: u32| -> (r: Vec<(u32, Cost)>)
            requires
                self.wf(),
                (u as int) < self.spec_keys().len(),
            ensures
                r@ == row_of(self.spec_edges(), u as int),
            { self.out.row(u, Ghost(self.keys@.len() as int), Ghost(self.edges@)) };
        let zero = |u: u32| -> (r: Cost)
            ensures
                r == 0,
            { 0 };
        proof {
            assert(yields_edges(&edges, adj));
            assert(yields_estimates(&zero, hs));
            lemma_ends_fit(self.edges@, n as int);
            assert(crate::search::graph_ok(adj)) by {
                assert forall|u: int, k: int| 0 <= u < adj.len() && 0 <= k < adj[u].len() implies (#[trigger] adj[u][k]).0 < adj.len() by {
                    lemma_row_targets(es, u, n as int);
                }
            }
            assert(consistent(adj, hs, goal.id()));
        }
        match astar(n, start.raw(), goal.raw(), &edges, &zero, Ghost(adj), Ghost(hs)) {
            Some(route) => {
                let steps = mint(self.tag, &route.nodes);
                proof {
                    assert(ids(steps@) =~= route.nodes@);
                }
                Some(Path::of(steps, route.cost))
            },
            None => None,
        }
    }

    /// Every node that `start` can reach for no more than `budget`, and what reaching it costs.
    /// Cheapest first, and `start` itself comes back at cost 0. When no edge is free and the budget
    /// is below the ceiling, nodes of equal cost come lowest number first.
    pub fn reachable(&self, start: Idx, budget: Cost) -> (r: Vec<(Idx, Cost)>)
        requires
            self.wf(),
            start.id() < self.spec_keys().len(),
        ensures
            reach_ok(self.spec_out(), start.id(), budget as int, r@),
            positive(self.spec_out()) && budget < Cost::MAX ==> ties_by_index(r@),
    {
        let n = self.keys.len();
        let ghost adj = self.spec_out();
        let ghost es = self.edges@;
        let edges = |u: u32| -> (r: Vec<(u32, Cost)>)
            requires
                self.wf(),
                (u as int) < self.spec_keys().len(),
            ensures
                r@ == row_of(self.spec_edges(), u as int),
            { self.out.row(u, Ghost(self.keys@.len() as int), Ghost(self.edges@)) };
        proof {
            assert(yields_edges(&edges, adj));
            lemma_ends_fit(self.edges@, n as int);
            assert(crate::search::graph_ok(adj)) by {
                assert forall|u: int, k: int| 0 <= u < adj.len() && 0 <= k < adj[u].len() implies (#[trigger] adj[u][k]).0 < adj.len() by {
                    lemma_row_targets(es, u, n as int);
                }
            }
        }
        let (found, _) = explore(n, start.raw(), budget, &edges, Ghost(adj));
        let r = minted(self.tag, &found);
        proof {
            lemma_minted_reach(adj, start.id(), budget as int, found@, r@);
        }
        r
    }

    /// Every node that can reach `goal` for no more than `budget`, and what it costs them.
    ///
    /// The edges are directed, so this is one search over the edges that lead *into* each node.
    pub fn reaching(&self, goal: Idx, budget: Cost) -> (r: Vec<(Idx, Cost)>)
        requires
            self.wf(),
            goal.id() < self.spec_keys().len(),
        ensures
            reach_ok(self.spec_back(), goal.id(), budget as int, r@),
            positive(self.spec_back()) && budget < Cost::MAX ==> ties_by_index(r@),
    {
        let n = self.keys.len();
        let ghost adj = self.spec_back();
        let ghost es = flipped(self.edges@);
        let edges = |u: u32| -> (r: Vec<(u32, Cost)>)
            requires
                self.wf(),
                (u as int) < self.spec_keys().len(),
            ensures
                r@ == row_of(flipped(self.spec_edges()), u as int),
            { self.back.row(u, Ghost(self.keys@.len() as int), Ghost(flipped(self.edges@))) };
        proof {
            assert(yields_edges(&edges, adj));
            lemma_ends_fit(self.edges@, n as int);
            assert(crate::search::graph_ok(adj)) by {
                assert forall|u: int, k: int| 0 <= u < adj.len() && 0 <= k < adj[u].len() implies (#[trigger] adj[u][k]).0 < adj.len() by {
                    lemma_row_targets(es, u, n as int);
                }
            }
        }
        let (found, _) = explore(n, goal.raw(), budget, &edges, Ghost(adj));
        let r = minted(self.tag, &found);
        proof {
            lemma_minted_reach(adj, goal.id(), budget as int, found@, r@);
        }
        r
    }
}

/// Where the edges of a row lead: the `to` of some listed edge, so a node of the graph when every
/// edge's other end is one.
proof fn lemma_row_targets(edges: Seq<(u32, u32, Cost)>, r: int, n: int)
    requires
        forall|k: int| 0 <= k < edges.len() ==> (#[trigger] edges[k]).1 < n,
    ensures
        forall|t: int| 0 <= t < row_of(edges, r).len() ==> (#[trigger] row_of(edges, r)[t]).0 < n,
    decreases edges.len(),
{
    if edges.len() > 0 {
        let p = edges.drop_last();
        assert forall|k: int| 0 <= k < p.len() implies (#[trigger] p[k]).1 < n by {
            assert(p[k] == edges[k]);
        }
        lemma_row_targets(p, r, n);
        assert(edges[edges.len() - 1].1 < n);
        assert forall|t: int| 0 <= t < row_of(edges, r).len() implies (#[trigger] row_of(edges, r)[t]).0 < n by {
            if t < row_of(p, r).len() {
                assert(row_of(edges, r)[t] == row_of(p, r)[t]);
            }
        }
    }
}

/// Both ends of every edge are nodes, read either way round.
proof fn lemma_ends_fit(edges: Seq<(u32, u32, Cost)>, n: int)
    requires
        rows_fit(edges, n),
        rows_fit(flipped(edges), n),
    ensures
        forall|k: int| 0 <= k < edges.len() ==> (#[trigger] edges[k]).1 < n,
        forall|k: int| 0 <= k < flipped(edges).len() ==> (#[trigger] flipped(edges)[k]).1 < n,
{
    assert forall|k: int| 0 <= k < edges.len() implies (#[trigger] edges[k]).1 < n by {
        assert(flipped(edges)[k].0 == edges[k].1);
    }
    assert forall|k: int| 0 <= k < flipped(edges).len() implies (#[trigger] flipped(edges)[k]).1 < n by {
        assert(flipped(edges)[k].1 == edges[k].0);
    }
}

/// An edge is in a node's row exactly when the list has an edge from that node to that neighbour
/// at that cost.
proof fn lemma_row_has(edges: Seq<(u32, u32, Cost)>, r: int, x: u32, c: u32)
    ensures
        row_of(edges, r).contains((x, c)) <==> exists|k: int| 0 <= k < edges.len() && #[trigger] edges[k] == (r as u32, x, c) && r == edges[k].0,
    decreases edges.len(),
{
    if edges.len() > 0 {
        let p = edges.drop_last();
        let e = edges.last();
        lemma_row_has(p, r, x, c);
        if row_of(edges, r).contains((x, c)) {
            let i = row_of(edges, r).index_of((x, c));
            if i < row_of(p, r).len() {
                assert(row_of(p, r)[i] == (x, c));
                let k = choose|k: int| 0 <= k < p.len() && #[trigger] p[k] == (r as u32, x, c) && r == p[k].0;
                assert(edges[k] == p[k]);
            } else {
                assert(edges[edges.len() - 1] == e);
            }
        }
        if exists|k: int| 0 <= k < edges.len() && #[trigger] edges[k] == (r as u32, x, c) && r == edges[k].0 {
            let k = choose|k: int| 0 <= k < edges.len() && #[trigger] edges[k] == (r as u32, x, c) && r == edges[k].0;
            if k < p.len() {
                assert(p[k] == edges[k]);
                let i = row_of(p, r).index_of((x, c));
                assert(row_of(edges, r)[i] == row_of(p, r)[i]);
            } else {
                let q = row_of(edges, r);
                assert(q[q.len() - 1] == (x, c));
            }
        }
    }
}

impl<K: Copy + Eq + core::hash::Hash + core::fmt::Debug> Graph<K> {
    /// The edges into each node are the edges out of each node turned round.
    pub proof fn lemma_back_transposed(&self)
        requires
            self.wf(),
        ensures
            transposed(self.spec_out(), self.spec_back()),
            graph_ok(self.spec_out()),
            graph_ok(self.spec_back()),
    {
        let es = self.spec_edges();
        let n = self.spec_keys().len() as int;
        let a = self.spec_out();
        let b = self.spec_back();
        lemma_ends_fit(es, n);
        assert forall|u: int, k: int| 0 <= u < a.len() && 0 <= k < a[u].len() implies (#[trigger] a[u][k]).0 < a.len() by {
            lemma_row_targets(es, u, n);
        }
        assert forall|u: int, k: int| 0 <= u < b.len() && 0 <= k < b[u].len() implies (#[trigger] b[u][k]).0 < b.len() by {
            lemma_row_targets(flipped(es), u, n);
        }
        assert forall|u: u32, v: u32, c: u32| u < a.len() && v < a.len() implies (#[trigger] a[u as int].contains((v, c))
            <==> #[trigger] b[v as int].contains((u, c))) by {
            lemma_row_has(es, u as int, v, c);
            lemma_row_has(flipped(es), v as int, u, c);
            if a[u as int].contains((v, c)) {
                let k = choose|k: int| 0 <= k < es.len() && #[trigger] es[k] == (u, v, c) && u == es[k].0;
                assert(flipped(es)[k] == (v, u, c));
            }
            if b[v as int].contains((u, c)) {
                let k = choose|k: int| 0 <= k < flipped(es).len() && #[trigger] flipped(es)[k] == (v, u, c) && v == flipped(es)[k].0;
                assert(es[k] == (u, v, c));
            }
        }
    }

    /// Who can reach a node is answered by the search over the edges into each node: the cheapest
    /// walk from `v` to `goal` costs what the cheapest walk from `goal` to `v` over the edges
    /// turned round costs, and one exists exactly when the other does.
    pub proof fn lemma_reaching_reverses(&self, goal: int, v: int, k: int)
        requires
            self.wf(),
            0 <= goal < self.spec_keys().len(),
            0 <= v < self.spec_keys().len(),
        ensures
            least_cost(self.spec_back(), goal, v, k) == least_cost(self.spec_out(), v, goal, k),
            connects(self.spec_back(), goal, v) == connects(self.spec_out(), v, goal),
    {
        self.lemma_back_transposed();
        lemma_least_cost_transposed(self.spec_out(), self.spec_back(), goal, v, k);
    }
}

} // verus!
