//! The engine: A\* and budget-bounded Dijkstra, over nodes numbered `0..nodes`.
//!
//! The engine knows nothing of cells. It takes a node count, node numbers, and a closure that
//! yields the edges out of a node. Nodes are numbered `0..nodes`, so "what did this cost" and "how
//! did I get here" are vectors sized from the graph and read by subscript.
//!
//! # The queue
//!
//! A node is queued at most once, with its cheapest known cost and the estimate that goes with it.
//! The node taken next is the queued one with the lowest estimate, and of those the lowest number:
//! **cheapest first, then lowest number.** A cheaper route to a queued node updates it in place.
//!
//! # What is proved
//!
//! Totals saturate at `Cost::MAX` rather than wrap, so the spec speaks of [`sat`] of a walk's sum.
//! Every node the searches report carries the saturated cost of its cheapest walk, the budgeted
//! search reports exactly the nodes within budget, cheapest first, and A\* with a consistent
//! estimate returns a cheapest route.

use vstd::prelude::*;
use crate::coord::{Coord, Idx, idx};
use crate::grid::{Model, keep_some, lemma_keep_some_has};
use crate::path::{Cost, Step, honest, is_step, price, step_at};
use crate::tag::Tag;

verus! {

broadcast use crate::coord::group_idx;

/// The parent of the node a search set out from.
pub const NO_PARENT: u32 = 0xffff_ffff;

/// The cost of a node no route has reached yet.
pub const UNREACHED: u64 = 0xffff_ffff_ffff_ffff;

/// The most any total may reach: `Cost::MAX`.
pub const CEILING: u64 = 0xffff_ffff;

/// The most nodes a search is asked to walk: `2^24`.
pub const MAX_NODES: usize = 0x100_0000;

// ---------------------------------------------------------------------------------------------
// The model
// ---------------------------------------------------------------------------------------------

/// A total, saturated at `Cost::MAX`.
pub open spec fn sat(x: int) -> int {
    if x > CEILING {
        CEILING as int
    } else {
        x
    }
}

/// The sum of a walk's step costs.
pub open spec fn total(c: Seq<u32>) -> int
    decreases c.len(),
{
    if c.len() == 0 {
        0
    } else {
        total(c.drop_last()) + c.last()
    }
}

/// Every edge leads to a node of the graph.
pub open spec fn graph_ok(adj: Seq<Seq<(u32, u32)>>) -> bool {
    forall|u: int, k: int|
        0 <= u < adj.len() && 0 <= k < adj[u].len() ==> (#[trigger] adj[u][k]).0 < adj.len()
}

/// The `i`th step of a walk is an edge of the graph.
pub open spec fn step_ok(adj: Seq<Seq<(u32, u32)>>, w: Seq<u32>, c: Seq<u32>, i: int) -> bool {
    &&& 0 <= w[i] < adj.len()
    &&& adj[w[i] as int].contains((w[i + 1], c[i]))
}

/// `w` is a walk through the graph, and `c[i]` is the cost of the edge from `w[i]` to `w[i + 1]`.
pub open spec fn is_walk(adj: Seq<Seq<(u32, u32)>>, w: Seq<u32>, c: Seq<u32>) -> bool {
    &&& w.len() == c.len() + 1
    &&& forall|i: int| 0 <= i < c.len() ==> #[trigger] step_ok(adj, w, c, i)
}

/// A walk from `s` to `v`.
pub open spec fn walk_between(
    adj: Seq<Seq<(u32, u32)>>,
    s: int,
    v: int,
    w: Seq<u32>,
    c: Seq<u32>,
) -> bool {
    &&& is_walk(adj, w, c)
    &&& w[0] == s
    &&& w.last() == v
}

/// `k` is what the cheapest walk from `s` to `v` costs, saturated.
pub open spec fn least_cost(adj: Seq<Seq<(u32, u32)>>, s: int, v: int, k: int) -> bool {
    &&& exists|w: Seq<u32>, c: Seq<u32>| walk_between(adj, s, v, w, c) && sat(total(c)) == k
    &&& forall|w: Seq<u32>, c: Seq<u32>| walk_between(adj, s, v, w, c) ==> k <= sat(total(c))
}

/// Some walk leads from `s` to `v`.
pub open spec fn connects(adj: Seq<Seq<(u32, u32)>>, s: int, v: int) -> bool {
    exists|w: Seq<u32>, c: Seq<u32>| walk_between(adj, s, v, w, c)
}

/// The estimate never drops by more than an edge costs, and is zero at the goal. An estimate
/// like this never overestimates what is left to pay.
pub open spec fn consistent(adj: Seq<Seq<(u32, u32)>>, hs: Seq<u32>, goal: int) -> bool {
    &&& hs.len() == adj.len()
    &&& hs[goal] == 0
    &&& forall|u: int, k: int|
        0 <= u < adj.len() && 0 <= k < adj[u].len() ==> hs[u] <= (#[trigger] adj[u][k]).1
            + hs[adj[u][k].0 as int]
}

/// The closure `edges` hands back the edges the model says each node has.
pub open spec fn yields_edges<E: Fn(u32) -> Vec<(u32, Cost)>>(
    edges: &E,
    adj: Seq<Seq<(u32, u32)>>,
) -> bool {
    &&& forall|n: u32| n < adj.len() ==> #[trigger] edges.requires((n,))
    &&& forall|n: u32, r: Vec<(u32, Cost)>|
        n < adj.len() && #[trigger] edges.ensures((n,), r) ==> r@ == adj[n as int]
}

/// The closure `h` hands back the estimate the model gives each node.
pub open spec fn yields_estimates<H: Fn(u32) -> Cost>(h: &H, hs: Seq<u32>) -> bool {
    &&& forall|n: u32| n < hs.len() ==> #[trigger] h.requires((n,))
    &&& forall|n: u32, r: u32| n < hs.len() && #[trigger] h.ensures((n,), r) ==> r == hs[n as int]
}

/// The sum of the entries of a table.
pub open spec fn table_sum(s: Seq<u64>) -> int
    decreases s.len(),
{
    if s.len() == 0 {
        0
    } else {
        table_sum(s.drop_last()) + s.last()
    }
}

// ---------------------------------------------------------------------------------------------
// Lemmas about the model
// ---------------------------------------------------------------------------------------------

proof fn lemma_total_push(c: Seq<u32>, x: u32)
    ensures
        total(c.push(x)) == total(c) + x,
{
    assert(c.push(x).drop_last() =~= c);
}

proof fn lemma_total_nonneg(c: Seq<u32>)
    ensures
        total(c) >= 0,
    decreases c.len(),
{
    if c.len() > 0 {
        lemma_total_nonneg(c.drop_last());
    }
}

proof fn lemma_table_sum_update(s: Seq<u64>, i: int, x: u64)
    requires
        0 <= i < s.len(),
    ensures
        table_sum(s.update(i, x)) == table_sum(s) - s[i] + x,
    decreases s.len(),
{
    let t = s.update(i, x);
    if i == s.len() - 1 {
        assert(t.drop_last() =~= s.drop_last());
    } else {
        assert(t.drop_last() =~= s.drop_last().update(i, x));
        lemma_table_sum_update(s.drop_last(), i, x);
    }
}

proof fn lemma_table_sum_nonneg(s: Seq<u64>)
    ensures
        table_sum(s) >= 0,
    decreases s.len(),
{
    if s.len() > 0 {
        lemma_table_sum_nonneg(s.drop_last());
    }
}

/// A walk extended by one edge is a walk.
proof fn lemma_walk_push(adj: Seq<Seq<(u32, u32)>>, w: Seq<u32>, c: Seq<u32>, v: u32, x: u32)
    requires
        is_walk(adj, w, c),
        0 <= w.last() < adj.len(),
        adj[w.last() as int].contains((v, x)),
    ensures
        is_walk(adj, w.push(v), c.push(x)),
        w.push(v)[0] == w[0],
        total(c.push(x)) == total(c) + x,
{
    lemma_total_push(c, x);
    let w2 = w.push(v);
    let c2 = c.push(x);
    assert forall|i: int| 0 <= i < c2.len() implies #[trigger] step_ok(adj, w2, c2, i) by {
        if i < c.len() {
            assert(step_ok(adj, w, c, i));
        }
    }
}

/// The prefix of a walk is a walk, and costs no more than the whole.
proof fn lemma_walk_prefix(adj: Seq<Seq<(u32, u32)>>, w: Seq<u32>, c: Seq<u32>, j: int)
    requires
        is_walk(adj, w, c),
        0 <= j <= c.len(),
    ensures
        is_walk(adj, w.take(j + 1), c.take(j)),
        total(c.take(j)) <= total(c),
    decreases c.len() - j,
{
    let w2 = w.take(j + 1);
    let c2 = c.take(j);
    assert forall|i: int| 0 <= i < c2.len() implies #[trigger] step_ok(adj, w2, c2, i) by {
        assert(step_ok(adj, w, c, i));
    }
    if j < c.len() {
        lemma_walk_prefix(adj, w, c, j + 1);
        assert(c.take(j + 1).drop_last() =~= c.take(j));
    } else {
        assert(c.take(j) =~= c);
    }
}

/// Along any walk, the estimate at a node is at most what the rest of the walk costs plus the
/// estimate at its end.
proof fn lemma_estimate_along(
    adj: Seq<Seq<(u32, u32)>>,
    hs: Seq<u32>,
    goal: int,
    w: Seq<u32>,
    c: Seq<u32>,
)
    requires
        consistent(adj, hs, goal),
        graph_ok(adj),
        is_walk(adj, w, c),
        0 <= w[0] < adj.len(),
    ensures
        hs[w[0] as int] <= total(c) + hs[w.last() as int],
    decreases c.len(),
{
    if c.len() > 0 {
        let w2 = w.drop_last();
        let c2 = c.drop_last();
        assert forall|i: int| 0 <= i < c2.len() implies #[trigger] step_ok(adj, w2, c2, i) by {
            assert(step_ok(adj, w, c, i));
        }
        lemma_estimate_along(adj, hs, goal, w2, c2);
        let i = c.len() - 1;
        assert(step_ok(adj, w, c, i));
        let u = w[i] as int;
        let k = adj[u].index_of((w[i + 1], c[i]));
        assert(adj[u][k] == (w[i + 1], c[i]));
        assert(hs[u] <= adj[u][k].1 + hs[adj[u][k].0 as int]);
    }
}

proof fn lemma_total_prepend(x: u32, c: Seq<u32>)
    ensures
        total(seq![x] + c) == x + total(c),
    decreases c.len(),
{
    if c.len() > 0 {
        lemma_total_prepend(x, c.drop_last());
        assert((seq![x] + c).drop_last() =~= seq![x] + c.drop_last());
        assert((seq![x] + c).last() == c.last());
    } else {
        assert(seq![x] + c =~= seq![x]);
        assert(seq![x].drop_last() =~= Seq::<u32>::empty());
        assert(total(seq![x]) == total(seq![x].drop_last()) + x);
    }
}

proof fn lemma_total_split(c: Seq<u32>, j: int)
    requires
        0 <= j <= c.len(),
    ensures
        total(c) == total(c.take(j)) + total(c.skip(j)),
    decreases c.len(),
{
    if j == c.len() {
        assert(c.take(j) =~= c);
        assert(c.skip(j) =~= Seq::<u32>::empty());
    } else {
        lemma_total_split(c.drop_last(), j);
        assert(c.drop_last().take(j) =~= c.take(j));
        assert(c.skip(j).drop_last() =~= c.drop_last().skip(j));
    }
}

/// The rest of a walk, from its `j`th node on, is a walk.
proof fn lemma_walk_suffix(adj: Seq<Seq<(u32, u32)>>, w: Seq<u32>, c: Seq<u32>, j: int)
    requires
        is_walk(adj, w, c),
        0 <= j <= c.len(),
    ensures
        is_walk(adj, w.skip(j), c.skip(j)),
        w.skip(j)[0] == w[j],
        w.skip(j).last() == w.last(),
{
    let w2 = w.skip(j);
    let c2 = c.skip(j);
    assert forall|i: int| 0 <= i < c2.len() implies #[trigger] step_ok(adj, w2, c2, i) by {
        assert(step_ok(adj, w, c, i + j));
    }
}

/// `a + b`, saturated at `Cost::MAX`.
fn capped_add(a: u64, b: u64) -> (r: u64)
    requires
        a <= CEILING,
        b <= CEILING,
    ensures
        r == sat(a + b),
{
    if a + b > CEILING {
        CEILING
    } else {
        a + b
    }
}

// ---------------------------------------------------------------------------------------------
// The frontier
// ---------------------------------------------------------------------------------------------

/// A route the engine found, as node numbers, and what walking it costs.
pub struct Route {
    /// The nodes walked through, starting with the one the search set out from.
    pub nodes: Vec<u32>,
    /// What the search reckoned walking them costs.
    pub cost: Cost,
}

/// The queue of nodes to visit, and what the search has learned about the ones it has seen.
///
/// A cheaper route to a node means three things at once: a new cost, a new predecessor, and a
/// visit to schedule. [`Frontier::relax`] is the single way to say it.
pub struct Frontier {
    /// The cheapest known total to each node, or [`UNREACHED`].
    cost: Vec<u64>,
    /// How each node was reached at its cheapest known cost.
    parent: Vec<u32>,
    /// The queued estimate of each node: its cost plus the heuristic.
    est: Vec<u64>,
    /// Whether a node waits in `queue`.
    queued: Vec<bool>,
    /// The nodes waiting to be expanded, each once.
    queue: Vec<u32>,
    /// The start node.
    start: u32,
    /// The graph being searched.
    adj: Ghost<Seq<Seq<(u32, u32)>>>,
    /// The estimate of each node.
    hs: Ghost<Seq<u32>>,
    /// What the edge from each node's parent costs.
    pcost: Ghost<Seq<u32>>,
    /// When each node's cost was last lowered.
    stamp: Ghost<Seq<nat>>,
    /// The next stamp.
    clock: Ghost<nat>,
    /// A walk to each reached node that costs what the table says.
    wit: Ghost<Seq<(Seq<u32>, Seq<u32>)>>,
}

impl Frontier {
    pub closed spec fn graph(self) -> Seq<Seq<(u32, u32)>> {
        self.adj@
    }

    pub closed spec fn source(self) -> int {
        self.start as int
    }

    pub closed spec fn cost_of(self, v: int) -> int {
        self.cost@[v] as int
    }

    pub closed spec fn reached(self, v: int) -> bool {
        self.cost@[v] != UNREACHED
    }

    pub closed spec fn is_queued(self, v: int) -> bool {
        self.queued@[v]
    }

    /// Reached, and no longer waiting: every edge out of it has been tried.
    pub closed spec fn closed(self, v: int) -> bool {
        self.cost@[v] != UNREACHED && !self.queued@[v]
    }

    pub closed spec fn queue_len(self) -> int {
        self.queue@.len() as int
    }

    pub closed spec fn measure(self) -> int {
        table_sum(self.cost@)
    }

    /// The edge from `v`'s parent is a real edge, costs no more than the difference, and the parent
    /// was reached earlier or more cheaply. That last part is what makes the parents a tree.
    closed spec fn parent_ok(self, v: int) -> bool {
        let p = self.parent@[v] as int;
        &&& 0 <= p < self.cost@.len()
        &&& self.cost@[p] != UNREACHED
        &&& self.adj@[p].contains((v as u32, self.pcost@[v]))
        &&& sat(self.cost@[p] + self.pcost@[v]) <= self.cost@[v]
        &&& (self.cost@[p] < self.cost@[v] || (self.cost@[p] == self.cost@[v] && self.stamp@[p]
            < self.stamp@[v]))
    }

    /// The node the search reached `v` from at its cheapest known cost.
    pub closed spec fn parent_of(self, v: int) -> int {
        self.parent@[v] as int
    }

    /// `x` was reached more cheaply than `y`, or as cheaply and earlier.
    closed spec fn earlier(self, x: int, y: int) -> bool {
        self.cost@[x] < self.cost@[y] || (self.cost@[x] == self.cost@[y] && self.stamp@[x] < self.stamp@[y])
    }

    closed spec fn witness_ok(self, v: int) -> bool {
        let (w, c) = self.wit@[v];
        &&& walk_between(self.adj@, self.start as int, v, w, c)
        &&& sat(total(c)) == self.cost@[v]
    }

    /// Every edge out of `u` has been tried.
    pub closed spec fn relaxed(self, u: int) -> bool {
        forall|k: int|
            0 <= k < self.adj@[u].len() ==> self.cost@[(#[trigger] self.adj@[u][k]).0 as int]
                != UNREACHED && self.cost@[self.adj@[u][k].0 as int] <= sat(
                self.cost@[u] + self.adj@[u][k].1,
            )
    }

    /// Every edge out of `u` before the `k`th has been tried.
    pub closed spec fn relaxed_to(self, u: int, k: int) -> bool {
        forall|j: int|
            0 <= j < k ==> self.cost@[(#[trigger] self.adj@[u][j]).0 as int] != UNREACHED
                && self.cost@[self.adj@[u][j].0 as int] <= sat(self.cost@[u] + self.adj@[u][j].1)
    }

    /// The bookkeeping that every step of a search keeps.
    pub closed spec fn inv(self) -> bool {
        let n = self.cost@.len();
        &&& n == self.adj@.len()
        &&& n == self.parent@.len()
        &&& n == self.est@.len()
        &&& n == self.queued@.len()
        &&& n == self.hs@.len()
        &&& n == self.pcost@.len()
        &&& n == self.stamp@.len()
        &&& n == self.wit@.len()
        &&& n <= MAX_NODES
        &&& graph_ok(self.adj@)
        &&& self.start < n
        &&& self.cost@[self.start as int] == 0
        &&& self.parent@[self.start as int] == NO_PARENT
        &&& forall|v: int| 0 <= v < n ==> #[trigger] self.cost@[v] == UNREACHED || self.cost@[v] <= CEILING
        &&& forall|v: int| 0 <= v < n && #[trigger] self.queued@[v] ==> self.cost@[v] != UNREACHED
        &&& forall|v: int|
            0 <= v < n && #[trigger] self.queued@[v] ==> self.est@[v] == sat(
                self.cost@[v] + self.hs@[v],
            ) || (v == self.start && self.est@[v] == 0)
        &&& self.queue@.no_duplicates()
        &&& forall|k: int|
            0 <= k < self.queue@.len() ==> #[trigger] self.queue@[k] < n && self.queued@[self.queue@[k] as int]
        &&& forall|v: int| 0 <= v < n && #[trigger] self.queued@[v] ==> self.queue@.contains(v as u32)
        &&& forall|v: int|
            0 <= v < n && v != self.start && #[trigger] self.cost@[v] != UNREACHED
                ==> self.parent_ok(v)
        &&& forall|v: int| 0 <= v < n && #[trigger] self.cost@[v] != UNREACHED ==> self.witness_ok(v)
        &&& forall|v: int| 0 <= v < n ==> #[trigger] self.stamp@[v] < self.clock@
    }

    /// Closed nodes have had every edge tried, `u` perhaps excepted.
    pub closed spec fn settled_but(self, u: int) -> bool {
        forall|x: int| 0 <= x < self.cost@.len() && x != u && #[trigger] self.closed(x) ==> self.relaxed(x)
    }

    /// A search that has reached its start and nothing else.
    fn new(nodes: usize, start: u32, Ghost(adj): Ghost<Seq<Seq<(u32, u32)>>>, Ghost(hs): Ghost<Seq<u32>>) -> (f: Self)
        requires
            nodes == adj.len(),
            nodes == hs.len(),
            nodes <= MAX_NODES,
            start < nodes,
            graph_ok(adj),
        ensures
            f.inv(),
            f.settled_but(-1),
            f.graph() == adj,
            f.source() == start,
            f.queue_len() == 1,
            f.is_queued(start as int),
            forall|v: int| 0 <= v < nodes && v != start ==> !#[trigger] f.reached(v),
            f.hs@ == hs,
    {
        let mut cost: Vec<u64> = Vec::new();
        let mut parent: Vec<u32> = Vec::new();
        let mut est: Vec<u64> = Vec::new();
        let mut queued: Vec<bool> = Vec::new();
        let mut k: usize = 0;
        while k < nodes
            invariant
                k <= nodes,
                cost@.len() == k,
                parent@.len() == k,
                est@.len() == k,
                queued@.len() == k,
                forall|v: int| 0 <= v < k ==> #[trigger] cost@[v] == UNREACHED,
                forall|v: int| 0 <= v < k ==> #[trigger] parent@[v] == NO_PARENT,
                forall|v: int| 0 <= v < k ==> !#[trigger] queued@[v],
            decreases nodes - k,
        {
            cost.push(UNREACHED);
            parent.push(NO_PARENT);
            est.push(0);
            queued.push(false);
            k = k + 1;
        }
        cost.set(start as usize, 0);
        queued.set(start as usize, true);
        est.set(start as usize, 0);
        let mut queue: Vec<u32> = Vec::new();
        queue.push(start);
        let ghost wit = Seq::new(nodes as nat, |v: int| (seq![start], Seq::<u32>::empty()));
        let ghost pcost = Seq::new(nodes as nat, |v: int| 0u32);
        let ghost stamp = Seq::new(nodes as nat, |v: int| 0nat);
        let f = Frontier {
            cost,
            parent,
            est,
            queued,
            queue,
            start,
            adj: Ghost(adj),
            hs: Ghost(hs),
            pcost: Ghost(pcost),
            stamp: Ghost(stamp),
            clock: Ghost(1nat),
            wit: Ghost(wit),
        };
        proof {
            assert(f.queue@ =~= seq![start]);
            assert(f.queue@.contains(start)) by {
                assert(f.queue@[0] == start);
            }
            assert forall|v: int| 0 <= v < nodes && #[trigger] f.cost@[v] != UNREACHED implies f.witness_ok(v) by {
                assert(v == start);
                let (w, c) = f.wit@[v];
                assert(total(c) == 0);
                assert(is_walk(adj, w, c));
            }
        }
        f
    }

    /// The queued node to expand next: the lowest estimate, and of those the lowest number.
    fn peek_min(&self) -> (k: usize)
        requires
            self.inv(),
            self.queue@.len() > 0,
        ensures
            k < self.queue@.len(),
            forall|j: int|
                0 <= j < self.queue@.len() ==> self.est@[self.queue@[k as int] as int] < self.est@[#[trigger] self.queue@[j] as int]
                    || (self.est@[self.queue@[k as int] as int] == self.est@[self.queue@[j] as int] && self.queue@[k as int] <= self.queue@[j]),
    {
        let mut best: usize = 0;
        let mut j: usize = 1;
        while j < self.queue.len()
            invariant
                self.inv(),
                0 < j <= self.queue@.len(),
                best < j,
                forall|i: int|
                    0 <= i < j ==> self.est@[self.queue@[best as int] as int] < self.est@[#[trigger] self.queue@[i] as int]
                        || (self.est@[self.queue@[best as int] as int] == self.est@[self.queue@[i] as int] && self.queue@[best as int] <= self.queue@[i]),
            decreases self.queue@.len() - j,
        {
            let a = self.queue[j];
            let b = self.queue[best];
            proof {
                assert(self.queue@[j as int] < self.cost@.len());
                assert(self.queue@[best as int] < self.cost@.len());
            }
            if self.est[a as usize] < self.est[b as usize] || (self.est[a as usize] == self.est[b as usize] && a < b) {
                best = j;
            }
            j = j + 1;
        }
        best
    }

    /// Take the `k`th node off the queue, to be expanded.
    #[verifier::spinoff_prover]
    #[verifier::rlimit(40)]
    fn take(&mut self, k: usize) -> (u: u32)
        requires
            old(self).inv(),
            k < old(self).queue@.len(),
        ensures
            final(self).inv(),
            u == old(self).queue@[k as int],
            u < old(self).cost@.len(),
            old(self).queued@[u as int],
            final(self).cost@ == old(self).cost@,
            final(self).queued@ == old(self).queued@.update(u as int, false),
            final(self).queue@.len() == old(self).queue@.len() - 1,
            final(self).est@ == old(self).est@,
            final(self).adj@ == old(self).adj@,
            final(self).hs@ == old(self).hs@,
            final(self).start == old(self).start,
            final(self).wit@ == old(self).wit@,
            final(self).parent@ == old(self).parent@,
            final(self).pcost@ == old(self).pcost@,
            final(self).stamp@ == old(self).stamp@,
    {
        let u = self.queue[k];
        proof {
            assert(self.queue@[k as int] < self.cost@.len());
        }
        let ghost q0 = self.queue@;
        self.queue.swap_remove(k);
        self.queued.set(u as usize, false);
        proof {
            let q1 = self.queue@;
            assert(q1 == q0.update(k as int, q0.last()).drop_last());
            assert forall|i: int, j: int| 0 <= i < j < q1.len() implies q1[i] != q1[j] by {
                if i == k {
                    assert(q0[q0.len() - 1] != q0[j]);
                } else if j == k {
                    assert(q0[i] != q0[q0.len() - 1]);
                } else {
                    assert(q0[i] != q0[j]);
                }
            }
            assert forall|i: int| 0 <= i < q1.len() implies #[trigger] q1[i] < self.cost@.len() && self.queued@[q1[i] as int] by {
                if i == k {
                    assert(q0[q0.len() - 1] != q0[k as int]);
                    assert(q1[i] == q0[q0.len() - 1]);
                } else {
                    assert(q0[i] != q0[k as int]);
                }
            }
            assert forall|v: int| 0 <= v < self.cost@.len() && #[trigger] self.queued@[v] implies q1.contains(v as u32) by {
                assert(v != u);
                assert(q0.contains(v as u32));
                let i = q0.index_of(v as u32);
                if i == q0.len() - 1 {
                    if k as int == q0.len() - 1 {
                        assert(q0[i] == u);
                    } else {
                        assert(q1[k as int] == v as u32);
                    }
                } else {
                    assert(i != k);
                    assert(q1[i] == v as u32);
                }
            }
        }
        u
    }

    /// Take an edge out of `from`, and keep it if it beats the cheapest route to `to`.
    ///
    /// Cost, predecessor, and queue move together or not at all. `h` is asked for the estimate of
    /// `to` only when the edge is kept.
    #[verifier::spinoff_prover]
    #[verifier::rlimit(60)]
    fn relax<H: Fn(u32) -> Cost>(&mut self, from: u32, to: u32, step: Cost, h: &H)
        requires
            old(self).inv(),
            from < old(self).cost@.len(),
            old(self).cost@[from as int] != UNREACHED,
            old(self).adj@[from as int].contains((to, step)),
            yields_estimates(h, old(self).hs@),
        ensures
            final(self).inv(),
            final(self).adj@ == old(self).adj@,
            final(self).hs@ == old(self).hs@,
            final(self).start == old(self).start,
            ({
                let nt = sat(old(self).cost@[from as int] + step);
                if nt < old(self).cost@[to as int] {
                    &&& final(self).cost@ == old(self).cost@.update(to as int, nt as u64)
                    &&& final(self).queued@ == old(self).queued@.update(to as int, true)
                    &&& final(self).queue@.len() <= old(self).queue@.len() + 1
                } else {
                    &&& final(self).cost@ == old(self).cost@
                    &&& final(self).queued@ == old(self).queued@
                    &&& final(self).queue@ == old(self).queue@
                    &&& final(self).est@ == old(self).est@
                }
            }),
    {
        proof {
            let u = from as int;
            let k = self.adj@[u].index_of((to, step));
            assert(self.adj@[u][k] == (to, step));
        }
        let total = capped_add(self.cost[from as usize], step as u64);
        let at = to as usize;
        if total >= self.cost[at] {
            return;
        }
        let ghost old_self = *self;
        let e = h(to);
        let ghost (fw, fc) = self.wit@[from as int];
        self.cost.set(at, total);
        self.parent.set(at, from);
        self.est.set(at, capped_add(total, e as u64));
        if !self.queued[at] {
            self.queued.set(at, true);
            self.queue.push(to);
        }
        proof {
            let t = to as int;
            self.pcost@ = self.pcost@.update(t, step);
            self.stamp@ = self.stamp@.update(t, self.clock@);
            self.clock@ = self.clock@ + 1;
            assert(old_self.witness_ok(from as int));
            lemma_walk_push(self.adj@, fw, fc, to, step);
            lemma_total_nonneg(fc);
            self.wit@ = self.wit@.update(t, (fw.push(to), fc.push(step)));
            let n = self.cost@.len();
            let q = self.queue@;
            let q0 = old_self.queue@;
            if old_self.queued@[t] {
                assert(q == q0);
            } else {
                assert(q == q0.push(to));
                assert(!q0.contains(to));
                assert forall|i: int, j: int| 0 <= i < j < q.len() implies q[i] != q[j] by {
                    if j == q.len() - 1 {
                        assert(q[i] == q0[i]);
                    }
                }
                assert(q.no_duplicates());
            }
            assert forall|i: int| 0 <= i < q.len() implies #[trigger] q[i] < n && self.queued@[q[i] as int] by {
                if i < q0.len() {
                    assert(q[i] == q0[i]);
                }
            }
            assert forall|v: int| 0 <= v < n && #[trigger] self.queued@[v] implies q.contains(v as u32) by {
                if v == t {
                    if !old_self.queued@[t] {
                        assert(q[q.len() - 1] == to);
                    }
                } else {
                    assert(q0.contains(v as u32));
                    let i = q0.index_of(v as u32);
                    assert(q[i] == v as u32);
                }
            }
            assert forall|v: int| 0 <= v < n && v != self.start && #[trigger] self.cost@[v] != UNREACHED
                implies self.parent_ok(v) by {
                if v == t {
                    assert(self.parent@[v] == from);
                    assert(old_self.stamp@[from as int] < old_self.clock@);
                } else {
                    assert(old_self.parent_ok(v));
                    let p = self.parent@[v] as int;
                    if p == t {
                        assert(self.cost@[p] < old_self.cost@[p]);
                    }
                }
            }
            assert forall|v: int| 0 <= v < n && #[trigger] self.cost@[v] != UNREACHED implies self.witness_ok(v) by {
                if v != t {
                    assert(old_self.witness_ok(v));
                }
            }
            assert forall|v: int| 0 <= v < n implies #[trigger] self.stamp@[v] < self.clock@ by {
                if v != t {
                    assert(old_self.stamp@[v] < old_self.clock@);
                }
            }
            assert(t != self.start) by {
                assert(old_self.cost@[self.start as int] == 0);
            }
        }
    }

    /// Along a walk from the start, the first node still queued costs no more than the walk up to
    /// it; if none is queued, every node of the walk is closed and its end costs no more than the
    /// walk. This is what every claim of optimality rests on.
    proof fn lemma_walk_frontier(self, w: Seq<u32>, c: Seq<u32>, i: int) -> (j: int)
        requires
            self.inv(),
            self.settled_but(-1),
            is_walk(self.adj@, w, c),
            w[0] == self.start,
            0 <= i < w.len(),
            self.cost@[w[i] as int] != UNREACHED,
            self.cost@[w[i] as int] <= sat(total(c.take(i))),
        ensures
            (i <= j < w.len() && 0 <= w[j] < self.cost@.len() && self.queued@[w[j] as int] && self.cost@[w[j] as int] <= sat(
                total(c.take(j)),
            )) || (j == -1 && self.closed(w.last() as int) && self.cost@[w.last() as int] <= sat(
                total(c),
            )),
        decreases w.len() - i,
    {
        let n = self.cost@.len();
        let x = w[i] as int;
        if i < c.len() {
            assert(step_ok(self.adj@, w, c, i));
        } else {
            assert(c.take(i) =~= c);
        }
        assert(0 <= x < n) by {
            if i < c.len() {
            } else if i > 0 {
                assert(step_ok(self.adj@, w, c, i - 1));
                let y = w[i - 1] as int;
                let k = self.adj@[y].index_of((w[i], c[i - 1]));
                assert(self.adj@[y][k].0 == w[i]);
            }
        }
        if self.queued@[x] {
            return i;
        }
        if i == c.len() {
            return -1;
        }
        assert(self.closed(x));
        assert(self.relaxed(x));
        let k = self.adj@[x].index_of((w[i + 1], c[i]));
        assert(self.adj@[x][k] == (w[i + 1], c[i]));
        lemma_total_push(c.take(i), c[i]);
        assert(c.take(i + 1) =~= c.take(i).push(c[i]));
        lemma_total_nonneg(c.take(i));
        self.lemma_walk_frontier(w, c, i + 1)
    }

    /// The route to `goal`, read back down the predecessors to the node the search set out from.
    #[verifier::spinoff_prover]
    #[verifier::rlimit(40)]
    pub(crate) fn walk_home(&self, goal: u32) -> (r: Route)
        requires
            self.inv(),
            goal < self.graph().len(),
            self.reached(goal as int),
        ensures
            r.cost == self.cost_of(goal as int),
            r.nodes@.len() >= 1,
            r.nodes@[0] == self.source(),
            r.nodes@.last() == goal,
            exists|c: Seq<u32>| is_walk(self.graph(), r.nodes@, c) && sat(total(c)) <= r.cost,
            r.nodes@.no_duplicates(),
            forall|i: int| 0 < i < r.nodes@.len() ==> self.parent_of(#[trigger] r.nodes@[i] as int) == r.nodes@[i - 1],
    {
        let mut back: Vec<u32> = Vec::new();
        back.push(goal);
        let mut at = goal;
        let ghost mut w: Seq<u32> = seq![goal];
        let ghost mut cs: Seq<u32> = Seq::empty();
        loop
            invariant
                self.inv(),
                at < self.cost@.len(),
                self.cost@[at as int] != UNREACHED,
                self.cost@[goal as int] != UNREACHED,
                w.len() == back@.len(),
                forall|i: int| 0 <= i < w.len() ==> w[i] == back@[back@.len() - 1 - i],
                is_walk(self.adj@, w, cs),
                w[0] == at,
                w.last() == goal,
                sat(self.cost@[at as int] + total(cs)) <= self.cost@[goal as int],
                forall|i: int, j: int| 0 <= i < j < w.len() ==> self.earlier(#[trigger] w[i] as int, #[trigger] w[j] as int),
                forall|i: int| 0 < i < w.len() ==> self.parent@[#[trigger] w[i] as int] == w[i - 1],
            ensures
                at == self.start,
                w.len() == back@.len(),
                forall|i: int| 0 <= i < w.len() ==> w[i] == back@[back@.len() - 1 - i],
                is_walk(self.adj@, w, cs),
                w[0] == at,
                w.last() == goal,
                sat(total(cs)) <= self.cost@[goal as int],
                forall|i: int, j: int| 0 <= i < j < w.len() ==> self.earlier(#[trigger] w[i] as int, #[trigger] w[j] as int),
                forall|i: int| 0 < i < w.len() ==> self.parent@[#[trigger] w[i] as int] == w[i - 1],
            decreases self.cost@[at as int], self.stamp@[at as int],
        {
            let up = self.parent[at as usize];
            if up == NO_PARENT {
                proof {
                    if at != self.start {
                        assert(self.parent_ok(at as int));
                    }
                }
                break;
            }
            proof {
                if at == self.start {
                    assert(false);
                }
                assert(self.parent_ok(at as int));
                let pc = self.pcost@[at as int];
                lemma_total_prepend(pc, cs);
                lemma_total_nonneg(cs);
                let w2 = seq![up] + w;
                let c2 = seq![pc] + cs;
                assert forall|i: int| 0 <= i < c2.len() implies #[trigger] step_ok(self.adj@, w2, c2, i) by {
                    if i > 0 {
                        assert(step_ok(self.adj@, w, cs, i - 1));
                        assert(w2[i] == w[i - 1]);
                        assert(w2[i + 1] == w[i]);
                        assert(c2[i] == cs[i - 1]);
                    }
                }
                assert(self.earlier(up as int, at as int));
                assert forall|i: int, j: int| 0 <= i < j < w2.len() implies self.earlier(#[trigger] w2[i] as int, #[trigger] w2[j] as int) by {
                    if i == 0 {
                        if j > 1 {
                            assert(self.earlier(w[0] as int, w[j - 1] as int));
                        }
                    } else {
                        assert(w2[i] == w[i - 1] && w2[j] == w[j - 1]);
                    }
                }
                assert forall|i: int| 0 < i < w2.len() implies self.parent@[#[trigger] w2[i] as int] == w2[i - 1] by {
                    if i > 1 {
                        assert(w2[i] == w[i - 1] && w2[i - 1] == w[i - 2]);
                    }
                }
                w = w2;
                cs = c2;
            }
            at = up;
            back.push(at);
        }
        let mut nodes: Vec<u32> = Vec::new();
        let mut k: usize = back.len();
        while k > 0
            invariant
                k <= back@.len(),
                w.len() == back@.len(),
                forall|i: int| 0 <= i < w.len() ==> w[i] == back@[back@.len() - 1 - i],
                nodes@.len() == back@.len() - k,
                forall|i: int| 0 <= i < nodes@.len() ==> nodes@[i] == w[i],
            decreases k,
        {
            k = k - 1;
            nodes.push(back[k]);
        }
        proof {
            assert(nodes@ =~= w);
            assert(self.cost@[self.start as int] == 0);
            assert forall|i: int, j: int| 0 <= i < w.len() && 0 <= j < w.len() && i != j implies w[i] != w[j] by {
                if i < j {
                    assert(self.earlier(w[i] as int, w[j] as int));
                } else {
                    assert(self.earlier(w[j] as int, w[i] as int));
                }
            }
        }
        Route { nodes, cost: self.cost[goal as usize] as u32 }
    }

    /// The queued node with the lowest estimate costs no more than any walk to it, when the
    /// estimate is consistent and zero at that node.
    proof fn lemma_pop_cheapest(self, k: int, w: Seq<u32>, c: Seq<u32>)
        requires
            self.inv(),
            self.settled_but(-1),
            0 <= k < self.queue@.len(),
            forall|j: int|
                0 <= j < self.queue@.len() ==> self.est@[self.queue@[k] as int] < self.est@[#[trigger] self.queue@[j] as int]
                    || (self.est@[self.queue@[k] as int] == self.est@[self.queue@[j] as int] && self.queue@[k] <= self.queue@[j]),
            consistent(self.adj@, self.hs@, self.queue@[k] as int),
            walk_between(self.adj@, self.start as int, self.queue@[k] as int, w, c),
        ensures
            self.cost@[self.queue@[k] as int] <= sat(total(c)),
    {
        let u = self.queue@[k] as int;
        assert(self.queued@[u]);
        assert(c.take(0) =~= Seq::<u32>::empty());
        let j = self.lemma_walk_frontier(w, c, 0);
        if j == -1 {
            assert(false);
        }
        let x = w[j] as int;
        assert(0 <= x < self.cost@.len()) by {
            assert(self.queue@.contains(x as u32));
        }
        assert(self.queue@.contains(x as u32));
        let kx = self.queue@.index_of(x as u32);
        assert(self.queue@[kx] == x);
        assert(self.est@[u] <= self.est@[x]);
        lemma_total_split(c, j);
        lemma_total_nonneg(c.take(j));
        lemma_total_nonneg(c.skip(j));
        lemma_walk_suffix(self.adj@, w, c, j);
        lemma_estimate_along(self.adj@, self.hs@, u, w.skip(j), c.skip(j));
    }
}

/// A\*: the cheapest route from `start` to `goal`, or `None` if there is none.
///
/// `edges` yields each node that a node leads to, and what that edge costs. When `estimate` is
/// consistent, the route is a cheapest one; an estimate of zero makes this Dijkstra.
pub fn astar<E: Fn(u32) -> Vec<(u32, Cost)>, H: Fn(u32) -> Cost>(
    nodes: usize,
    start: u32,
    goal: u32,
    edges: &E,
    estimate: &H,
    Ghost(adj): Ghost<Seq<Seq<(u32, u32)>>>,
    Ghost(hs): Ghost<Seq<u32>>,
) -> (r: Option<Route>)
    requires
        nodes == adj.len(),
        nodes == hs.len(),
        nodes <= MAX_NODES,
        start < nodes,
        goal < nodes,
        graph_ok(adj),
        yields_edges(edges, adj),
        yields_estimates(estimate, hs),
    ensures
        match r {
            Some(route) => {
                &&& route.nodes@.len() >= 1
                &&& route.nodes@[0] == start
                &&& route.nodes@.last() == goal
                &&& route.nodes@.no_duplicates()
                &&& exists|c: Seq<u32>| is_walk(adj, route.nodes@, c) && sat(total(c)) <= route.cost
                &&& exists|w: Seq<u32>, c: Seq<u32>|
                    walk_between(adj, start as int, goal as int, w, c) && sat(total(c)) == route.cost
                &&& consistent(adj, hs, goal as int) ==> least_cost(adj, start as int, goal as int, route.cost as int)
            },
            None => !connects(adj, start as int, goal as int),
        },
{
    let mut f = Frontier::new(nodes, start, Ghost(adj), Ghost(hs));
    proof {
        if goal != start {
            assert(!f.reached(goal as int));
        }
    }
    while f.queue.len() > 0
        invariant
            f.inv(),
            f.settled_but(-1),
            f.adj@ == adj,
            f.hs@ == hs,
            f.start == start,
            goal < nodes,
            nodes == adj.len(),
            yields_edges(edges, adj),
            yields_estimates(estimate, hs),
            f.cost@[goal as int] != UNREACHED ==> f.queued@[goal as int],
        decreases table_sum(f.cost@), f.queue@.len(),
    {
        let k = f.peek_min();
        let u = f.queue[k];
        if u == goal {
            let ghost ww = f.wit@[goal as int].0;
            let ghost wc = f.wit@[goal as int].1;
            proof {
                assert(f.witness_ok(goal as int));
                assert(walk_between(adj, start as int, goal as int, ww, wc) && sat(total(wc)) == f.cost@[goal as int]);
                assert forall|w: Seq<u32>, c: Seq<u32>|
                    consistent(adj, hs, goal as int) && walk_between(adj, start as int, goal as int, w, c)
                    implies f.cost@[goal as int] <= sat(total(c)) by {
                    f.lemma_pop_cheapest(k as int, w, c);
                }
            }
            let route = f.walk_home(goal);
            proof {
                assert(f.graph() == adj && f.source() == start && f.cost_of(goal as int) == f.cost@[goal as int]);
                assert(route.cost == f.cost@[goal as int]);
                assert(walk_between(adj, start as int, goal as int, ww, wc) && sat(total(wc)) == route.cost);
                if consistent(adj, hs, goal as int) {
                    assert(least_cost(adj, start as int, goal as int, route.cost as int));
                }
            }
            return Some(route);
        }
        let ghost s0 = table_sum(f.cost@);
        let ghost l0 = f.queue@.len();
        let ghost g = f;
        let u = f.take(k);
        proof {
            assert(f.closed(u as int));
            assert forall|x: int| 0 <= x < f.cost@.len() && x != u && #[trigger] f.closed(x) implies f.relaxed(x) by {
                assert(g.closed(x));
                assert(g.relaxed(x));
            }
        }
        let es = edges(u);
        let mut i: usize = 0;
        while i < es.len()
            invariant
                f.inv(),
                f.settled_but(u as int),
                f.relaxed_to(u as int, i as int),
                f.closed(u as int),
                u < nodes,
                i <= es@.len(),
                es@ == adj[u as int],
                f.adj@ == adj,
                f.hs@ == hs,
                f.start == start,
                goal < nodes,
                nodes == adj.len(),
                yields_estimates(estimate, hs),
                f.cost@[goal as int] != UNREACHED ==> f.queued@[goal as int],
                table_sum(f.cost@) < s0 || (table_sum(f.cost@) == s0 && f.queue@.len() < l0),
            decreases es@.len() - i,
        {
            let (to, step) = es[i];
            proof {
                assert(adj[u as int][i as int] == (to, step));
                assert(adj[u as int].contains((to, step)));
            }
            let ghost g0 = f;
            f.relax(u, to, step, estimate);
            proof {
                assert(g0.cost@[u as int] <= CEILING);
                lemma_relax_keeps(g0, f, u as int, i as int, to, step);
            }
            i = i + 1;
        }
        proof {
            lemma_table_sum_nonneg(f.cost@);
            assert forall|x: int| 0 <= x < f.cost@.len() && #[trigger] f.closed(x) implies f.relaxed(x) by {
                if x == u {
                    assert forall|j: int| 0 <= j < f.adj@[x].len() implies f.cost@[(#[trigger] f.adj@[x][j]).0 as int]
                        != UNREACHED && f.cost@[f.adj@[x][j].0 as int] <= sat(f.cost@[x] + f.adj@[x][j].1) by {
                    }
                }
            }
        }
    }
    proof {
        assert forall|w: Seq<u32>, c: Seq<u32>| walk_between(adj, start as int, goal as int, w, c) implies false by {
            assert(c.take(0) =~= Seq::<u32>::empty());
            let j = f.lemma_walk_frontier(w, c, 0);
            if j != -1 {
                assert(f.queue@.contains(w[j]));
            }
        }
    }
    None
}

/// What one relaxation keeps of the inner loop's bookkeeping: closed nodes stay relaxed, the node
/// being expanded stays closed, and its first `i + 1` edges have been tried.
#[verifier::rlimit(60)]
proof fn lemma_relax_keeps(g0: Frontier, f: Frontier, u: int, i: int, to: u32, step: u32)
    requires
        g0.cost@.len() == g0.adj@.len(),
        g0.queued@.len() == g0.adj@.len(),
        f.cost@.len() == g0.adj@.len(),
        f.queued@.len() == g0.adj@.len(),
        graph_ok(g0.adj@),
        g0.cost@[u] <= CEILING,
        g0.settled_but(u),
        g0.relaxed_to(u, i),
        g0.closed(u),
        0 <= u < g0.cost@.len(),
        0 <= i < g0.adj@[u].len(),
        g0.adj@[u][i] == (to, step),
        f.adj@ == g0.adj@,
        ({
            let nt = sat(g0.cost@[u] + step);
            if nt < g0.cost@[to as int] {
                &&& f.cost@ == g0.cost@.update(to as int, nt as u64)
                &&& f.queued@ == g0.queued@.update(to as int, true)
                &&& f.queue@.len() <= g0.queue@.len() + 1
            } else {
                &&& f.cost@ == g0.cost@
                &&& f.queued@ == g0.queued@
                &&& f.queue@ == g0.queue@
            }
        }),
    ensures
        f.settled_but(u),
        f.relaxed_to(u, i + 1),
        f.closed(u),
        f.cost@[u] == g0.cost@[u],
        table_sum(f.cost@) < table_sum(g0.cost@) || (table_sum(f.cost@) == table_sum(g0.cost@)
            && f.queue@ == g0.queue@ && f.queued@ == g0.queued@),
        forall|v: int| 0 <= v < f.cost@.len() ==> #[trigger] f.cost@[v] <= g0.cost@[v],
        forall|v: int| 0 <= v < f.cost@.len() && v != to ==> #[trigger] f.cost@[v] == g0.cost@[v]
            && f.queued@[v] == g0.queued@[v],
        f.cost@[to as int] <= sat(g0.cost@[u] + step),
{
    let n = g0.cost@.len();
    let nt = sat(g0.cost@[u] + step);
    let t = to as int;
    assert(t < n) by {
        assert(graph_ok(g0.adj@));
        assert(g0.adj@[u][i].0 < n);
    }
    if nt < g0.cost@[t] {
        lemma_table_sum_update(g0.cost@, t, nt as u64);
        assert(t != u);
    }
    assert forall|x: int| 0 <= x < n && x != u && #[trigger] f.closed(x) implies f.relaxed(x) by {
        assert(g0.closed(x));
        assert(g0.relaxed(x));
        assert forall|j: int| 0 <= j < f.adj@[x].len() implies f.cost@[(#[trigger] f.adj@[x][j]).0 as int]
            != UNREACHED && f.cost@[f.adj@[x][j].0 as int] <= sat(f.cost@[x] + f.adj@[x][j].1) by {
            assert(g0.adj@[x][j].0 < n);
        }
    }
    assert forall|j: int| 0 <= j < i + 1 implies f.cost@[(#[trigger] f.adj@[u][j]).0 as int]
        != UNREACHED && f.cost@[f.adj@[u][j].0 as int] <= sat(f.cost@[u] + f.adj@[u][j].1) by {
        assert(g0.adj@[u][j].0 < n);
    }
}

/// The model estimate of a search with nowhere in particular to be: zero everywhere.
pub open spec fn no_estimate(nodes: int) -> Seq<u32> {
    Seq::new(nodes as nat, |i: int| 0u32)
}

/// Every edge costs something: no step is free.
pub open spec fn positive(adj: Seq<Seq<(u32, u32)>>) -> bool {
    forall|u: int, k: int| 0 <= u < adj.len() && 0 <= k < adj[u].len() ==> (#[trigger] adj[u][k]).1 >= 1
}

/// Reported cheapest first, and of equal costs the lowest number first.
pub open spec fn tie_ordered(out: Seq<(u32, Cost)>) -> bool {
    forall|k1: int, k2: int|
        0 <= k1 < k2 < out.len() ==> (#[trigger] out[k1]).1 < (#[trigger] out[k2]).1 || (out[k1].1 == out[k2].1
            && out[k1].0 < out[k2].0)
}

/// What the budgeted search keeps true of the nodes it has reported.
pub open spec fn settled_list(
    adj: Seq<Seq<(u32, u32)>>,
    start: int,
    budget: int,
    out: Seq<(u32, Cost)>,
) -> bool {
    &&& forall|k: int|
        0 <= k < out.len() ==> (#[trigger] out[k]).0 < adj.len() && out[k].1 <= budget && least_cost(
            adj,
            start,
            out[k].0 as int,
            out[k].1 as int,
        )
    &&& forall|k1: int, k2: int|
        0 <= k1 < k2 < out.len() ==> (#[trigger] out[k1]).0 != (#[trigger] out[k2]).0 && out[k1].1 <= out[k2].1
}

/// Dijkstra, bounded by a budget: every node within reach, and what reaching it costs.
///
/// Which way the search runs is the caller's choice of `edges`: out-edges ask where you can get to
/// from here, in-edges ask who can get to here.
///
/// Nodes come back in **non-decreasing cost order**, so the moment one exceeds the budget every
/// node after it would too, and the search stops. When no step is free and the budget is below the
/// ceiling, nodes of equal cost come back lowest number first.
#[verifier::spinoff_prover]
#[verifier::rlimit(100)]
pub fn explore<E: Fn(u32) -> Vec<(u32, Cost)>>(
    nodes: usize,
    start: u32,
    budget: Cost,
    edges: &E,
    Ghost(adj): Ghost<Seq<Seq<(u32, u32)>>>,
) -> (r: (Vec<(u32, Cost)>, Frontier))
    requires
        nodes == adj.len(),
        nodes <= MAX_NODES,
        start < nodes,
        graph_ok(adj),
        yields_edges(edges, adj),
    ensures
        r.1.inv(),
        r.1.graph() == adj,
        r.1.source() == start,
        r.0@.len() >= 1,
        r.0@[0] == (start, 0u32),
        settled_list(adj, start as int, budget as int, r.0@),
        forall|k: int|
            0 <= k < r.0@.len() ==> r.1.reached((#[trigger] r.0@[k]).0 as int) && r.1.cost_of(
                r.0@[k].0 as int,
            ) == r.0@[k].1,
        forall|v: int, w: Seq<u32>, c: Seq<u32>|
            0 <= v < nodes && walk_between(adj, start as int, v, w, c) && sat(total(c)) <= budget
                ==> exists|k: int| 0 <= k < r.0@.len() && (#[trigger] r.0@[k]).0 == v,
        positive(adj) && budget < CEILING ==> tie_ordered(r.0@),
{
    let ghost hs = no_estimate(nodes as int);
    let ghost tie = positive(adj) && budget < CEILING;
    let zero = |n: u32| -> (e: Cost)
        ensures
            e == 0,
        { 0 };
    let cap = budget as u64;
    let mut f = Frontier::new(nodes, start, Ghost(adj), Ghost(hs));
    let mut out: Vec<(u32, Cost)> = Vec::new();
    let mut go = true;
    proof {
        assert forall|v: int| 0 <= v < nodes && v != start implies #[trigger] f.cost@[v] == UNREACHED by {
            assert(!f.reached(v));
        }
        assert forall|v: int| 0 <= v < nodes && #[trigger] f.closed(v) implies exists|k: int| 0 <= k < out@.len() && (#[trigger] out@[k]).0 == v by {
            if v != start {
                assert(!f.reached(v));
            }
        }
    }
    while go && f.queue.len() > 0
        invariant
            f.inv(),
            f.settled_but(-1),
            f.adj@ == adj,
            f.hs@ == hs,
            hs == no_estimate(nodes as int),
            f.start == start,
            nodes == adj.len(),
            cap == budget,
            yields_edges(edges, adj),
            yields_estimates(&zero, hs),
            !go ==> forall|v: int| 0 <= v < nodes && #[trigger] f.queued@[v] ==> f.cost@[v] > cap,
            settled_list(adj, start as int, budget as int, out@),
            forall|k: int|
                0 <= k < out@.len() ==> f.closed((#[trigger] out@[k]).0 as int) && f.cost@[out@[k].0 as int]
                    == out@[k].1,
            forall|v: int| 0 <= v < nodes && #[trigger] f.closed(v) ==> exists|k: int| 0 <= k < out@.len() && (#[trigger] out@[k]).0 == v,
            out@.len() > 0 ==> out@[0] == (start, 0u32),
            out@.len() > 0 ==> forall|v: int| 0 <= v < nodes && #[trigger] f.queued@[v] ==> f.cost@[v] >= out@.last().1,
            out@.len() == 0 ==> f.queued@[start as int] && forall|v: int| 0 <= v < nodes && v != start ==> #[trigger] f.cost@[v] == UNREACHED,
            tie == (positive(adj) && budget < CEILING),
            tie ==> tie_ordered(out@),
            tie && out@.len() > 0 ==> forall|v: int|
                0 <= v < nodes && #[trigger] f.queued@[v] ==> f.cost@[v] > out@.last().1 || (f.cost@[v] == out@.last().1
                    && v > out@.last().0),
        decreases table_sum(f.cost@), f.queue@.len() + (if go { 1int } else { 0int }),
    {
        let k = f.peek_min();
        let u = f.queue[k];
        proof {
            assert(f.queue@[k as int] < nodes);
        }
        if f.cost[u as usize] > cap {
            proof {
                assert forall|v: int| 0 <= v < nodes && #[trigger] f.queued@[v] implies f.cost@[v] > cap by {
                    assert(f.queue@.contains(v as u32));
                    let j = f.queue@.index_of(v as u32);
                    assert(f.queue@[j] == v);
                    assert(f.est@[u as int] <= f.est@[v]);
                }
            }
            go = false;
        } else {
            proof {
                assert(f.queued@[u as int]);
                assert(f.witness_ok(u as int));
                let (ww, wc) = f.wit@[u as int];
                assert(walk_between(adj, start as int, u as int, ww, wc) && sat(total(wc)) == f.cost@[u as int]);
                assert forall|w: Seq<u32>, c: Seq<u32>| walk_between(adj, start as int, u as int, w, c)
                    implies f.cost@[u as int] <= sat(total(c)) by {
                    f.lemma_pop_cheapest(k as int, w, c);
                }
                assert forall|v: int| 0 <= v < nodes && #[trigger] f.queued@[v] implies f.cost@[v] >= f.cost@[u as int] by {
                    assert(f.queue@.contains(v as u32));
                    let j = f.queue@.index_of(v as u32);
                    assert(f.queue@[j] == v);
                    assert(f.est@[u as int] <= f.est@[v]);
                }
                if out@.len() > 0 {
                    assert(f.cost@[u as int] >= out@.last().1);
                }
                assert forall|k2: int| 0 <= k2 < out@.len() implies (#[trigger] out@[k2]).0 != u by {
                    assert(f.closed(out@[k2].0 as int));
                }
                assert forall|v: int| 0 <= v < nodes && #[trigger] f.queued@[v] && v != u implies f.cost@[v] > f.cost@[u as int]
                    || (f.cost@[v] == f.cost@[u as int] && v > u) by {
                    assert(f.queue@.contains(v as u32));
                    let j = f.queue@.index_of(v as u32);
                    assert(f.queue@[j] == v);
                    assert(f.est@[u as int] < f.est@[v] || (f.est@[u as int] == f.est@[v] && u <= v));
                }
            }
            let ghost s0 = table_sum(f.cost@);
            let ghost l0 = f.queue@.len();
            let ghost g = f;
            let ghost out0 = out@;
            let u = f.take(k);
            let c_u = f.cost[u as usize] as Cost;
            out.push((u, c_u));
            proof {
                assert(f.closed(u as int));
                assert forall|x: int| 0 <= x < f.cost@.len() && x != u && #[trigger] f.closed(x) implies f.relaxed(x) by {
                    assert(g.closed(x));
                    assert(g.relaxed(x));
                }
                assert(out@ == out0.push((u, c_u)));
                assert forall|k1: int| 0 <= k1 < out@.len() implies f.closed((#[trigger] out@[k1]).0 as int) && f.cost@[out@[k1].0 as int]
                    == out@[k1].1 by {
                    if k1 < out0.len() {
                        assert(out@[k1] == out0[k1]);
                    }
                }
                assert forall|v: int| 0 <= v < nodes && #[trigger] f.closed(v) implies exists|k1: int| 0 <= k1 < out@.len() && (#[trigger] out@[k1]).0 == v by {
                    if v == u {
                        assert(out@[out0.len() as int].0 == v);
                    } else {
                        assert(g.closed(v));
                        let k1 = choose|k1: int| 0 <= k1 < out0.len() && (#[trigger] out0[k1]).0 == v;
                        assert(out@[k1] == out0[k1]);
                    }
                }
                if out0.len() == 0 {
                    assert(u == start) by {
                        assert(f.cost@[u as int] != UNREACHED);
                    }
                }
                if tie {
                    assert forall|k1: int, k2: int| 0 <= k1 < k2 < out@.len() implies (#[trigger] out@[k1]).1 < (
                    #[trigger] out@[k2]).1 || (out@[k1].1 == out@[k2].1 && out@[k1].0 < out@[k2].0) by {
                        if k2 < out0.len() {
                            assert(out@[k1] == out0[k1] && out@[k2] == out0[k2]);
                        } else if out0.len() > 0 {
                            assert(out@[k1] == out0[k1]);
                            assert(g.queued@[u as int]);
                            if k1 < out0.len() - 1 {
                                assert(out0[k1].1 < out0.last().1 || (out0[k1].1 == out0.last().1 && out0[k1].0
                                    < out0.last().0));
                            }
                        }
                    }
                }
            }
            let es = edges(u);
            let mut i: usize = 0;
            while i < es.len()
                invariant
                    f.inv(),
                    f.settled_but(u as int),
                    f.relaxed_to(u as int, i as int),
                    f.closed(u as int),
                    u < nodes,
                    i <= es@.len(),
                    es@ == adj[u as int],
                    f.adj@ == adj,
                    f.hs@ == hs,
                    f.start == start,
                    nodes == adj.len(),
                    yields_estimates(&zero, hs),
                    table_sum(f.cost@) < s0 || (table_sum(f.cost@) == s0 && f.queue@.len() < l0),
                    out@.len() > 0,
                    out@.last() == (u, f.cost@[u as int] as u32),
                    settled_list(adj, start as int, budget as int, out@),
                    forall|k1: int|
                        0 <= k1 < out@.len() ==> f.closed((#[trigger] out@[k1]).0 as int) && f.cost@[out@[k1].0 as int]
                            == out@[k1].1,
                    forall|v: int| 0 <= v < nodes && #[trigger] f.closed(v) ==> exists|k1: int| 0 <= k1 < out@.len() && (#[trigger] out@[k1]).0 == v,
                    forall|v: int| 0 <= v < nodes && #[trigger] f.queued@[v] ==> f.cost@[v] >= out@.last().1,
                    tie == (positive(adj) && budget < CEILING),
                    tie ==> tie_ordered(out@),
                    tie ==> out@.last().1 <= cap,
                    tie ==> forall|v: int|
                        0 <= v < nodes && #[trigger] f.queued@[v] ==> f.cost@[v] > out@.last().1 || (f.cost@[v]
                            == out@.last().1 && v > out@.last().0),
                decreases es@.len() - i,
            {
                let (to, step) = es[i];
                proof {
                    assert(adj[u as int][i as int] == (to, step));
                    assert(adj[u as int].contains((to, step)));
                }
                let ghost g0 = f;
                f.relax(u, to, step, &zero);
                proof {
                    assert(g0.cost@[u as int] <= CEILING);
                    lemma_relax_keeps(g0, f, u as int, i as int, to, step);
                    // A node already reported costs its least, so no edge undercuts it.
                    assert forall|k1: int| 0 <= k1 < out@.len() implies f.closed((#[trigger] out@[k1]).0 as int)
                        && f.cost@[out@[k1].0 as int] == out@[k1].1 by {
                        let x = out@[k1].0 as int;
                        assert(g0.closed(x));
                        if x == to {
                            assert(g0.witness_ok(u as int));
                            let (uw, uc) = g0.wit@[u as int];
                            lemma_walk_push(adj, uw, uc, to, step);
                            assert(walk_between(adj, start as int, x, uw.push(to), uc.push(step)));
                            assert(least_cost(adj, start as int, x, out@[k1].1 as int));
                        }
                    }
                    assert forall|v: int| 0 <= v < nodes && #[trigger] f.closed(v) implies exists|k1: int| 0 <= k1 < out@.len() && (#[trigger] out@[k1]).0 == v by {
                        assert(g0.closed(v));
                    }
                    if tie {
                        assert(step >= 1);
                        assert forall|v: int| 0 <= v < nodes && #[trigger] f.queued@[v] implies f.cost@[v] > out@.last().1
                            || (f.cost@[v] == out@.last().1 && v > out@.last().0) by {
                            if v != to {
                                assert(g0.queued@[v]);
                            }
                        }
                    }
                }
                i = i + 1;
            }
            proof {
                assert forall|x: int| 0 <= x < f.cost@.len() && #[trigger] f.closed(x) implies f.relaxed(x) by {
                    if x == u {
                        assert forall|j: int| 0 <= j < f.adj@[x].len() implies f.cost@[(#[trigger] f.adj@[x][j]).0 as int]
                            != UNREACHED && f.cost@[f.adj@[x][j].0 as int] <= sat(f.cost@[x] + f.adj@[x][j].1) by {
                        }
                    }
                }
            }
        }
        proof {
            lemma_table_sum_nonneg(f.cost@);
        }
    }
    proof {
        if out@.len() == 0 {
            assert(f.queue@.contains(start));
            if !go {
                assert(f.queued@[start as int]);
            }
        }
        assert forall|v: int, w: Seq<u32>, c: Seq<u32>|
            0 <= v < nodes && walk_between(adj, start as int, v, w, c) && sat(total(c)) <= budget
            implies exists|k: int| 0 <= k < out@.len() && (#[trigger] out@[k]).0 == v by {
            assert(c.take(0) =~= Seq::<u32>::empty());
            let j = f.lemma_walk_frontier(w, c, 0);
            if j != -1 {
                lemma_walk_prefix(adj, w, c, j);
                lemma_total_nonneg(c.take(j));
                assert(f.queue@.contains(w[j]));
                assert(false);
            }
            assert(f.closed(v));
        }
    }
    (out, f)
}

// ---------------------------------------------------------------------------------------------
// The grid's side of the seam
// ---------------------------------------------------------------------------------------------

/// The priced steps out of cell `from`, along the neighbours `nbrs`, in order: each neighbour the
/// rule lets you enter, with what entering it costs.
pub open spec fn priced<C: Coord, F: Fn(Step<C>) -> Option<Cost>>(
    f: F,
    from: int,
    nbrs: Seq<(<C as Coord>::Dir, Idx)>,
) -> Seq<(u32, u32)>
    decreases nbrs.len(),
{
    if nbrs.len() == 0 {
        Seq::empty()
    } else {
        let rest = priced(f, from, nbrs.drop_last());
        let (d, j) = nbrs.last();
        match price(f, Step { from: idx(from), to: j, dir: d }) {
            Some(c) => rest.push((j.id() as u32, c)),
            None => rest,
        }
    }
}

/// The priced steps into cell `to`, along the cells `ins` that step into it, in order: each one
/// the rule lets step in, with what the step costs.
pub open spec fn priced_in<C: Coord, F: Fn(Step<C>) -> Option<Cost>>(
    f: F,
    to: int,
    ins: Seq<(<C as Coord>::Dir, Idx)>,
) -> Seq<(u32, u32)>
    decreases ins.len(),
{
    if ins.len() == 0 {
        Seq::empty()
    } else {
        let rest = priced_in(f, to, ins.drop_last());
        let (d, i) = ins.last();
        match price(f, Step { from: i, to: idx(to), dir: d }) {
            Some(c) => rest.push((i.id() as u32, c)),
            None => rest,
        }
    }
}

/// The board as a directed graph: out of each cell, the steps the rule allows, with their costs.
pub open spec fn step_graph<C: Coord, F: Fn(Step<C>) -> Option<Cost>>(m: Model<C>, f: F) -> Seq<Seq<(u32, u32)>> {
    Seq::new(m.len(), |n: int| priced(f, n, m.outs(n)))
}

/// The same graph turned around: into each cell, the steps the rule allows, with their costs.
pub open spec fn back_graph<C: Coord, F: Fn(Step<C>) -> Option<Cost>>(m: Model<C>, f: F) -> Seq<Seq<(u32, u32)>> {
    Seq::new(m.len(), |n: int| priced_in(f, n, m.ins(n)))
}

/// The node numbers of some indices.
pub open spec fn ids(s: Seq<Idx>) -> Seq<u32> {
    s.map_values(|i: Idx| i.id() as u32)
}

/// `a * b`, saturated at `Cost::MAX`.
pub open spec fn sat_mul(a: int, b: int) -> int {
    sat(a * b)
}

/// The A\* estimate on a board: the distance to the goal in cheapest steps.
pub open spec fn estimate_of<C: Coord>(m: Model<C>, goal: int, floor: Cost) -> Seq<u32> {
    Seq::new(m.len(), |n: int| sat_mul(m.dist(n, goal) as int, floor as int) as u32)
}

/// What `keep_some` keeps is what its function says, at some direction of the list.
pub(crate) proof fn lemma_keep_some_mem<D>(ds: Seq<D>, f: spec_fn(D) -> Option<int>, k: int)
    requires
        0 <= k < keep_some(ds, f).len(),
    ensures
        ({
            let (d, j) = keep_some(ds, f)[k];
            ds.contains(d) && f(d) is Some && j == idx(f(d)->0)
        }),
    decreases ds.len(),
{
    let rest = keep_some(ds.drop_last(), f);
    if k < rest.len() {
        lemma_keep_some_mem(ds.drop_last(), f, k);
        let (d, j) = rest[k];
        let q = ds.drop_last().index_of(d);
        assert(ds[q] == d);
    } else {
        assert(ds[ds.len() - 1] == ds.last());
    }
}

/// Each entry of a priced list comes from a neighbour the rule prices at that cost.
proof fn lemma_priced_mem<C: Coord, F: Fn(Step<C>) -> Option<Cost>>(f: F, from: int, nbrs: Seq<(<C as Coord>::Dir, Idx)>, k: int)
    requires
        0 <= k < priced(f, from, nbrs).len(),
    ensures
        exists|q: int|
            0 <= q < nbrs.len() && nbrs[q].1.id() == priced(f, from, nbrs)[k].0 && price(
                f,
                Step { from: idx(from), to: nbrs[q].1, dir: nbrs[q].0 },
            ) == Some(priced(f, from, nbrs)[k].1),
    decreases nbrs.len(),
{
    let rest = priced(f, from, nbrs.drop_last());
    if k < rest.len() {
        lemma_priced_mem(f, from, nbrs.drop_last(), k);
        let q = choose|q: int|
            0 <= q < nbrs.drop_last().len() && nbrs.drop_last()[q].1.id() == rest[k].0 && price(
                f,
                Step { from: idx(from), to: nbrs.drop_last()[q].1, dir: nbrs.drop_last()[q].0 },
            ) == Some(rest[k].1);
        assert(nbrs[q] == nbrs.drop_last()[q]);
        assert(priced(f, from, nbrs)[k] == rest[k]);
    } else {
        let q = nbrs.len() - 1;
        assert(nbrs[q] == nbrs.last());
        assert(0 <= q < nbrs.len() && nbrs[q].1.id() == priced(f, from, nbrs)[k].0 && price(
            f,
            Step { from: idx(from), to: nbrs[q].1, dir: nbrs[q].0 },
        ) == Some(priced(f, from, nbrs)[k].1));
    }
}

/// Each entry of a priced in-list comes from a cell stepping in, priced at that cost.
proof fn lemma_priced_in_mem<C: Coord, F: Fn(Step<C>) -> Option<Cost>>(f: F, to: int, ins: Seq<(<C as Coord>::Dir, Idx)>, k: int)
    requires
        0 <= k < priced_in(f, to, ins).len(),
    ensures
        exists|q: int|
            0 <= q < ins.len() && ins[q].1.id() == priced_in(f, to, ins)[k].0 && price(
                f,
                Step { from: ins[q].1, to: idx(to), dir: ins[q].0 },
            ) == Some(priced_in(f, to, ins)[k].1),
    decreases ins.len(),
{
    let rest = priced_in(f, to, ins.drop_last());
    if k < rest.len() {
        lemma_priced_in_mem(f, to, ins.drop_last(), k);
        let q = choose|q: int|
            0 <= q < ins.drop_last().len() && ins.drop_last()[q].1.id() == rest[k].0 && price(
                f,
                Step { from: ins.drop_last()[q].1, to: idx(to), dir: ins.drop_last()[q].0 },
            ) == Some(rest[k].1);
        assert(ins[q] == ins.drop_last()[q]);
        assert(priced_in(f, to, ins)[k] == rest[k]);
    } else {
        let q = ins.len() - 1;
        assert(ins[q] == ins.last());
        assert(0 <= q < ins.len() && ins[q].1.id() == priced_in(f, to, ins)[k].0 && price(
            f,
            Step { from: ins[q].1, to: idx(to), dir: ins[q].0 },
        ) == Some(priced_in(f, to, ins)[k].1));
    }
}

/// The step graph of a lawful board leads only to cells of the board.
pub(crate) proof fn lemma_step_graph_ok<C: Coord, F: Fn(Step<C>) -> Option<Cost>>(m: Model<C>, f: F)
    requires
        m.laws(),
    ensures
        graph_ok(step_graph(m, f)),
        graph_ok(back_graph(m, f)),
        step_graph(m, f).len() == m.len(),
        back_graph(m, f).len() == m.len(),
{
    let g = step_graph(m, f);
    let b = back_graph(m, f);
    assert forall|u: int, k: int| 0 <= u < g.len() && 0 <= k < g[u].len() implies (#[trigger] g[u][k]).0 < g.len() by {
        lemma_priced_mem(f, u, m.outs(u), k);
        let q = choose|q: int|
            0 <= q < m.outs(u).len() && m.outs(u)[q].1.id() == g[u][k].0 && price(
                f,
                Step { from: idx(u), to: m.outs(u)[q].1, dir: m.outs(u)[q].0 },
            ) == Some(g[u][k].1);
        lemma_keep_some_mem(m.dirs, |d: <C as Coord>::Dir| (m.step)(u, d), q);
    }
    assert forall|u: int, k: int| 0 <= u < b.len() && 0 <= k < b[u].len() implies (#[trigger] b[u][k]).0 < b.len() by {
        lemma_priced_in_mem(f, u, m.ins(u), k);
        let q = choose|q: int|
            0 <= q < m.ins(u).len() && m.ins(u)[q].1.id() == b[u][k].0 && price(
                f,
                Step { from: m.ins(u)[q].1, to: idx(u), dir: m.ins(u)[q].0 },
            ) == Some(b[u][k].1);
        lemma_keep_some_mem(m.dirs, |d: <C as Coord>::Dir| (m.back)(u, d), q);
    }
}

/// What a route found on a graph is: a walk from `start` to `goal` that names no node twice and
/// costs no more than it says, and a cost some walk between the two achieves.
pub open spec fn route_ok(adj: Seq<Seq<(u32, u32)>>, start: int, goal: int, steps: Seq<Idx>, cost: int) -> bool {
    &&& steps.len() >= 1
    &&& steps[0].id() == start
    &&& steps.last().id() == goal
    &&& ids(steps).no_duplicates()
    &&& exists|c: Seq<u32>| is_walk(adj, ids(steps), c) && sat(total(c)) <= cost
    &&& exists|w: Seq<u32>, c: Seq<u32>| walk_between(adj, start, goal, w, c) && sat(total(c)) == cost
}

/// What a budgeted search of a graph reports: the start first at no cost; every node it names once,
/// at the cost of its cheapest walk, within budget, cheapest first; and every node within budget.
pub open spec fn reach_ok(adj: Seq<Seq<(u32, u32)>>, start: int, budget: int, r: Seq<(Idx, Cost)>) -> bool {
    &&& r.len() >= 1
    &&& r[0].0.id() == start
    &&& r[0].1 == 0
    &&& forall|k: int|
        0 <= k < r.len() ==> (#[trigger] r[k]).0.id() < adj.len() && r[k].1 <= budget && least_cost(
            adj,
            start,
            r[k].0.id(),
            r[k].1 as int,
        )
    &&& forall|k1: int, k2: int|
        0 <= k1 < k2 < r.len() ==> (#[trigger] r[k1]).0 != (#[trigger] r[k2]).0 && r[k1].1 <= r[k2].1
    &&& forall|v: int, w: Seq<u32>, c: Seq<u32>|
        0 <= v < adj.len() && walk_between(adj, start, v, w, c) && sat(total(c)) <= budget ==> exists|k: int|
            0 <= k < r.len() && (#[trigger] r[k]).0.id() == v
}

/// A reached list in which cells of equal cost come lowest index first.
pub open spec fn ties_by_index(r: Seq<(Idx, Cost)>) -> bool {
    forall|k1: int, k2: int|
        0 <= k1 < k2 < r.len() ==> (#[trigger] r[k1]).1 < (#[trigger] r[k2]).1 || (r[k1].1 == r[k2].1 && r[k1].0.id()
            < r[k2].0.id())
}

/// `(a1, b1, c1)` comes no later than `(a2, b2, c2)`, reading left to right.
pub open spec fn lex_le(a1: int, b1: int, c1: int, a2: int, b2: int, c2: int) -> bool {
    a1 < a2 || (a1 == a2 && (b1 < b2 || (b1 == b2 && c1 <= c2)))
}

/// A cheapest walk costs what it costs: two least costs of one node agree.
pub(crate) proof fn lemma_least_unique(adj: Seq<Seq<(u32, u32)>>, s: int, v: int, a: int, b: int)
    requires
        least_cost(adj, s, v, a),
        least_cost(adj, s, v, b),
    ensures
        a == b,
{
    let (w1, c1) = choose|w: Seq<u32>, c: Seq<u32>| walk_between(adj, s, v, w, c) && sat(total(c)) == a;
    let (w2, c2) = choose|w: Seq<u32>, c: Seq<u32>| walk_between(adj, s, v, w, c) && sat(total(c)) == b;
}

/// An honest movement gives the board's A\* estimate its consistency.
pub(crate) proof fn lemma_estimate_consistent<C: Coord, F: Fn(Step<C>) -> Option<Cost>>(m: Model<C>, f: F, goal: int, floor: Cost)
    requires
        m.laws(),
        0 <= goal < m.len(),
        honest(m, f, floor),
    ensures
        consistent(step_graph(m, f), estimate_of(m, goal, floor), goal),
{
    let g = step_graph(m, f);
    let hs = estimate_of(m, goal, floor);
    let kind = m.metric.spec_kind();
    C::lemma_metric(m.cells[goal], m.cells[goal], m.cells[goal], kind);
    assert(hs[goal] == 0);
    assert forall|u: int, k: int| 0 <= u < g.len() && 0 <= k < g[u].len() implies hs[u] <= (#[trigger] g[u][k]).1
        + hs[g[u][k].0 as int] by {
        lemma_priced_mem(f, u, m.outs(u), k);
        let q = choose|q: int|
            0 <= q < m.outs(u).len() && m.outs(u)[q].1.id() == g[u][k].0 && price(
                f,
                Step { from: idx(u), to: m.outs(u)[q].1, dir: m.outs(u)[q].0 },
            ) == Some(g[u][k].1);
        lemma_keep_some_mem(m.dirs, |d: <C as Coord>::Dir| (m.step)(u, d), q);
        let d = m.outs(u)[q].0;
        let v = (m.step)(u, d)->0;
        assert(is_step(m, u, q));
        assert(step_at(m, u, q) == Step::<C> { from: idx(u), to: m.outs(u)[q].1, dir: m.outs(u)[q].0 });
        assert(floor <= g[u][k].1);
        assert(g[u][k].0 == v);
        C::lemma_metric(m.cells[u], m.cells[v], m.cells[goal], kind);
        let du = m.dist(u, goal) as int;
        let dv = m.dist(v, goal) as int;
        assert(du <= 1 + dv);
        assert(du * floor <= floor + dv * floor) by (nonlinear_arith)
            requires
                du <= 1 + dv,
                floor >= 0,
                dv >= 0,
        ;
        assert(0 <= dv * floor) by (nonlinear_arith)
            requires
                floor >= 0,
                dv >= 0,
        ;
        assert(0 <= du * floor) by (nonlinear_arith)
            requires
                floor >= 0,
                du >= 0,
        ;
    }
}

/// `a * b`, saturated at `Cost::MAX`.
pub(crate) fn capped_mul(a: u32, b: u32) -> (r: u32)
    ensures
        r == sat_mul(a as int, b as int),
{
    assert((a as u64) * (b as u64) <= 0xffff_ffff * 0xffff_ffff) by (nonlinear_arith)
        requires
            a <= 0xffff_ffff,
            b <= 0xffff_ffff,
    ;
    let p: u64 = (a as u64) * (b as u64);
    if p > CEILING {
        0xffff_ffff
    } else {
        p as u32
    }
}

/// The engine's node numbers, as the indices of the board that was searched.
pub(crate) fn mint(tag: Tag, nodes: &Vec<u32>) -> (r: Vec<Idx>)
    ensures
        r@.len() == nodes@.len(),
        forall|k: int| 0 <= k < r@.len() ==> #[trigger] r@[k] == idx(nodes@[k] as int),
{
    let mut r: Vec<Idx> = Vec::new();
    let mut k: usize = 0;
    while k < nodes.len()
        invariant
            k <= nodes@.len(),
            r@.len() == k,
            forall|j: int| 0 <= j < k ==> #[trigger] r@[j] == idx(nodes@[j] as int),
        decreases nodes@.len() - k,
    {
        r.push(Idx::new(tag, nodes[k]));
        k = k + 1;
    }
    r
}

/// The engine's reached list, as the indices of the board that was searched.
pub(crate) fn minted(tag: Tag, found: &Vec<(u32, Cost)>) -> (r: Vec<(Idx, Cost)>)
    ensures
        r@.len() == found@.len(),
        forall|k: int| 0 <= k < r@.len() ==> #[trigger] r@[k] == (idx(found@[k].0 as int), found@[k].1),
{
    let mut r: Vec<(Idx, Cost)> = Vec::new();
    let mut k: usize = 0;
    while k < found.len()
        invariant
            k <= found@.len(),
            r@.len() == k,
            forall|j: int| 0 <= j < k ==> #[trigger] r@[j] == (idx(found@[j].0 as int), found@[j].1),
        decreases found@.len() - k,
    {
        let (n, c) = found[k];
        r.push((Idx::new(tag, n), c));
        k = k + 1;
    }
    r
}

/// The explored list, minted, keeps what the engine promised of it.
pub(crate) proof fn lemma_minted_reach(adj: Seq<Seq<(u32, u32)>>, start: int, budget: int, found: Seq<(u32, Cost)>, r: Seq<(Idx, Cost)>)
    requires
        0 <= start < adj.len(),
        found.len() >= 1,
        found[0] == (start as u32, 0u32),
        settled_list(adj, start, budget, found),
        forall|v: int, w: Seq<u32>, c: Seq<u32>|
            0 <= v < adj.len() && walk_between(adj, start, v, w, c) && sat(total(c)) <= budget
                ==> exists|k: int| 0 <= k < found.len() && (#[trigger] found[k]).0 == v,
        r.len() == found.len(),
        forall|k: int| 0 <= k < r.len() ==> #[trigger] r[k] == (idx(found[k].0 as int), found[k].1),
    ensures
        reach_ok(adj, start, budget, r),
        tie_ordered(found) ==> ties_by_index(r),
{
    assert(r[0] == (idx(found[0].0 as int), found[0].1));
    if tie_ordered(found) {
        assert forall|k1: int, k2: int| 0 <= k1 < k2 < r.len() implies (#[trigger] r[k1]).1 < (#[trigger] r[k2]).1 || (
        r[k1].1 == r[k2].1 && r[k1].0.id() < r[k2].0.id()) by {
            assert(r[k1] == (idx(found[k1].0 as int), found[k1].1));
            assert(r[k2] == (idx(found[k2].0 as int), found[k2].1));
        }
    }
    assert forall|k: int| 0 <= k < r.len() implies (#[trigger] r[k]).0.id() < adj.len() && r[k].1 <= budget && least_cost(
        adj,
        start,
        r[k].0.id(),
        r[k].1 as int,
    ) by {
        assert(r[k] == (idx(found[k].0 as int), found[k].1));
        assert(found[k].0 < adj.len());
    }
    assert forall|k1: int, k2: int| 0 <= k1 < k2 < r.len() implies (#[trigger] r[k1]).0 != (#[trigger] r[k2]).0 && r[k1].1 <= r[k2].1 by {
        assert(r[k1] == (idx(found[k1].0 as int), found[k1].1));
        assert(r[k2] == (idx(found[k2].0 as int), found[k2].1));
        assert(found[k1].0 != found[k2].0);
    }
    assert forall|v: int, w: Seq<u32>, c: Seq<u32>|
        0 <= v < adj.len() && walk_between(adj, start, v, w, c) && sat(total(c)) <= budget implies exists|k: int|
            0 <= k < r.len() && (#[trigger] r[k]).0.id() == v by {
        let k = choose|k: int| 0 <= k < found.len() && (#[trigger] found[k]).0 == v;
        assert(r[k] == (idx(found[k].0 as int), found[k].1));
    }
}

// ---------------------------------------------------------------------------------------------
// Searching backwards
// ---------------------------------------------------------------------------------------------

/// `b` is `a` with every edge turned round: an edge from `u` to `v` of some cost in one is an
/// edge from `v` to `u` of that cost in the other.
pub open spec fn transposed(a: Seq<Seq<(u32, u32)>>, b: Seq<Seq<(u32, u32)>>) -> bool {
    &&& a.len() == b.len()
    &&& forall|u: u32, v: u32, c: u32|
        u < a.len() && v < a.len() ==> (#[trigger] a[u as int].contains((v, c)) <==> #[trigger] b[v as int].contains((u, c)))
}

proof fn lemma_total_reverse(c: Seq<u32>)
    ensures
        total(c.reverse()) == total(c),
    decreases c.len(),
{
    if c.len() > 0 {
        lemma_total_reverse(c.drop_last());
        assert(c.reverse() =~= seq![c.last()] + c.drop_last().reverse());
        lemma_total_prepend(c.last(), c.drop_last().reverse());
    }
}

/// A walk through a graph, read backwards, is a walk through the graph turned round, and costs the
/// same.
proof fn lemma_walk_reverse(a: Seq<Seq<(u32, u32)>>, b: Seq<Seq<(u32, u32)>>, w: Seq<u32>, c: Seq<u32>)
    requires
        transposed(a, b),
        graph_ok(a),
        is_walk(a, w, c),
        0 <= w.last() < a.len(),
    ensures
        is_walk(b, w.reverse(), c.reverse()),
        total(c.reverse()) == total(c),
{
    lemma_total_reverse(c);
    let w2 = w.reverse();
    let c2 = c.reverse();
    let n = c.len() as int;
    assert forall|i: int| 0 <= i < c2.len() implies #[trigger] step_ok(b, w2, c2, i) by {
        let j = n - 1 - i;
        assert(step_ok(a, w, c, j));
        assert(w2[i] == w[j + 1]);
        assert(w2[i + 1] == w[j]);
        assert(c2[i] == c[j]);
        let k = a[w[j] as int].index_of((w[j + 1], c[j]));
        assert(a[w[j] as int][k] == (w[j + 1], c[j]));
        if j + 1 < n {
            assert(step_ok(a, w, c, j + 1));
        }
        assert(w[j + 1] < a.len());
    }
}

/// In a graph and the graph turned round, the cheapest walk one way costs what the cheapest walk
/// back costs.
pub proof fn lemma_least_cost_transposed(a: Seq<Seq<(u32, u32)>>, b: Seq<Seq<(u32, u32)>>, s: int, v: int, k: int)
    requires
        transposed(a, b),
        graph_ok(a),
        graph_ok(b),
        0 <= s < a.len(),
        0 <= v < a.len(),
    ensures
        least_cost(b, s, v, k) == least_cost(a, v, s, k),
        connects(b, s, v) == connects(a, v, s),
{
    assert(transposed(b, a)) by {
        assert forall|u: u32, x: u32, c: u32| u < b.len() && x < b.len() implies (#[trigger] b[u as int].contains((x, c))
            <==> #[trigger] a[x as int].contains((u, c))) by {
            assert(a[x as int].contains((u, c)) == b[u as int].contains((x, c)));
        }
    }
    if least_cost(b, s, v, k) {
        let (w, c) = choose|w: Seq<u32>, c: Seq<u32>| walk_between(b, s, v, w, c) && sat(total(c)) == k;
        lemma_walk_reverse(b, a, w, c);
        assert(walk_between(a, v, s, w.reverse(), c.reverse()));
        assert forall|w2: Seq<u32>, c2: Seq<u32>| walk_between(a, v, s, w2, c2) implies k <= sat(total(c2)) by {
            lemma_walk_reverse(a, b, w2, c2);
            assert(w2.reverse().reverse() =~= w2);
            assert(walk_between(b, s, v, w2.reverse(), c2.reverse()));
        }
    }
    if least_cost(a, v, s, k) {
        let (w, c) = choose|w: Seq<u32>, c: Seq<u32>| walk_between(a, v, s, w, c) && sat(total(c)) == k;
        lemma_walk_reverse(a, b, w, c);
        assert(walk_between(b, s, v, w.reverse(), c.reverse()));
        assert forall|w2: Seq<u32>, c2: Seq<u32>| walk_between(b, s, v, w2, c2) implies k <= sat(total(c2)) by {
            lemma_walk_reverse(b, a, w2, c2);
            assert(walk_between(a, v, s, w2.reverse(), c2.reverse()));
        }
    }
    if connects(b, s, v) {
        let (w, c) = choose|w: Seq<u32>, c: Seq<u32>| walk_between(b, s, v, w, c);
        lemma_walk_reverse(b, a, w, c);
        assert(walk_between(a, v, s, w.reverse(), c.reverse()));
    }
    if connects(a, v, s) {
        let (w, c) = choose|w: Seq<u32>, c: Seq<u32>| walk_between(a, v, s, w, c);
        lemma_walk_reverse(a, b, w, c);
        assert(walk_between(b, s, v, w.reverse(), c.reverse()));
    }
}

/// A step the rule prices is listed among the priced neighbours.
proof fn lemma_priced_has<C: Coord, F: Fn(Step<C>) -> Option<Cost>>(f: F, from: int, nbrs: Seq<(<C as Coord>::Dir, Idx)>, q: int)
    requires
        0 <= q < nbrs.len(),
        price(f, Step { from: idx(from), to: nbrs[q].1, dir: nbrs[q].0 }) is Some,
    ensures
        priced(f, from, nbrs).contains(
            (nbrs[q].1.id() as u32, price(f, Step { from: idx(from), to: nbrs[q].1, dir: nbrs[q].0 })->0),
        ),
    decreases nbrs.len(),
{
    let rest = priced(f, from, nbrs.drop_last());
    let e = (nbrs[q].1.id() as u32, price(f, Step { from: idx(from), to: nbrs[q].1, dir: nbrs[q].0 })->0);
    if q < nbrs.len() - 1 {
        assert(nbrs.drop_last()[q] == nbrs[q]);
        lemma_priced_has(f, from, nbrs.drop_last(), q);
        let i = rest.index_of(e);
        assert(priced(f, from, nbrs)[i] == rest[i]);
    } else {
        let r = priced(f, from, nbrs);
        assert(r[r.len() - 1] == e);
    }
}

/// A step into a cell that the rule prices is listed among the priced predecessors.
proof fn lemma_priced_in_has<C: Coord, F: Fn(Step<C>) -> Option<Cost>>(f: F, to: int, ins: Seq<(<C as Coord>::Dir, Idx)>, q: int)
    requires
        0 <= q < ins.len(),
        price(f, Step { from: ins[q].1, to: idx(to), dir: ins[q].0 }) is Some,
    ensures
        priced_in(f, to, ins).contains((ins[q].1.id() as u32, price(f, Step { from: ins[q].1, to: idx(to), dir: ins[q].0 })->0)),
    decreases ins.len(),
{
    let rest = priced_in(f, to, ins.drop_last());
    let e = (ins[q].1.id() as u32, price(f, Step { from: ins[q].1, to: idx(to), dir: ins[q].0 })->0);
    if q < ins.len() - 1 {
        assert(ins.drop_last()[q] == ins[q]);
        lemma_priced_in_has(f, to, ins.drop_last(), q);
        let i = rest.index_of(e);
        assert(priced_in(f, to, ins)[i] == rest[i]);
    } else {
        let r = priced_in(f, to, ins);
        assert(r[r.len() - 1] == e);
    }
}

/// On a board, the steps into each cell are the steps out of each cell turned round, each at the
/// price the rule gives it.
pub proof fn lemma_back_graph_transposed<C: Coord, F: Fn(Step<C>) -> Option<Cost>>(m: Model<C>, f: F)
    requires
        m.laws(),
    ensures
        transposed(step_graph(m, f), back_graph(m, f)),
{
    let a = step_graph(m, f);
    let b = back_graph(m, f);
    assert forall|u: u32, v: u32, c: u32| u < a.len() && v < a.len() implies (#[trigger] a[u as int].contains((v, c))
        <==> #[trigger] b[v as int].contains((u, c))) by {
        let (ui, vi) = (u as int, v as int);
        if a[ui].contains((v, c)) {
            let k = a[ui].index_of((v, c));
            lemma_priced_mem(f, ui, m.outs(ui), k);
            let q = choose|q: int|
                0 <= q < m.outs(ui).len() && m.outs(ui)[q].1.id() == a[ui][k].0 && price(
                    f,
                    Step { from: idx(ui), to: m.outs(ui)[q].1, dir: m.outs(ui)[q].0 },
                ) == Some(a[ui][k].1);
            let d = m.outs(ui)[q].0;
            lemma_keep_some_mem(m.dirs, |d2: <C as Coord>::Dir| (m.step)(ui, d2), q);
            assert((m.step)(ui, d) == Some(vi));
            assert((m.back)(vi, d) == Some(ui));
            lemma_keep_some_has(m.dirs, |d2: <C as Coord>::Dir| (m.back)(vi, d2), d);
            let p = m.ins(vi).index_of((d, idx(ui)));
            assert(m.ins(vi)[p] == (d, idx(ui)));
            lemma_priced_in_has(f, vi, m.ins(vi), p);
        }
        if b[vi].contains((u, c)) {
            let k = b[vi].index_of((u, c));
            lemma_priced_in_mem(f, vi, m.ins(vi), k);
            let q = choose|q: int|
                0 <= q < m.ins(vi).len() && m.ins(vi)[q].1.id() == b[vi][k].0 && price(
                    f,
                    Step { from: m.ins(vi)[q].1, to: idx(vi), dir: m.ins(vi)[q].0 },
                ) == Some(b[vi][k].1);
            let d = m.ins(vi)[q].0;
            lemma_keep_some_mem(m.dirs, |d2: <C as Coord>::Dir| (m.back)(vi, d2), q);
            assert((m.back)(vi, d) == Some(ui));
            assert((m.step)(ui, d) == Some(vi));
            lemma_keep_some_has(m.dirs, |d2: <C as Coord>::Dir| (m.step)(ui, d2), d);
            let p = m.outs(ui).index_of((d, idx(vi)));
            assert(m.outs(ui)[p] == (d, idx(vi)));
            lemma_priced_has(f, ui, m.outs(ui), p);
        }
    }
}

/// What one reach list holds at its cheapest, another holds too, when a cheapest walk in the
/// first graph costs what one in the second does.
proof fn lemma_list_transfer(
    a: Seq<Seq<(u32, u32)>>,
    sa: int,
    ta: int,
    b: Seq<Seq<(u32, u32)>>,
    sb: int,
    tb: int,
    budget: int,
    ra: Seq<(Idx, Cost)>,
    rb: Seq<(Idx, Cost)>,
    c: Cost,
)
    requires
        reach_ok(a, sa, budget, ra),
        reach_ok(b, sb, budget, rb),
        0 <= ta <= u32::MAX,
        0 <= tb < b.len(),
        tb <= u32::MAX,
        ra.contains((idx(ta), c)),
        least_cost(a, sa, ta, c as int) ==> least_cost(b, sb, tb, c as int),
    ensures
        rb.contains((idx(tb), c)),
{
    let k1 = ra.index_of((idx(ta), c));
    assert(ra[k1] == (idx(ta), c));
    assert(least_cost(a, sa, ra[k1].0.id(), ra[k1].1 as int));
    assert(least_cost(b, sb, tb, c as int));
    let (w, cs) = choose|w: Seq<u32>, cs: Seq<u32>| walk_between(b, sb, tb, w, cs) && sat(total(cs)) == c;
    assert(walk_between(b, sb, tb, w, cs) && sat(total(cs)) <= budget);
    let k2 = choose|k: int| 0 <= k < rb.len() && (#[trigger] rb[k]).0.id() == tb;
    assert(least_cost(b, sb, rb[k2].0.id(), rb[k2].1 as int));
    lemma_least_unique(b, sb, tb, rb[k2].1 as int, c as int);
    assert(rb[k2].0 == idx(tb));
    assert(rb[k2] == (idx(tb), c));
}

/// Reverse reach and forward reach answer each other: cell `j` is in the list of who can reach
/// `goal` at cost `c` exactly when `goal` is in the list of where `j` can get to, at that cost,
/// for one budget.
pub proof fn lemma_reach_lists_agree<C: Coord, F: Fn(Step<C>) -> Option<Cost>>(
    m: Model<C>,
    f: F,
    goal: int,
    j: int,
    budget: int,
    back: Seq<(Idx, Cost)>,
    fwd: Seq<(Idx, Cost)>,
    c: Cost,
)
    requires
        m.laws(),
        m.valid(goal),
        m.valid(j),
        m.len() <= u32::MAX,
        reach_ok(back_graph(m, f), goal, budget, back),
        reach_ok(step_graph(m, f), j, budget, fwd),
    ensures
        back.contains((idx(j), c)) <==> fwd.contains((idx(goal), c)),
{
    lemma_reaching_reverses(m, f, goal, j, c as int);
    if back.contains((idx(j), c)) {
        lemma_list_transfer(back_graph(m, f), goal, j, step_graph(m, f), j, goal, budget, back, fwd, c);
    }
    if fwd.contains((idx(goal), c)) {
        lemma_list_transfer(step_graph(m, f), j, goal, back_graph(m, f), goal, j, budget, fwd, back, c);
    }
}

/// Who can reach a cell is answered by the search over the steps into each cell: on any board,
/// under any rule, the cheapest walk from `v` to `goal` costs what the cheapest walk from `goal` to
/// `v` over the steps turned round costs, and one exists exactly when the other does.
pub proof fn lemma_reaching_reverses<C: Coord, F: Fn(Step<C>) -> Option<Cost>>(m: Model<C>, f: F, goal: int, v: int, k: int)
    requires
        m.laws(),
        m.valid(goal),
        m.valid(v),
    ensures
        least_cost(back_graph(m, f), goal, v, k) == least_cost(step_graph(m, f), v, goal, k),
        connects(back_graph(m, f), goal, v) == connects(step_graph(m, f), v, goal),
{
    lemma_step_graph_ok(m, f);
    lemma_back_graph_transposed(m, f);
    lemma_least_cost_transposed(step_graph(m, f), back_graph(m, f), goal, v, k);
}

} // verus!
