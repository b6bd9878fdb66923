//! A region of a board, which is a board in its own right.
//!
//! A [`SubGrid`] borrows its root and holds the root indices of its cells, sorted, each once. It
//! numbers its own cells from zero in the root's order, so its index `k` is the `k`th smallest
//! root index it holds. Steps that would leave the region are the edge of the board, exactly as the
//! outside of a map is.
//!
//! # Two numberings, both live
//!
//! The region's index 0 and the root's index 0 are each valid and each a different cell. No bounds
//! check can separate them. [`Grid::to_root`] and [`Grid::of_root`] are the bridge.

use vstd::prelude::*;
use crate::coord::{Coord, Idx, Metric, idx};
use crate::grid::{Grid, Model, RootGrid, max_cells};
use crate::tag::Tag;
use crate::path::copied;

verus! {

broadcast use crate::coord::group_idx;

/// Strictly increasing: sorted, each once.
pub open spec fn ascending(s: Seq<u32>) -> bool {
    forall|i: int, j: int| 0 <= i < j < s.len() ==> s[i] < s[j]
}

/// Where root index `r` sits in the region's list, if it is there.
pub open spec fn position(s: Seq<u32>, r: int) -> Option<int> {
    if 0 <= r <= u32::MAX && s.contains(r as u32) {
        Some(s.index_of(r as u32))
    } else {
        None
    }
}

/// Sort a list of numbers in place, ascending. `slice::sort_unstable` does the work.
#[verifier::external_body]
fn sort_numbers(v: &mut Vec<u32>)
    ensures
        final(v)@.to_multiset() == old(v)@.to_multiset(),
        forall|i: int, j: int| 0 <= i < j < final(v)@.len() ==> final(v)@[i] <= final(v)@[j],
{
    v.sort_unstable();
}

/// A region of a board: a set of the root's cells, numbered in the root's order.
///
/// Ask [`Grid::subset`] or a range query for one. It borrows its root, so it costs a sort rather
/// than a board.
#[derive(Debug)]
pub struct SubGrid<'a, B: RootGrid> {
    root: &'a B,
    cells: Vec<u32>,
    tag: Tag,
}

impl<'a, B: RootGrid> SubGrid<'a, B> {
    /// The root indices this region holds, ascending.
    pub closed spec fn members(&self) -> Seq<u32> {
        self.cells@
    }

    /// The board this region was taken from.
    pub closed spec fn base(&self) -> B {
        *self.root
    }

    /// The region is well formed: its root is, and its list is sorted, each entry once, each a
    /// cell of the root.
    pub closed spec fn sound(&self) -> bool {
        &&& self.root.whole_wf()
        &&& ascending(self.cells@)
        &&& forall|k: int| 0 <= k < self.cells@.len() ==> #[trigger] self.cells@[k] < self.root.whole().len()
    }

    /// A sound region is a well-formed board.
    pub proof fn lemma_sound(&self)
        requires
            self.sound(),
        ensures
            self.wf(),
    {
    }

    /// A region lists the root indices it holds in ascending order, each once.
    pub proof fn lemma_members_ascending(&self)
        requires
            self.sound(),
        ensures
            ascending(self.members()),
    {
    }

    /// A region numbers its cells in the root's order: its `k`th cell is the root's cell
    /// `members()[k]`, no two of its cells name one root cell (so `of_root(to_root(k))` is `k`),
    /// and a root cell it does not hold has no number on it (so `of_root` answers `None`).
    pub proof fn lemma_region_numbering(&self)
        requires
            self.sound(),
        ensures
            self.model().len() == self.members().len(),
            forall|k: int|
                0 <= k < self.model().len() ==> #[trigger] self.spec_to_root(k) == self.members()[k] as int
                    && self.model().cells[k] == self.base().whole().cells[self.members()[k] as int],
            forall|k1: int, k2: int|
                0 <= k1 < self.model().len() && 0 <= k2 < self.model().len() && #[trigger] self.spec_to_root(k1)
                    == #[trigger] self.spec_to_root(k2) ==> k1 == k2,
            forall|x: u32, k: int|
                !#[trigger] self.members().contains(x) && 0 <= k < self.model().len() ==> #[trigger] self.spec_to_root(k) != x,
    {
        assert forall|x: u32, k: int| !#[trigger] self.members().contains(x) && 0 <= k < self.model().len() implies #[trigger] self.spec_to_root(k)
            != x by {
            assert(self.members().contains(self.members()[k]));
        }
    }

    /// A region taken again from the root indices it lists is the same region: a region whose
    /// members are exactly the numbers of `root_indices()` lists them alike, in the same order.
    pub proof fn lemma_subset_of_root_indices(&self, again: &Self)
        requires
            self.sound(),
            again.sound(),
            forall|x: u32| #[trigger] again.members().contains(x) <==> exists|k: int|
                0 <= k < self.members().len() && idx(self.members()[k] as int).id() == x,
        ensures
            again.members() == self.members(),
    {
        assert forall|x: u32| self.members().contains(x) <==> again.members().contains(x) by {
            if self.members().contains(x) {
                let k = self.members().index_of(x);
                assert(idx(self.members()[k] as int).id() == x);
            }
            if again.members().contains(x) {
                let k = choose|k: int| 0 <= k < self.members().len() && idx(self.members()[k] as int).id() == x;
                assert(self.members()[k] == x);
            }
        }
        self.lemma_same_members(again);
    }

    /// A region's list is fixed by the cells it holds: two regions holding the same root indices
    /// list them alike, however each was computed.
    pub proof fn lemma_same_members(&self, other: &Self)
        requires
            self.sound(),
            other.sound(),
            forall|x: u32| self.members().contains(x) <==> other.members().contains(x),
        ensures
            self.members() == other.members(),
    {
        lemma_ascending_unique(self.members(), other.members());
    }

    /// A region of `root` holding the cells `cells` names, sorted and each once.
    pub(crate) fn of(root: &'a B, cells: Vec<Idx>) -> (s: Self)
        requires
            root.whole_wf(),
            forall|k: int| 0 <= k < cells@.len() ==> (#[trigger] cells@[k]).id() < root.whole().len(),
        ensures
            s.sound(),
            s.base() == *root,
            forall|r: u32| s.members().contains(r) <==> exists|k: int|
                0 <= k < cells@.len() && #[trigger] cells@[k].id() == r,
    {
        let mut raw: Vec<u32> = Vec::new();
        let mut k: usize = 0;
        while k < cells.len()
            invariant
                k <= cells@.len(),
                raw@.len() == k,
                forall|j: int| 0 <= j < k ==> #[trigger] raw@[j] == cells@[j].id(),
            decreases cells@.len() - k,
        {
            raw.push(cells[k].raw());
            k = k + 1;
        }
        let ghost before = raw@;
        sort_numbers(&mut raw);
        proof {
            assert forall|r: u32| raw@.contains(r) <==> before.contains(r) by {
                raw@.to_multiset_ensures();
                before.to_multiset_ensures();
                assert(raw@.to_multiset().count(r) == before.to_multiset().count(r));
            }
        }
        // Drop the repeats, which sorting has brought together.
        let mut kept: Vec<u32> = Vec::new();
        let mut j: usize = 0;
        while j < raw.len()
            invariant
                j <= raw@.len(),
                forall|a: int, b: int| 0 <= a < b < raw@.len() ==> raw@[a] <= raw@[b],
                ascending(kept@),
                forall|r: u32| kept@.contains(r) <==> exists|a: int| 0 <= a < j && raw@[a] == r,
                j > 0 ==> kept@.len() > 0 && kept@.last() == raw@[j - 1],
                j == 0 ==> kept@.len() == 0,
            decreases raw@.len() - j,
        {
            let x = raw[j];
            let ghost old_kept = kept@;
            if j == 0 || kept[kept.len() - 1] != x {
                proof {
                    if j > 0 {
                        assert(raw@[j - 1] <= raw@[j as int]);
                    }
                }
                kept.push(x);
                proof {
                    assert(kept@ == old_kept.push(x));
                    assert forall|a: int, b: int| 0 <= a < b < kept@.len() implies kept@[a] < kept@[b] by {
                        if b == old_kept.len() && j > 0 {
                            assert(kept@[b] == x);
                            assert(old_kept[old_kept.len() - 1] == raw@[j - 1]);
                            assert(raw@[j - 1] <= raw@[j as int]);
                            assert(old_kept[old_kept.len() - 1] != x);
                            if a < old_kept.len() - 1 {
                                assert(old_kept[a] < old_kept[old_kept.len() - 1]);
                            }
                        } else if b < old_kept.len() {
                            assert(old_kept[a] < old_kept[b]);
                        }
                    }
                    assert forall|r: u32| kept@.contains(r) <==> exists|a: int| 0 <= a < j + 1 && raw@[a] == r by {
                        if kept@.contains(r) {
                            let i = kept@.index_of(r);
                            if i < old_kept.len() {
                                assert(old_kept[i] == r);
                                assert(old_kept.contains(r));
                            } else {
                                assert(raw@[j as int] == r);
                            }
                        }
                        if exists|a: int| 0 <= a < j + 1 && raw@[a] == r {
                            let a = choose|a: int| 0 <= a < j + 1 && raw@[a] == r;
                            if a < j {
                                assert(old_kept.contains(r));
                                let i = old_kept.index_of(r);
                                assert(kept@[i] == r);
                            } else {
                                assert(kept@[old_kept.len() as int] == r);
                            }
                        }
                    }
                }
            } else {
                proof {
                    assert forall|r: u32| kept@.contains(r) <==> exists|a: int| 0 <= a < j + 1 && raw@[a] == r by {
                        if exists|a: int| 0 <= a < j + 1 && raw@[a] == r {
                            let a = choose|a: int| 0 <= a < j + 1 && raw@[a] == r;
                            if a == j {
                                assert(kept@[kept@.len() - 1] == r);
                            }
                        }
                    }
                }
            }
            j = j + 1;
        }
        proof {
            assert forall|r: u32| kept@.contains(r) <==> exists|a: int|
                0 <= a < cells@.len() && #[trigger] cells@[a].id() == r by {
                if kept@.contains(r) {
                    assert(before.contains(r));
                    let a = before.index_of(r);
                    assert(cells@[a].id() == r);
                }
                if exists|a: int| 0 <= a < cells@.len() && #[trigger] cells@[a].id() == r {
                    let a = choose|a: int| 0 <= a < cells@.len() && #[trigger] cells@[a].id() == r;
                    assert(before[a] == r);
                    assert(before.contains(r));
                    assert(raw@.contains(r));
                    let b = raw@.index_of(r);
                    assert(raw@[b] == r);
                }
            }
            assert forall|i: int| 0 <= i < kept@.len() implies kept@[i] < root.whole().len() by {
                assert(kept@.contains(kept@[i]));
                let a = choose|a: int| 0 <= a < cells@.len() && #[trigger] cells@[a].id() == kept@[i];
            }
        }
        let tag = Tag::of(kept.as_slice());
        SubGrid { root, cells: kept, tag }
    }

    /// The root's indices for this region's cells, in this region's order.
    pub fn root_indices(&self) -> (r: Vec<Idx>)
        requires
            self.sound(),
        ensures
            r@.len() == self.members().len(),
            forall|k: int| 0 <= k < r@.len() ==> #[trigger] r@[k] == idx(self.members()[k] as int),
    {
        let tag = Tag;
        let mut r: Vec<Idx> = Vec::new();
        let mut k: usize = 0;
        while k < self.cells.len()
            invariant
                k <= self.cells@.len(),
                r@.len() == k,
                forall|j: int| 0 <= j < k ==> #[trigger] r@[j] == idx(self.cells@[j] as int),
            decreases self.cells@.len() - k,
        {
            r.push(Idx::new(tag, self.cells[k]));
            k = k + 1;
        }
        r
    }

    /// Whether this region holds root index `r`.
    pub(crate) fn holds(&self, r: u32) -> (b: bool)
        requires
            self.sound(),
        ensures
            b == self.members().contains(r),
    {
        match self.locate(r) {
            Some(_) => true,
            None => false,
        }
    }

    /// What [`Grid::of_root`] answers is the position of the root index in the list.
    proof fn lemma_found(&self, rr: u32, r: Option<Idx>)
        requires
            ascending(self.cells@),
            match r {
                Some(k) => k.id() < self.model().len() && self.spec_to_root(k.id()) == rr,
                None => forall|k: int| 0 <= k < self.model().len() ==> self.spec_to_root(k) != rr,
            },
        ensures
            match position(self.cells@, rr as int) {
                Some(k) => r == Some(idx(k)),
                None => r is None,
            },
    {
        match r {
            Some(k) => {
                lemma_position(self.cells@, k.id());
            },
            None => {
                if self.cells@.contains(rr) {
                    let q = self.cells@.index_of(rr);
                    assert(self.cells@[q] == rr);
                    assert(self.spec_to_root(q) == rr);
                }
            },
        }
    }

    /// Where root index `r` sits in this region, by binary search over the sorted list.
    fn locate(&self, r: u32) -> (k: Option<usize>)
        requires
            ascending(self.cells@),
        ensures
            match k {
                Some(k) => k < self.cells@.len() && self.cells@[k as int] == r,
                None => !self.cells@.contains(r),
            },
    {
        let mut lo: usize = 0;
        let mut hi: usize = self.cells.len();
        while lo < hi
            invariant
                ascending(self.cells@),
                lo <= hi <= self.cells@.len(),
                forall|i: int| 0 <= i < lo ==> self.cells@[i] < r,
                forall|i: int| hi <= i < self.cells@.len() ==> self.cells@[i] > r,
            decreases hi - lo,
        {
            let mid = lo + (hi - lo) / 2;
            let v = self.cells[mid];
            if v == r {
                return Some(mid);
            } else if v < r {
                lo = mid + 1;
            } else {
                hi = mid;
            }
        }
        None
    }
}

impl<'a, B: RootGrid> Clone for SubGrid<'a, B> {
    /// The same region of the same board.
    fn clone(&self) -> (s: Self)
        ensures
            s.members() == self.members(),
            s.base() == self.base(),
            s.sound() == self.sound(),
    {
        SubGrid { root: self.root, cells: copied(&self.cells), tag: self.tag }
    }
}

impl<'a, B: RootGrid> Grid for SubGrid<'a, B> {
    type Cell = B::Cell;
    type Root = B;

    closed spec fn wf(&self) -> bool {
        self.sound()
    }

    closed spec fn model(&self) -> Model<B::Cell> {
        let w = self.root.whole();
        let s = self.cells@;
        Model {
            cells: s.map_values(|r: u32| w.cells[r as int]),
            dirs: w.dirs,
            step: |i: int, d: <B::Cell as Coord>::Dir| match (w.step)(s[i] as int, d) {
                Some(rj) => position(s, rj),
                None => None,
            },
            back: |j: int, d: <B::Cell as Coord>::Dir| match (w.back)(s[j] as int, d) {
                Some(ri) => position(s, ri),
                None => None,
            },
            metric: w.metric,
        }
    }

    closed spec fn spec_root(&self) -> B {
        *self.root
    }

    closed spec fn spec_to_root(&self, i: int) -> int {
        self.cells@[i] as int
    }

    proof fn lemma_grid(&self) {
        assert(self.wf());
        assert(self.root.whole_wf());
        assert(self.spec_root() == *self.root);
        assert(self.spec_root().whole_wf());
        self.root.lemma_whole();
        let w = self.root.whole();
        let s = self.cells@;
        let m = self.model();
        assert(s.len() <= max_cells()) by {
            assert forall|k: int| 0 <= k < s.len() implies #[trigger] s[k] >= k by {
                lemma_ascending_floor(s, k);
            }
            if s.len() > w.len() {
                lemma_ascending_floor(s, s.len() - 1);
            }
        }
        assert(m.cells.no_duplicates()) by {
            assert forall|i: int, j: int| 0 <= i < m.cells.len() && 0 <= j < m.cells.len() && i != j implies m.cells[i]
                != m.cells[j] by {
                assert(s[i] != s[j]);
                assert(w.cells[s[i] as int] != w.cells[s[j] as int]);
            }
        }
        assert forall|i: int, d: <B::Cell as Coord>::Dir| m.valid(i) && (#[trigger] (m.step)(i, d)) is Some implies {
            let j = (m.step)(i, d)->0;
            &&& m.valid(j)
            &&& j != i
            &&& m.dirs.contains(d)
            &&& m.dist(i, j) <= 1
            &&& (m.back)(j, d) == Some(i)
        } by {
            let ri = s[i] as int;
            let rj = (w.step)(ri, d)->0;
            let j = s.index_of(rj as u32);
            assert(w.valid(ri));
            assert(s[j] == rj);
            assert(position(s, ri) == Some(i)) by {
                assert(s.contains(s[i]));
                let i2 = s.index_of(s[i]);
                if i2 != i {
                    assert(s[i2] == s[i]);
                }
            }
        }
        assert forall|i: int| 0 <= i < m.len() implies 0 <= #[trigger] self.spec_to_root(i) < w.len()
            && w.cells[self.spec_to_root(i)] == m.cells[i] by {
        }
        assert forall|i: int, j: int| 0 <= i < j < m.len() implies #[trigger] self.spec_to_root(i) < #[trigger] self.spec_to_root(j) by {
        }
        assert forall|j: int, d: <B::Cell as Coord>::Dir| m.valid(j) && (#[trigger] (m.back)(j, d)) is Some implies {
            let i = (m.back)(j, d)->0;
            &&& m.valid(i)
            &&& (m.step)(i, d) == Some(j)
        } by {
            let rj = s[j] as int;
            let ri = (w.back)(rj, d)->0;
            let i = s.index_of(ri as u32);
            assert(w.valid(rj));
            assert(s[i] == ri);
            assert(position(s, rj) == Some(j)) by {
                assert(s.contains(s[j]));
                let j2 = s.index_of(s[j]);
                if j2 != j {
                    assert(s[j2] == s[j]);
                }
            }
        }
    }

    fn tag(&self) -> (t: Tag) {
        self.tag
    }

    fn len(&self) -> (r: usize) {
        self.cells.len()
    }

    fn coord(&self, i: Idx) -> (c: B::Cell) {
        self.root.whole_coord_at(self.cells[i.raw() as usize])
    }

    fn index_of(&self, c: B::Cell) -> (r: Option<Idx>) {
        proof {
            self.lemma_grid();
            self.root.lemma_whole();
        }
        match self.root.whole_index_of(c) {
            Some(ri) => {
                let r = self.of_root(ri);
                proof {
                    let m = self.model();
                    let w = self.root.whole();
                    match r {
                        Some(k) => {
                            assert(w.cells.contains(c));
                            let q = w.cells.index_of(c);
                            assert(w.cells[q] == c);
                            assert(ri.id() == q);
                            assert(m.cells[k.id()] == w.cells[self.cells@[k.id()] as int]);
                            assert(m.cells[k.id()] == c);
                            assert(m.cells.contains(c));
                            let k2 = m.cells.index_of(c);
                            assert(m.cells[k2] == c);
                        },
                        None => {
                            assert forall|k: int| 0 <= k < m.cells.len() implies m.cells[k] != c by {
                                assert(m.cells[k] == w.cells[self.cells@[k] as int]);
                                assert(self.cells@[k] < w.len());
                                assert(self.spec_to_root(k) != ri.id());
                                if m.cells[k] == c {
                                    assert(w.cells.contains(c));
                                    let q = w.cells.index_of(c);
                                    assert(w.cells[q] == c);
                                    assert(ri.id() == q);
                                    if self.cells@[k] as int != q {
                                        assert(w.cells[self.cells@[k] as int] == w.cells[q]);
                                    }
                                }
                            }
                        },
                    }
                }
                r
            },
            None => {
                proof {
                    let m = self.model();
                    let w = self.root.whole();
                    assert forall|k: int| 0 <= k < m.cells.len() implies m.cells[k] != c by {
                        assert(m.cells[k] == w.cells[self.cells@[k] as int]);
                        assert(self.cells@[k] < w.len());
                    }
                }
                None
            },
        }
    }

    fn dirs(&self) -> (r: &[<B::Cell as Coord>::Dir]) {
        self.root.whole_dir_list()
    }

    fn step(&self, i: Idx, d: <B::Cell as Coord>::Dir) -> (r: Option<Idx>) {
        proof {
            self.root.lemma_whole();
        }
        match self.root.whole_step_at(self.cells[i.raw() as usize], d) {
            Some(rj) => {
                let r = self.of_root(Idx::new(Tag, rj));
                proof {
                    self.lemma_found(rj, r);
                }
                r
            },
            None => None,
        }
    }

    fn back(&self, j: Idx, d: <B::Cell as Coord>::Dir) -> (r: Option<Idx>) {
        proof {
            self.root.lemma_whole();
        }
        match self.root.whole_back_at(self.cells[j.raw() as usize], d) {
            Some(ri) => {
                let r = self.of_root(Idx::new(Tag, ri));
                proof {
                    self.lemma_found(ri, r);
                }
                r
            },
            None => None,
        }
    }

    fn metric(&self) -> (m: Metric) {
        self.root.whole_metric_of()
    }

    fn root(&self) -> (r: &B) {
        self.root
    }

    fn to_root(&self, i: Idx) -> (r: Idx) {
        Idx::new(Tag, self.cells[i.raw() as usize])
    }

    fn of_root(&self, i: Idx) -> (r: Option<Idx>) {
        match self.locate(i.raw()) {
            Some(k) => {
                proof {
                    lemma_ascending_floor(self.cells@, k as int);
                    assert(k <= u32::MAX);
                }
                let r = Idx::new(Tag, k as u32);
                proof {
                    assert(r.id() == k);
                    assert(self.spec_to_root(k as int) == i.id());
                    assert(k < self.model().len());
                }
                Some(r)
            },
            None => None,
        }
    }
}

/// Two strictly increasing lists that hold the same numbers are the same list.
proof fn lemma_ascending_unique(a: Seq<u32>, b: Seq<u32>)
    requires
        ascending(a),
        ascending(b),
        forall|x: u32| a.contains(x) <==> b.contains(x),
    ensures
        a == b,
    decreases a.len(),
{
    if a.len() == 0 {
        if b.len() > 0 {
            assert(b.contains(b[0]));
        }
        assert(a =~= b);
    } else {
        assert(a.contains(a[0]));
        assert(b.len() > 0);
        assert(b.contains(b[0]));
        let i = b.index_of(a[0]);
        let j = a.index_of(b[0]);
        if i > 0 {
            assert(b[0] < b[i]);
        }
        if j > 0 {
            assert(a[0] < a[j]);
        }
        assert(a[0] == b[0]);
        let (ra, rb) = (a.drop_first(), b.drop_first());
        assert forall|x: u32| ra.contains(x) <==> rb.contains(x) by {
            if ra.contains(x) {
                let k = ra.index_of(x);
                assert(a[k + 1] == x && a[0] < a[k + 1]);
                assert(b.contains(x));
                let h = b.index_of(x);
                assert(h != 0);
                assert(rb[h - 1] == x);
            }
            if rb.contains(x) {
                let k = rb.index_of(x);
                assert(b[k + 1] == x && b[0] < b[k + 1]);
                assert(a.contains(x));
                let h = a.index_of(x);
                assert(h != 0);
                assert(ra[h - 1] == x);
            }
        }
        assert forall|p: int, q: int| 0 <= p < q < ra.len() implies ra[p] < ra[q] by {
            assert(ra[p] == a[p + 1] && ra[q] == a[q + 1]);
        }
        assert forall|p: int, q: int| 0 <= p < q < rb.len() implies rb[p] < rb[q] by {
            assert(rb[p] == b[p + 1] && rb[q] == b[q + 1]);
        }
        lemma_ascending_unique(ra, rb);
        assert(a =~= seq![a[0]] + ra);
        assert(b =~= seq![b[0]] + rb);
    }
}

/// In a strictly increasing list, an entry's position is where it is.
proof fn lemma_position(s: Seq<u32>, k: int)
    requires
        ascending(s),
        0 <= k < s.len(),
    ensures
        position(s, s[k] as int) == Some(k),
{
    assert(s.contains(s[k]));
    let q = s.index_of(s[k]);
    if q != k {
        assert(s[q] == s[k]);
    }
}

/// The `k`th entry of a strictly increasing list of numbers is at least `k`.
proof fn lemma_ascending_floor(s: Seq<u32>, k: int)
    requires
        ascending(s),
        0 <= k < s.len(),
    ensures
        s[k] >= k,
    decreases k,
{
    if k > 0 {
        lemma_ascending_floor(s, k - 1);
    }
}

} // verus!
