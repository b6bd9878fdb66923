//! One value per cell, indexed by [`Idx`] and nothing else.
//!
//! The grid holds no game state and this does not hold a grid. It is the `Vec` every consumer was
//! already writing, sized from the board rather than from a number you remembered, and subscripted
//! by an [`Idx`] rather than by a cast written out by hand.

use vstd::prelude::*;
use crate::coord::{Idx, idx};
use crate::grid::{Grid, max_cells};

verus! {

broadcast use crate::coord::group_idx;

/// One `T` for every cell of a grid, addressed by [`Idx`].
///
/// A `CellMap` is positional: slot `i` is whatever cell the grid called `i` when the map was built.
/// A map built against one board is stale against a board that numbers its cells differently, so
/// [`Grid::len`] is the only thing that ever sizes one.
#[derive(Debug, PartialEq, Eq)]
pub struct CellMap<T> {
    of: Vec<T>,
}

impl<T> CellMap<T> {
    /// A map covers a board, so it has no more slots than a board has cells.
    #[verifier::type_invariant]
    spec fn small(self) -> bool {
        self.of@.len() <= max_cells()
    }

    /// The values, in index order.
    pub closed spec fn view(&self) -> Seq<T> {
        self.of@
    }

    /// The same value in every cell of `g`.
    pub fn new<B: Grid>(g: &B, value: T) -> (m: Self)
        where
            T: Clone,
        requires
            g.wf(),
        ensures
            m.view().len() == g.model().len(),
            forall|k: int| 0 <= k < m.view().len() ==> cloned(value, #[trigger] m.view()[k]),
    {
        proof {
            g.lemma_grid();
        }
        let n = g.len();
        let mut of: Vec<T> = Vec::new();
        let mut k: usize = 0;
        while k < n
            invariant
                k <= n,
                of@.len() == k,
                forall|q: int| 0 <= q < k ==> cloned(value, #[trigger] of@[q]),
            decreases n - k,
        {
            of.push(value.clone());
            k = k + 1;
        }
        CellMap { of }
    }

    /// A value worked out from each cell's coordinate, in index order.
    pub fn from_fn<B: Grid, F: Fn(B::Cell) -> T>(g: &B, f: F) -> (m: Self)
        requires
            g.wf(),
            forall|c: B::Cell| #[trigger] f.requires((c,)),
        ensures
            m.view().len() == g.model().len(),
            forall|k: int| 0 <= k < m.view().len() ==> f.ensures((g.model().cells[k],), #[trigger] m.view()[k]),
    {
        proof {
            g.lemma_grid();
        }
        let cells = g.cells();
        let mut of: Vec<T> = Vec::new();
        let mut k: usize = 0;
        while k < cells.len()
            invariant
                forall|c: B::Cell| #[trigger] f.requires((c,)),
                cells@ == g.model().cells,
                k <= cells@.len(),
                of@.len() == k,
                forall|q: int| 0 <= q < k ==> f.ensures((cells@[q],), #[trigger] of@[q]),
            decreases cells@.len() - k,
        {
            of.push(f(cells[k]));
            k = k + 1;
        }
        CellMap { of }
    }

    /// A map from its values, in index order: what a saved map restores from. It lines up with a
    /// board only if that board numbers its cells in the order the values were saved in.
    pub fn from_values(of: Vec<T>) -> (m: Self)
        requires
            of@.len() <= max_cells(),
        ensures
            m.view() == of@,
    {
        CellMap { of }
    }

    /// Every cell and its value, in index order.
    pub fn iter(&self) -> (r: Vec<(Idx, &T)>)
        ensures
            r@.len() == self.view().len(),
            forall|k: int| 0 <= k < r@.len() ==> #[trigger] r@[k] == (idx(k), &self.view()[k]),
    {
        proof {
            use_type_invariant(self);
        }
        let mut r: Vec<(Idx, &T)> = Vec::new();
        let mut k: usize = 0;
        while k < self.of.len()
            invariant
                self.of@.len() <= max_cells(),
                k <= self.of@.len(),
                r@.len() == k,
                forall|q: int| 0 <= q < k ==> #[trigger] r@[q] == (idx(q), &self.of@[q]),
            decreases self.of@.len() - k,
        {
            r.push((Idx::new(crate::tag::Tag, k as u32), &self.of[k]));
            k = k + 1;
        }
        r
    }

    /// How many cells the map covers: the [`Grid::len`] it was built from.
    pub fn len(&self) -> (r: usize)
        ensures
            r == self.view().len(),
    {
        self.of.len()
    }

    /// Whether the map covers no cells at all.
    pub fn is_empty(&self) -> (b: bool)
        ensures
            b == (self.view().len() == 0),
    {
        self.of.len() == 0
    }

    /// The value of cell `i`.
    pub fn get(&self, i: Idx) -> (r: &T)
        requires
            i.id() < self.view().len(),
        ensures
            *r == self.view()[i.id()],
    {
        &self.of[i.raw() as usize]
    }

    /// Give cell `i` a new value.
    pub fn set(&mut self, i: Idx, value: T)
        requires
            i.id() < old(self).view().len(),
        ensures
            final(self).view() == old(self).view().update(i.id(), value),
    {
        proof {
            use_type_invariant(&*self);
        }
        let mut of: Vec<T> = Vec::new();
        std::mem::swap(&mut of, &mut self.of);
        of.set(i.raw() as usize, value);
        self.of = of;
    }
}

impl<T: Clone> Clone for CellMap<T> {
    fn clone(&self) -> (r: Self)
        ensures
            r.view().len() == self.view().len(),
            forall|k: int| 0 <= k < r.view().len() ==> cloned(self.view()[k], #[trigger] r.view()[k]),
    {
        proof {
            use_type_invariant(self);
        }
        CellMap { of: self.of.clone() }
    }
}

impl<T> core::ops::Index<Idx> for CellMap<T> {
    type Output = T;

    fn index(&self, i: Idx) -> (r: &T)
        ensures
            *r == self.view()[i.id()],
    {
        &self.of[i.raw() as usize]
    }
}

impl<T> vstd::std_specs::core::IndexSpecImpl<Idx> for CellMap<T> {
    open spec fn index_req(&self, i: &Idx) -> bool {
        i.id() < self.view().len()
    }
}

} // verus!
