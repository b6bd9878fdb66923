//! Which board's numbering an index belongs to.
//!
//! A tag names a *numbering*, not an object. Two boards that number the same cells in the same
//! order share one, and their indices are interchangeable. This build carries the shipped profile
//! of the tag: it is zero-sized, every comparison agrees, and an `Idx` is a bare `u32` in all but
//! name. Equality, ordering and hashing of an index compare the number alone.

use vstd::prelude::*;

verus! {

/// Which board's numbering an [`Idx`](crate::Idx) belongs to. Zero-sized.
#[derive(Debug, Clone, Copy, PartialEq, Eq, Structural, PartialOrd, Ord, Hash, Default)]
pub struct Tag;

impl Tag {
    /// Derive a tag from a board's cells, in index order.
    ///
    /// The cells are never walked, so a caller may hand over a sequence that would be expensive
    /// to visit and pay nothing for it.
    pub fn of<H>(items: &[H]) -> (t: Tag)
        ensures
            t == Tag,
    {
        let _ = items;
        Tag
    }

    /// Whether an index carrying `self` may be handed to a board carrying `other`.
    pub fn agrees(self, other: Tag) -> (b: bool)
        ensures
            b,
    {
        let _ = other;
        true
    }

    /// A tag that matches every board.
    pub fn any() -> (t: Tag)
        ensures
            t == Tag,
    {
        Tag
    }
}

} // verus!
