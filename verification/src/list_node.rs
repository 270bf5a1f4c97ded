//! The storage unit of the list: one element together with its two links.
//!
//! Nodes live in slots of the list's backing store, and the links are slot
//! indices rather than pointers: the forward link is the owning edge (a node
//! is kept alive exactly while some owning handle leads to its slot), while
//! the backward link is a mere back-reference that the list re-derives when
//! it rewires the chain.  A single owning edge per node makes a forward cycle
//! structurally impossible.
use vstd::prelude::*;

verus! {

/// A doubly-linked node addressed by slot indices.
///
/// `next` is the owning forward link: it designates the slot of the
/// subsequent node, or nothing at the tail.  `prev` is the non-owning
/// backward link: it designates the slot of the preceding node, or nothing
/// at the head.
pub struct ListNode<T> {
    pub data: T,
    pub next: Option<usize>,
    pub prev: Option<usize>,
}

impl<T> ListNode<T> {
    /// Creates a new node with the given value, forward link, and backward
    /// link.
    pub fn new(data: T, next: Option<usize>, prev: Option<usize>) -> (r: Self)
        ensures
            r.data == data,
            r.next == next,
            r.prev == prev,
    {
        Self { data, next, prev }
    }

    /// Creates a detached node: the given value with no links yet.
    pub fn from(data: T) -> (r: Self)
        ensures
            r.data == data,
            r.next is None,
            r.prev is None,
    {
        Self::new(data, None, None)
    }
}

} // verus!
