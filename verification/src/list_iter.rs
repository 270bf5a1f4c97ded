//! Iterators over the list.
//!
//! The immutable iterator borrows the list and hands out copies of the
//! elements from head to tail.  The mutable iterator is a cursor: it grants
//! exclusive access to one element at a time, and advancing it gives up the
//! current element for the next, so no two elements are ever reachable for
//! mutation at once.
use vstd::prelude::*;

use crate::LinkedList;

verus! {

/// An immutable iterator over the elements of a `LinkedList`.
///
/// It walks the forward links and yields a copy of each element in
/// head-to-tail order; a fresh iterator must be obtained to restart.
pub struct ListIter<'a, T> {
    pub(crate) src: &'a LinkedList<T>,
    pub(crate) at: Option<usize>,
    pub(crate) pos: Ghost<int>,
}

impl<'a, T> ListIter<'a, T> {
    /// The list being iterated.
    pub open(crate) spec fn src_list(self) -> LinkedList<T> {
        *self.src
    }

    /// How many elements have been yielded so far.
    pub open(crate) spec fn pos(self) -> int {
        self.pos@
    }

    /// The iterator is well-formed: the list it reads is well-formed and
    /// the cursor rests on the node at the iterator's position, or nowhere
    /// once every element has been yielded.
    pub open(crate) spec fn wf(self) -> bool {
        &&& self.src.wf()
        &&& 0 <= self.pos@ <= self.src.slot_seq().len()
        &&& self.at == (if self.pos@ < self.src.slot_seq().len() {
            Some(self.src.slot_seq()[self.pos@])
        } else {
            None::<usize>
        })
    }
}

impl<'a, T: Clone> ListIter<'a, T> {
    /// Yields a copy of the next element, or reports exhaustion once every
    /// element has been produced.  The list itself is never altered.
    pub fn next(&mut self) -> (r: Option<T>)
        requires
            old(self).wf(),
        ensures
            final(self).wf(),
            final(self).src_list() == old(self).src_list(),
            old(self).pos() < old(self).src_list()@.len() ==> {
                &&& final(self).pos() == old(self).pos() + 1
                &&& r matches Some(v) && cloned(old(self).src_list()@[old(self).pos()], v)
            },
            old(self).pos() >= old(self).src_list()@.len() ==> r is None && final(self).pos()
                == old(self).pos(),
    {
        let src = self.src;
        match self.at {
            None => None,
            Some(i) => {
                proof {
                    assert(src.slot_ok(i));
                    assert(src.node_at(self.pos@) == src.node_in(i));
                    assert(src@[self.pos@] == src.node_in(i).data);
                }
                let nd = crate::node_ref(&src.nodes, i);
                self.at = nd.next;
                proof {
                    self.pos@ = self.pos@ + 1;
                }
                Some(nd.data.clone())
            },
        }
    }
}

/// A mutable iterator over the elements of a `LinkedList`: a cursor that
/// exposes one element at a time.
///
/// The cursor holds no borrow itself; each operation takes the list it was
/// created from.  `peek` copies the current element, `replace` exchanges it
/// and moves on, and `advance` moves on without touching it, so exclusive
/// access is granted to at most one element at any point of the traversal.
pub struct ListIterMut {
    pub(crate) at: Option<usize>,
    pub(crate) pos: usize,
}

impl ListIterMut {
    /// How many elements the cursor has passed.
    pub open(crate) spec fn pos(self) -> int {
        self.pos as int
    }

    /// The cursor is well-formed for `list`: the list is well-formed and
    /// the cursor rests on the node at its position, or nowhere once past
    /// the tail.
    pub open(crate) spec fn wf<T>(self, list: LinkedList<T>) -> bool {
        &&& list.wf()
        &&& self.pos <= list.slot_seq().len()
        &&& self.at == (if (self.pos as int) < list.slot_seq().len() {
            Some(list.slot_seq()[self.pos as int])
        } else {
            None::<usize>
        })
    }

    /// Whether an element remains under the cursor.
    pub fn has_next<T>(&self, list: &LinkedList<T>) -> (r: bool)
        requires
            self.wf(*list),
        ensures
            r == (self.pos() < list@.len()),
    {
        self.pos < list.num_elements
    }

    /// Returns a copy of the element under the cursor, without moving.
    pub fn peek<T: Clone>(&self, list: &LinkedList<T>) -> (r: T)
        requires
            self.wf(*list),
            self.pos() < list@.len(),
        ensures
            cloned(list@[self.pos()], r),
    {
        let i = self.at.unwrap();
        proof {
            assert(list.slot_ok(i));
            assert(list.node_at(self.pos as int) == list.node_in(i));
        }
        let nd = crate::node_ref(&list.nodes, i);
        nd.data.clone()
    }

    /// Exchanges the element under the cursor for `value`, returns the
    /// element that was there, and advances past it.  The links are
    /// untouched, so the shape of the list is exactly preserved.
    pub fn replace<T>(&mut self, list: &mut LinkedList<T>, value: T) -> (r: T)
        requires
            old(self).wf(*old(list)),
            old(self).pos() < old(list)@.len(),
        ensures
            final(list).wf(),
            final(self).wf(*final(list)),
            final(self).pos() == old(self).pos() + 1,
            r == old(list)@[old(self).pos()],
            final(list)@ == old(list)@.update(old(self).pos(), value),
    {
        let i = self.at.unwrap();
        proof {
            assert(old(list).slot_ok(i));
        }
        let nxt = crate::node_ref(&list.nodes, i).next;
        let r = list.set_data_at(i, value, Ghost(self.pos as int));
        proof {
            assert(old(list).node_at(self.pos as int).next == nxt);
        }
        self.at = nxt;
        self.pos = self.pos + 1;
        r
    }

    /// Moves past the element under the cursor without touching it.
    pub fn advance<T>(&mut self, list: &LinkedList<T>)
        requires
            old(self).wf(*list),
            old(self).pos() < list@.len(),
        ensures
            final(self).wf(*list),
            final(self).pos() == old(self).pos() + 1,
    {
        let i = self.at.unwrap();
        proof {
            assert(list.slot_ok(i));
            assert(list.node_at(self.pos as int) == list.node_in(i));
        }
        let nd = crate::node_ref(&list.nodes, i);
        self.at = nd.next;
        self.pos = self.pos + 1;
    }
}

impl<T> LinkedList<T> {
    /// Returns an iterator over the list, positioned at the head.
    pub fn iter(&self) -> (r: ListIter<'_, T>)
        requires
            self.wf(),
        ensures
            r.wf(),
            r.src_list() == *self,
            r.pos() == 0,
    {
        ListIter { src: self, at: self.head, pos: Ghost(0) }
    }

    /// Returns a mutable cursor over the list, positioned at the head.
    pub fn iter_mut(&self) -> (r: ListIterMut)
        requires
            self.wf(),
        ensures
            r.wf(*self),
            r.pos() == 0,
    {
        ListIterMut { at: self.head, pos: 0 }
    }
}

} // verus!
