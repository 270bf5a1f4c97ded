//! A doubly-linked list with verified structural invariants.
//!
//! The list supports insertion and removal at both ends, indexed lookup,
//! predicate-based retention, forward iteration, and in-place sorting by a
//! caller-supplied comparator.
//!
//! Links are kept as slot indices into one backing store (an arena), so the
//! forward chain is the single owning path to every node and a cycle of
//! owning references is impossible by construction.  The backward links are
//! non-owning back-references; every mutating operation is proved to keep
//! them the exact mirror of the forward chain.  The abstract content of the
//! list is the sequence of its elements from head to tail, and every
//! operation's contract is stated against that sequence.
use vstd::prelude::*;
use vstd::set_lib::{lemma_int_range, lemma_len_subset, set_int_range};

pub mod laws;
pub mod list_iter;
pub mod list_node;
pub mod sort;
pub mod text;

pub use list_iter::ListIter;
pub use list_iter::ListIterMut;
pub use list_node::ListNode;
pub use sort::bubble_sort;

verus! {

/// A doubly-linked list stored in an index-addressed arena.
///
/// `nodes` is the backing store: each occupied slot holds one node, each
/// vacated slot holds nothing and is remembered in `vacant` for reuse.
/// `head` and `tail` are the slot indices of the two endpoints, and
/// `num_elements` counts the nodes on the chain.  The ghost `order` is the
/// sequence of slot indices from head to tail: it ties the concrete link
/// structure to the abstract element sequence.
pub struct LinkedList<T> {
    nodes: Vec<Option<ListNode<T>>>,
    vacant: Vec<usize>,
    head: Option<usize>,
    tail: Option<usize>,
    num_elements: usize,
    order: Ghost<Seq<usize>>,
}

impl<T> LinkedList<T> {
    /// The slot indices of the chain, in head-to-tail order.
    pub open(crate) spec fn slot_seq(self) -> Seq<usize> {
        self.order@
    }

    /// Slot `i` exists and holds a node.
    pub open(crate) spec fn slot_ok(self, i: usize) -> bool {
        i < self.nodes@.len() && self.nodes@[i as int] is Some
    }

    /// Slot `i` exists and holds nothing.
    pub open(crate) spec fn slot_free(self, i: usize) -> bool {
        i < self.nodes@.len() && self.nodes@[i as int] is None
    }

    /// The node stored in slot `i`.
    pub open(crate) spec fn node_in(self, i: usize) -> ListNode<T> {
        self.nodes@[i as int]->0
    }

    /// The node at position `k` of the chain.
    pub open(crate) spec fn node_at(self, k: int) -> ListNode<T> {
        self.node_in(self.slot_seq()[k])
    }

    /// The vacated slots are valid, empty, and pairwise distinct.
    pub open(crate) spec fn vacant_ok(self) -> bool {
        &&& forall|j: int|
            0 <= j < self.vacant@.len() ==> self.slot_free(#[trigger] self.vacant@[j])
        &&& self.vacant@.no_duplicates()
    }

    /// The list is well-formed: its structural invariant holds.
    ///
    /// The invariant states that the length field counts the chain; that
    /// every chain slot holds a node and no slot is on the chain twice; that
    /// each node's forward link leads to its successor and each backward
    /// link returns to its predecessor, with none at the two ends; that
    /// `head` and `tail` are exactly the first and last chain slots, both
    /// absent only when the chain is empty; and that the free list is sound.
    pub open(crate) spec fn wf(self) -> bool {
        let ord = self.order@;
        &&& self.num_elements == ord.len()
        &&& forall|k: int| 0 <= k < ord.len() ==> self.slot_ok(#[trigger] ord[k])
        &&& ord.no_duplicates()
        &&& forall|k: int|
            0 <= k < ord.len() ==> (#[trigger] self.node_at(k)).next == (if k + 1 < ord.len() {
                Some(ord[k + 1])
            } else {
                None::<usize>
            })
        &&& forall|k: int|
            0 <= k < ord.len() ==> (#[trigger] self.node_at(k)).prev == (if k > 0 {
                Some(ord[k - 1])
            } else {
                None::<usize>
            })
        &&& self.head == (if ord.len() > 0 {
            Some(ord[0])
        } else {
            None::<usize>
        })
        &&& self.tail == (if ord.len() > 0 {
            Some(ord[ord.len() - 1])
        } else {
            None::<usize>
        })
        &&& self.vacant_ok()
    }

    /// The abstract content: the elements from head to tail.
    pub open(crate) spec fn model(self) -> Seq<T> {
        Seq::new(self.order@.len(), |k: int| self.node_at(k).data)
    }

}

impl<T> View for LinkedList<T> {
    type V = Seq<T>;

    open spec fn view(&self) -> Seq<T> {
        self.model()
    }
}

/// A duplicate-free sequence of slot indices below `n` has at most `n`
/// entries.
pub(crate) proof fn lemma_distinct_bound(s: Seq<usize>, n: nat)
    requires
        s.no_duplicates(),
        forall|k: int| 0 <= k < s.len() ==> (#[trigger] s[k]) < n,
    ensures
        s.len() <= n,
{
    let t = s.map_values(|x: usize| x as int);
    assert forall|i: int, j: int| 0 <= i < t.len() && 0 <= j < t.len() && i != j implies t[i]
        != t[j] by {
        assert(s[i] != s[j]);
    }
    t.unique_seq_to_set();
    assert forall|x: int| t.to_set().contains(x) implies set_int_range(0, n as int).contains(
        x,
    ) by {
        let k = choose|k: int| 0 <= k < t.len() && t[k] == x;
        assert(s[k] < n);
    }
    lemma_int_range(0, n as int);
    lemma_len_subset(t.to_set(), set_int_range(0, n as int));
}

/// Removes and returns the node in slot `i`, leaving the slot empty.
fn take_slot<T>(nodes: &mut Vec<Option<ListNode<T>>>, i: usize) -> (r: ListNode<T>)
    requires
        i < old(nodes)@.len(),
        old(nodes)@[i as int] is Some,
    ensures
        r == old(nodes)@[i as int]->0,
        final(nodes)@ == old(nodes)@.update(i as int, None),
{
    nodes.push(None);
    let got = nodes.swap_remove(i);
    proof {
        assert(nodes@ =~= old(nodes)@.update(i as int, None));
    }
    got.unwrap()
}

/// Stores `node` in the empty slot `i`.
fn put_slot<T>(nodes: &mut Vec<Option<ListNode<T>>>, i: usize, node: ListNode<T>)
    requires
        i < old(nodes)@.len(),
        old(nodes)@[i as int] is None,
    ensures
        final(nodes)@ == old(nodes)@.update(i as int, Some(node)),
{
    nodes.push(Some(node));
    let _hole = nodes.swap_remove(i);
    proof {
        assert(nodes@ =~= old(nodes)@.update(i as int, Some(node)));
    }
}

/// Borrows the node in slot `i`.
fn node_ref<T>(nodes: &Vec<Option<ListNode<T>>>, i: usize) -> (r: &ListNode<T>)
    requires
        i < nodes@.len(),
        nodes@[i as int] is Some,
    ensures
        *r == nodes@[i as int]->0,
{
    nodes[i].as_ref().unwrap()
}

/// Redirects the backward link of the node in slot `i`.
fn set_prev<T>(nodes: &mut Vec<Option<ListNode<T>>>, i: usize, p: Option<usize>)
    requires
        i < old(nodes)@.len(),
        old(nodes)@[i as int] is Some,
    ensures
        ({
            let nd = old(nodes)@[i as int]->0;
            final(nodes)@ == old(nodes)@.update(
                i as int,
                Some(ListNode { data: nd.data, next: nd.next, prev: p }),
            )
        }),
{
    let mut nd = take_slot(nodes, i);
    nd.prev = p;
    put_slot(nodes, i, nd);
    proof {
        assert(nodes@ =~= old(nodes)@.update(i as int, Some(nd)));
    }
}

/// Redirects the forward link of the node in slot `i`.
fn set_next<T>(nodes: &mut Vec<Option<ListNode<T>>>, i: usize, nx: Option<usize>)
    requires
        i < old(nodes)@.len(),
        old(nodes)@[i as int] is Some,
    ensures
        ({
            let nd = old(nodes)@[i as int]->0;
            final(nodes)@ == old(nodes)@.update(
                i as int,
                Some(ListNode { data: nd.data, next: nx, prev: nd.prev }),
            )
        }),
{
    let mut nd = take_slot(nodes, i);
    nd.next = nx;
    put_slot(nodes, i, nd);
    proof {
        assert(nodes@ =~= old(nodes)@.update(i as int, Some(nd)));
    }
}

impl<T> LinkedList<T> {
    /// Creates an empty list.
    pub fn new() -> (r: Self)
        ensures
            r.wf(),
            r@ == Seq::<T>::empty(),
    {
        let r = LinkedList {
            nodes: Vec::new(),
            vacant: Vec::new(),
            head: None,
            tail: None,
            num_elements: 0,
            order: Ghost(Seq::empty()),
        };
        proof {
            assert(r@ =~= Seq::<T>::empty());
        }
        r
    }

    /// Returns the number of elements in the list.
    pub fn len(&self) -> (r: usize)
        requires
            self.wf(),
        ensures
            r == self@.len(),
    {
        self.num_elements
    }

    /// Returns `true` if the list contains no elements.
    pub fn is_empty(&self) -> (r: bool)
        requires
            self.wf(),
        ensures
            r == (self@.len() == 0),
    {
        self.num_elements == 0
    }

    /// Places `node` in a slot of the backing store: a remembered vacant
    /// slot when one exists, a freshly grown one otherwise.  Touches no
    /// occupied slot and none of the chain fields.
    fn alloc_slot(&mut self, node: ListNode<T>) -> (i: usize)
        requires
            old(self).vacant_ok(),
        ensures
            final(self).head == old(self).head,
            final(self).tail == old(self).tail,
            final(self).num_elements == old(self).num_elements,
            final(self).order == old(self).order,
            final(self).vacant_ok(),
            final(self).slot_ok(i),
            final(self).node_in(i) == node,
            !old(self).slot_ok(i),
            old(self).nodes@.len() <= final(self).nodes@.len(),
            forall|j: usize|
                j != i && j < old(self).nodes@.len() ==> final(self).nodes@[j as int]
                    == old(self).nodes@[j as int],
    {
        let popped = self.vacant.pop();
        match popped {
            Some(i) => {
                put_slot(&mut self.nodes, i, node);
                proof {
                    assert(self.slot_ok(i));
                    assert forall|j: int|
                        0 <= j < self.vacant@.len() implies self.slot_free(
                        #[trigger] self.vacant@[j],
                    ) by {
                        assert(old(self).slot_free(old(self).vacant@[j]));
                        assert(old(self).vacant@[j] != i);
                    }
                }
                i
            },
            None => {
                let i = self.nodes.len();
                self.nodes.push(Some(node));
                i
            },
        }
    }

    /// Adds an element at the head of the list.
    pub fn push_front(&mut self, value: T)
        requires
            old(self).wf(),
        ensures
            final(self).wf(),
            final(self)@ == seq![value] + old(self)@,
    {
        let node = ListNode { data: value, next: self.head, prev: None };
        let i = self.alloc_slot(node);
        match self.head {
            None => {
                self.tail = Some(i);
            },
            Some(h) => {
                proof {
                    assert(old(self).slot_seq()[0] == h);
                    assert(old(self).slot_ok(h));
                }
                set_prev(&mut self.nodes, h, Some(i));
            },
        }
        self.head = Some(i);
        proof {
            let cap = self.nodes@.len();
            assert forall|k: int|
                0 <= k < (seq![i] + old(self).order@).len() implies (#[trigger] (seq![i]
                + old(self).order@)[k]) < cap by {
                if k > 0 {
                    assert(old(self).slot_ok(old(self).order@[k - 1]));
                }
            }
            assert((seq![i] + old(self).order@).no_duplicates()) by {
                assert forall|k: int|
                    0 <= k < old(self).order@.len() implies (#[trigger] old(self).order@[k])
                    != i by {
                    assert(old(self).slot_ok(old(self).order@[k]));
                }
            }
            lemma_distinct_bound(seq![i] + old(self).order@, cap);
            assert(cap <= usize::MAX) by {
                assert(self.nodes.len() == cap);
            }
            assert(self.num_elements < usize::MAX);
        }
        self.num_elements = self.num_elements + 1;
        proof {
            self.order@ = seq![i] + self.order@;
        }
        proof {
            let ord = self.order@;
            let ord0 = old(self).order@;
            assert forall|k: int| 0 <= k < ord.len() implies self.slot_ok(#[trigger] ord[k]) by {
                if k > 0 {
                    assert(old(self).slot_ok(ord0[k - 1]));
                }
            }
            assert forall|k: int|
                0 <= k < ord.len() implies (#[trigger] self.node_at(k)).next == (if k + 1
                < ord.len() {
                Some(ord[k + 1])
            } else {
                None::<usize>
            }) && (#[trigger] self.node_at(k)).prev == (if k > 0 {
                Some(ord[k - 1])
            } else {
                None::<usize>
            }) by {
                if k > 0 {
                    assert(old(self).slot_ok(ord0[k - 1]));
                    assert(old(self).node_at(k - 1) == old(self).node_in(ord0[k - 1]));
                }
            }
            assert(self.wf());
            assert(self@ =~= seq![value] + old(self)@);
        }
    }

    /// Adds an element at the tail of the list.
    pub fn push_back(&mut self, value: T)
        requires
            old(self).wf(),
        ensures
            final(self).wf(),
            final(self)@ == old(self)@.push(value),
    {
        let node = ListNode { data: value, next: None, prev: self.tail };
        let i = self.alloc_slot(node);
        match self.tail {
            None => {
                self.head = Some(i);
            },
            Some(t) => {
                proof {
                    let n0 = old(self).order@.len() as int;
                    assert(old(self).slot_seq()[n0 - 1] == t);
                    assert(old(self).slot_ok(t));
                }
                set_next(&mut self.nodes, t, Some(i));
            },
        }
        self.tail = Some(i);
        proof {
            let cap = self.nodes@.len();
            let ord1 = old(self).order@.push(i);
            assert forall|k: int| 0 <= k < ord1.len() implies (#[trigger] ord1[k]) < cap by {
                if k < ord1.len() - 1 {
                    assert(old(self).slot_ok(old(self).order@[k]));
                }
            }
            assert(ord1.no_duplicates()) by {
                assert forall|k: int|
                    0 <= k < old(self).order@.len() implies (#[trigger] old(self).order@[k])
                    != i by {
                    assert(old(self).slot_ok(old(self).order@[k]));
                }
            }
            lemma_distinct_bound(ord1, cap);
            assert(cap <= usize::MAX) by {
                assert(self.nodes.len() == cap);
            }
            assert(self.num_elements < usize::MAX);
        }
        self.num_elements = self.num_elements + 1;
        proof {
            self.order@ = self.order@.push(i);
        }
        proof {
            let ord = self.order@;
            let ord0 = old(self).order@;
            let n0 = ord0.len() as int;
            assert forall|k: int| 0 <= k < ord.len() implies self.slot_ok(#[trigger] ord[k]) by {
                if k < n0 {
                    assert(old(self).slot_ok(ord0[k]));
                }
            }
            assert forall|k: int|
                0 <= k < ord.len() implies (#[trigger] self.node_at(k)).next == (if k + 1
                < ord.len() {
                Some(ord[k + 1])
            } else {
                None::<usize>
            }) && (#[trigger] self.node_at(k)).prev == (if k > 0 {
                Some(ord[k - 1])
            } else {
                None::<usize>
            }) by {
                if k < n0 {
                    assert(old(self).slot_ok(ord0[k]));
                    assert(old(self).node_at(k) == old(self).node_in(ord0[k]));
                }
            }
            assert(self.wf());
            assert(self@ =~= old(self)@.push(value));
        }
    }

    /// Unlinks the node in slot `i`, which stands at position `q` of the
    /// chain: its predecessor's forward link and its successor's backward
    /// link are redirected around it, the endpoints are adjusted when it was
    /// one, and its slot is vacated.  Returns the unlinked node.
    fn remove_slot(&mut self, i: usize, Ghost(q): Ghost<int>) -> (r: ListNode<T>)
        requires
            old(self).wf(),
            0 <= q < old(self).slot_seq().len(),
            old(self).slot_seq()[q] == i,
        ensures
            final(self).wf(),
            final(self)@ == old(self)@.remove(q),
            final(self).slot_seq() == old(self).slot_seq().remove(q),
            r == old(self).node_at(q),
    {
        proof {
            assert(old(self).slot_ok(i));
        }
        let node = take_slot(&mut self.nodes, i);
        proof {
            let ord0 = old(self).order@;
            let n0 = ord0.len() as int;
            assert(node == old(self).node_at(q));
            if q > 0 {
                assert(old(self).slot_ok(ord0[q - 1]));
                assert(ord0[q - 1] != i);
            }
            if q + 1 < n0 {
                assert(old(self).slot_ok(ord0[q + 1]));
                assert(ord0[q + 1] != i);
            }
        }
        match node.prev {
            Some(p) => {
                set_next(&mut self.nodes, p, node.next);
            },
            None => {
                self.head = node.next;
            },
        }
        match node.next {
            Some(nx) => {
                proof {
                    let ord0 = old(self).order@;
                    assert(nx == ord0[q + 1]);
                    if q > 0 {
                        assert(ord0[q + 1] != ord0[q - 1]);
                    }
                }
                set_prev(&mut self.nodes, nx, node.prev);
            },
            None => {
                self.tail = node.prev;
            },
        }
        self.vacant.push(i);
        self.num_elements = self.num_elements - 1;
        proof {
            self.order@ = self.order@.remove(q);
        }
        proof {
            let ord = self.order@;
            let ord0 = old(self).order@;
            let n0 = ord0.len() as int;
            assert forall|k: int|
                0 <= k < ord0.len() && k != q implies self.nodes@[ord0[k] as int] == Some(
                ({
                    let nd = old(self).node_in(ord0[k]);
                    if k == q - 1 {
                        ListNode { data: nd.data, next: node.next, prev: nd.prev }
                    } else if k == q + 1 {
                        ListNode { data: nd.data, next: nd.next, prev: node.prev }
                    } else {
                        nd
                    }
                }),
            ) by {
                assert(old(self).slot_ok(ord0[k]));
                assert(ord0[k] != i);
                if k != q - 1 && q > 0 {
                    assert(ord0[k] != ord0[q - 1]);
                }
                if k != q + 1 && q + 1 < n0 {
                    assert(ord0[k] != ord0[q + 1]);
                }
            }
            assert forall|k: int| 0 <= k < ord.len() implies self.slot_ok(#[trigger] ord[k]) by {
                let k0 = if k < q {
                    k
                } else {
                    k + 1
                };
                assert(old(self).slot_ok(ord0[k0]));
                assert(ord0[k0] != i);
            }
            assert forall|k: int|
                0 <= k < ord.len() implies (#[trigger] self.node_at(k)).next == (if k + 1
                < ord.len() {
                Some(ord[k + 1])
            } else {
                None::<usize>
            }) && (#[trigger] self.node_at(k)).prev == (if k > 0 {
                Some(ord[k - 1])
            } else {
                None::<usize>
            }) by {
                let k0 = if k < q {
                    k
                } else {
                    k + 1
                };
                assert(ord[k] == ord0[k0]);
                assert(old(self).node_at(k0) == old(self).node_in(ord0[k0]));
                if k + 1 < ord.len() {
                    let k1 = if k + 1 < q {
                        k + 1
                    } else {
                        k + 2
                    };
                    assert(ord[k + 1] == ord0[k1]);
                }
                if k > 0 {
                    let km = if k - 1 < q {
                        k - 1
                    } else {
                        k
                    };
                    assert(ord[k - 1] == ord0[km]);
                }
            }
            assert(ord.no_duplicates()) by {
                assert forall|a: int, b: int|
                    0 <= a < ord.len() && 0 <= b < ord.len() && a != b implies ord[a] != ord[b] by {
                    let a0 = if a < q {
                        a
                    } else {
                        a + 1
                    };
                    let b0 = if b < q {
                        b
                    } else {
                        b + 1
                    };
                    assert(ord0[a0] != ord0[b0]);
                }
            }
            assert(self.vacant_ok()) by {
                assert forall|j: int|
                    0 <= j < self.vacant@.len() implies self.slot_free(
                    #[trigger] self.vacant@[j],
                ) by {
                    if j < self.vacant@.len() - 1 {
                        assert(old(self).slot_free(old(self).vacant@[j]));
                        assert(old(self).vacant@[j] != i);
                        if q > 0 {
                            assert(!old(self).slot_free(ord0[q - 1]));
                        }
                        if q + 1 < n0 {
                            assert(!old(self).slot_free(ord0[q + 1]));
                        }
                    }
                }
                assert(self.vacant@.no_duplicates()) by {
                    assert(forall|j: int|
                        0 <= j < old(self).vacant@.len() ==> #[trigger] old(self).vacant@[j] != i);
                }
            }
            assert(self.wf());
            assert(self@ =~= old(self)@.remove(q));
        }
        node
    }

    /// Replaces the element held by the node in slot `i`, which stands at
    /// position `q` of the chain, and returns the element it held.  The
    /// links are untouched.
    pub(crate) fn set_data_at(&mut self, i: usize, value: T, Ghost(q): Ghost<int>) -> (r: T)
        requires
            old(self).wf(),
            0 <= q < old(self).slot_seq().len(),
            old(self).slot_seq()[q] == i,
        ensures
            final(self).wf(),
            r == old(self)@[q],
            final(self)@ == old(self)@.update(q, value),
            final(self).slot_seq() == old(self).slot_seq(),
    {
        proof {
            assert(old(self).slot_ok(i));
        }
        let node = take_slot(&mut self.nodes, i);
        let fresh = ListNode { data: value, next: node.next, prev: node.prev };
        put_slot(&mut self.nodes, i, fresh);
        proof {
            let ord = self.order@;
            assert(node == old(self).node_at(q));
            assert(self.nodes@ =~= old(self).nodes@.update(i as int, Some(fresh)));
            assert forall|k: int|
                0 <= k < ord.len() implies self.slot_ok(#[trigger] ord[k]) && self.node_at(k) == (
            if k == q {
                fresh
            } else {
                old(self).node_at(k)
            }) by {
                assert(old(self).slot_ok(ord[k]));
                if k != q {
                    assert(ord[k] != i);
                }
            }
            assert forall|j: int|
                0 <= j < self.vacant@.len() implies self.slot_free(#[trigger] self.vacant@[j]) by {
                assert(old(self).slot_free(old(self).vacant@[j]));
                assert(old(self).vacant@[j] != i);
            }
            assert(self.wf());
            assert(self@ =~= old(self)@.update(q, value));
        }
        node.data
    }

    /// Swaps the elements held by the nodes in slots `i` and `j`, which
    /// stand at the distinct positions `q1` and `q2` of the chain.  Only the
    /// two elements move: every link stays as it was.
    pub(crate) fn swap_data_at(
        &mut self,
        i: usize,
        j: usize,
        Ghost(q1): Ghost<int>,
        Ghost(q2): Ghost<int>,
    )
        requires
            old(self).wf(),
            0 <= q1 < old(self).slot_seq().len(),
            0 <= q2 < old(self).slot_seq().len(),
            q1 != q2,
            old(self).slot_seq()[q1] == i,
            old(self).slot_seq()[q2] == j,
        ensures
            final(self).wf(),
            final(self)@ == old(self)@.update(q1, old(self)@[q2]).update(q2, old(self)@[q1]),
            final(self).slot_seq() == old(self).slot_seq(),
    {
        proof {
            assert(old(self).slot_ok(i));
            assert(old(self).slot_ok(j));
            assert(i != j);
        }
        let ni = take_slot(&mut self.nodes, i);
        let nj = take_slot(&mut self.nodes, j);
        let fi = ListNode { data: nj.data, next: ni.next, prev: ni.prev };
        let fj = ListNode { data: ni.data, next: nj.next, prev: nj.prev };
        put_slot(&mut self.nodes, i, fi);
        put_slot(&mut self.nodes, j, fj);
        proof {
            let ord = self.order@;
            assert(ni == old(self).node_at(q1));
            assert(nj == old(self).node_at(q2));
            assert(self.nodes@ =~= old(self).nodes@.update(i as int, Some(fi)).update(
                j as int,
                Some(fj),
            ));
            assert forall|k: int|
                0 <= k < ord.len() implies self.slot_ok(#[trigger] ord[k]) && self.node_at(k) == (
            if k == q1 {
                fi
            } else if k == q2 {
                fj
            } else {
                old(self).node_at(k)
            }) by {
                assert(old(self).slot_ok(ord[k]));
                if k != q1 {
                    assert(ord[k] != i);
                }
                if k != q2 {
                    assert(ord[k] != j);
                }
            }
            assert forall|jj: int|
                0 <= jj < self.vacant@.len() implies self.slot_free(
                #[trigger] self.vacant@[jj],
            ) by {
                assert(old(self).slot_free(old(self).vacant@[jj]));
                assert(old(self).vacant@[jj] != i);
                assert(old(self).vacant@[jj] != j);
            }
            assert(self.wf());
            assert(self@ =~= old(self)@.update(q1, old(self)@[q2]).update(q2, old(self)@[q1]));
        }
    }

    /// Removes the element at the head of the list and returns it, or
    /// reports absence, leaving the list untouched, when the list is empty.
    pub fn pop_front(&mut self) -> (r: Option<T>)
        requires
            old(self).wf(),
        ensures
            final(self).wf(),
            old(self)@.len() == 0 ==> r is None && *final(self) == *old(self),
            old(self)@.len() > 0 ==> r == Some(old(self)@[0]) && final(self)@ == old(
                self,
            )@.drop_first(),
    {
        let h = self.head;
        match h {
            None => None,
            Some(i) => {
                let node = self.remove_slot(i, Ghost(0));
                proof {
                    assert(self@ =~= old(self)@.drop_first());
                }
                Some(node.data)
            },
        }
    }

    /// Removes the element at the tail of the list and returns it, or
    /// reports absence, leaving the list untouched, when the list is empty.
    ///
    /// The new tail is found through the removed node's backward link; the
    /// invariant proves that the link leads to the predecessor whenever one
    /// exists, so the lookup cannot fail.
    pub fn pop_back(&mut self) -> (r: Option<T>)
        requires
            old(self).wf(),
        ensures
            final(self).wf(),
            old(self)@.len() == 0 ==> r is None && *final(self) == *old(self),
            old(self)@.len() > 0 ==> r == Some(old(self)@.last()) && final(self)@ == old(
                self,
            )@.drop_last(),
    {
        let t = self.tail;
        match t {
            None => None,
            Some(i) => {
                let ghost q = old(self).slot_seq().len() - 1;
                let node = self.remove_slot(i, Ghost(q));
                proof {
                    assert(self@ =~= old(self)@.drop_last());
                }
                Some(node.data)
            },
        }
    }

    /// Retains only the elements for which the predicate answers `true`,
    /// unlinking every other node during a single forward pass.
    ///
    /// The kept elements stay in their relative order.  The flags under
    /// which they were kept are reported through [`laws::retained_by`]: one
    /// answer of the predicate per original element, with the result being
    /// exactly the flagged subsequence.
    pub fn retain<F: Fn(&T) -> bool>(&mut self, f: F)
        requires
            old(self).wf(),
            forall|t: &T| call_requires(f, (t,)),
        ensures
            final(self).wf(),
            exists|keep: Seq<bool>| laws::retained_by(f, old(self)@, final(self)@, keep),
    {
        let ghost s0 = old(self)@;
        let ghost ord0 = old(self).slot_seq();
        let mut cur: Option<usize> = self.head;
        let ghost mut processed: int = 0;
        let ghost mut flags: Seq<bool> = Seq::empty();
        while cur.is_some()
            invariant
                self.wf(),
                0 <= processed <= s0.len(),
                s0.len() == ord0.len(),
                flags.len() == processed,
                forall|j: int| 0 <= j < processed ==> call_ensures(f, (&s0[j],), #[trigger] flags[j]),
                self@ == laws::mask(s0.take(processed), flags) + s0.skip(processed),
                self.slot_seq() == laws::mask(ord0.take(processed), flags) + ord0.skip(processed),
                cur == (if processed < s0.len() {
                    Some(ord0[processed])
                } else {
                    None::<usize>
                }),
                forall|t: &T| call_requires(f, (t,)),
            decreases s0.len() - processed,
        {
            let i = cur.unwrap();
            let ghost q = laws::mask(ord0.take(processed), flags).len() as int;
            proof {
                laws::lemma_mask_len(ord0.take(processed), flags);
                laws::lemma_mask_len(s0.take(processed), flags);
                assert(self.slot_seq()[q] == i);
                assert(self@[q] == s0[processed]);
                assert(self.slot_ok(i));
                assert(self.node_at(q).data == self@[q]);
            }
            let nd = node_ref(&self.nodes, i);
            let nxt: Option<usize> = nd.next;
            let keep_it = f(&nd.data);
            proof {
                assert(call_ensures(f, (&s0[processed],), keep_it));
                assert(nxt == (if q + 1 < self.slot_seq().len() {
                    Some(self.slot_seq()[q + 1])
                } else {
                    None::<usize>
                }));
                if processed + 1 < ord0.len() {
                    assert(self.slot_seq()[q + 1] == ord0[processed + 1]);
                } else {
                    assert(q + 1 == self.slot_seq().len());
                }
            }
            if keep_it {
                cur = nxt;
                proof {
                    laws::lemma_mask_snoc(s0.take(processed), flags, s0[processed], true);
                    laws::lemma_mask_snoc(ord0.take(processed), flags, ord0[processed], true);
                    assert(s0.take(processed + 1) =~= s0.take(processed).push(s0[processed]));
                    assert(ord0.take(processed + 1) =~= ord0.take(processed).push(ord0[processed]));
                    flags = flags.push(true);
                    processed = processed + 1;
                    assert(self@ =~= laws::mask(s0.take(processed), flags) + s0.skip(processed));
                    assert(self.slot_seq() =~= laws::mask(ord0.take(processed), flags) + ord0.skip(
                        processed,
                    ));
                }
            } else {
                let removed = self.remove_slot(i, Ghost(q));
                cur = nxt;
                proof {
                    laws::lemma_mask_snoc(s0.take(processed), flags, s0[processed], false);
                    laws::lemma_mask_snoc(ord0.take(processed), flags, ord0[processed], false);
                    assert(s0.take(processed + 1) =~= s0.take(processed).push(s0[processed]));
                    assert(ord0.take(processed + 1) =~= ord0.take(processed).push(ord0[processed]));
                    flags = flags.push(false);
                    processed = processed + 1;
                    assert(self@ =~= laws::mask(s0.take(processed), flags) + s0.skip(processed));
                    assert(self.slot_seq() =~= laws::mask(ord0.take(processed), flags) + ord0.skip(
                        processed,
                    ));
                }
            }
        }
        proof {
            assert(processed == s0.len());
            assert(s0.take(processed) =~= s0);
            assert(self@ =~= laws::mask(s0, flags));
            assert(laws::retained_by(f, s0, self@, flags));
        }
    }

    /// Removes every element, vacating the whole backing store at once.
    pub fn clear(&mut self)
        requires
            old(self).wf(),
        ensures
            final(self).wf(),
            final(self)@ == Seq::<T>::empty(),
    {
        self.nodes.clear();
        self.vacant.clear();
        self.head = None;
        self.tail = None;
        self.num_elements = 0;
        proof {
            self.order@ = Seq::empty();
            assert(self@ =~= Seq::<T>::empty());
        }
    }

    /// Returns the slot index of the node at the given chain position, or
    /// nothing when the position is out of range.  Walks forward from the
    /// head.
    pub(crate) fn get_ptr(&self, index: usize) -> (r: Option<usize>)
        requires
            self.wf(),
        ensures
            index < self@.len() ==> r == Some(self.slot_seq()[index as int]),
            index >= self@.len() ==> r is None,
    {
        if index >= self.num_elements {
            return None;
        }
        let mut cur: usize = match self.head {
            Some(h) => h,
            None => {
                return None;
            },
        };
        let mut k: usize = 0;
        while k < index
            invariant
                self.wf(),
                k <= index,
                index < self.slot_seq().len(),
                cur == self.slot_seq()[k as int],
            decreases index - k,
        {
            proof {
                assert(self.slot_ok(cur));
                assert(self.node_at(k as int).next == Some(self.slot_seq()[k + 1]));
            }
            let nd = node_ref(&self.nodes, cur);
            cur = nd.next.unwrap();
            k = k + 1;
        }
        Some(cur)
    }
}

impl<T> LinkedList<T> {
    /// The slot index the head handle designates, if any.
    pub open(crate) spec fn head_slot(self) -> Option<usize> {
        self.head
    }

    /// The slot index the tail handle designates, if any.
    pub open(crate) spec fn tail_slot(self) -> Option<usize> {
        self.tail
    }

    /// The forward link of the node in slot `i`.
    pub open(crate) spec fn link_next(self, i: usize) -> Option<usize> {
        self.node_in(i).next
    }

    /// The backward link of the node in slot `i`.
    pub open(crate) spec fn link_prev(self, i: usize) -> Option<usize> {
        self.node_in(i).prev
    }

    /// The element held by the node in slot `i`.
    pub open(crate) spec fn data_in(self, i: usize) -> T {
        self.node_in(i).data
    }

    /// The shape that well-formedness guarantees, stated over the chain of
    /// slot indices: the content is as long as the chain; no slot stands
    /// on the chain twice; every chain slot is occupied and holds the
    /// element at its position; each forward link leads to the next chain
    /// slot and each backward link returns to the previous one, with none
    /// at the two ends; and the head and tail handles designate the first
    /// and last chain slots, both absent exactly when the list is empty.
    pub proof fn lemma_structure(&self)
        requires
            self.wf(),
        ensures
            self@.len() == self.slot_seq().len(),
            self.slot_seq().no_duplicates(),
            forall|k: int|
                0 <= k < self.slot_seq().len() ==> self.slot_ok(#[trigger] self.slot_seq()[k]),
            forall|k: int|
                0 <= k < self.slot_seq().len() ==> self.data_in(#[trigger] self.slot_seq()[k])
                    == self@[k],
            forall|k: int|
                0 <= k < self.slot_seq().len() ==> self.link_next(#[trigger] self.slot_seq()[k])
                    == (if k + 1 < self.slot_seq().len() {
                    Some(self.slot_seq()[k + 1])
                } else {
                    None::<usize>
                }),
            forall|k: int|
                0 <= k < self.slot_seq().len() ==> self.link_prev(#[trigger] self.slot_seq()[k])
                    == (if k > 0 {
                    Some(self.slot_seq()[k - 1])
                } else {
                    None::<usize>
                }),
            self.head_slot() == (if self@.len() > 0 {
                Some(self.slot_seq()[0])
            } else {
                None::<usize>
            }),
            self.tail_slot() == (if self@.len() > 0 {
                Some(self.slot_seq()[self@.len() - 1])
            } else {
                None::<usize>
            }),
            self@.len() == 1 ==> self.head_slot() == self.tail_slot(),
    {
        assert forall|k: int|
            0 <= k < self.slot_seq().len() implies self.data_in(#[trigger] self.slot_seq()[k])
            == self@[k] by {
            assert(self.node_at(k) == self.node_in(self.slot_seq()[k]));
        }
        assert forall|k: int|
            0 <= k < self.slot_seq().len() implies self.link_next(#[trigger] self.slot_seq()[k])
            == (if k + 1 < self.slot_seq().len() {
            Some(self.slot_seq()[k + 1])
        } else {
            None::<usize>
        }) && self.link_prev(self.slot_seq()[k]) == (if k > 0 {
            Some(self.slot_seq()[k - 1])
        } else {
            None::<usize>
        }) by {
            assert(self.node_at(k) == self.node_in(self.slot_seq()[k]));
        }
    }

    /// Returns the slot index of the head node, or nothing when the list
    /// is empty.
    pub fn head_index(&self) -> (r: Option<usize>)
        requires
            self.wf(),
        ensures
            r == self.head_slot(),
            r is Some <==> self@.len() > 0,
    {
        self.head
    }

    /// Returns the slot index of the tail node, or nothing when the list
    /// is empty.
    pub fn tail_index(&self) -> (r: Option<usize>)
        requires
            self.wf(),
        ensures
            r == self.tail_slot(),
            r is Some <==> self@.len() > 0,
    {
        self.tail
    }

    /// Returns the forward link of the node in slot `i`.
    pub fn next_of(&self, i: usize) -> (r: Option<usize>)
        requires
            self.wf(),
            self.slot_ok(i),
        ensures
            r == self.link_next(i),
    {
        node_ref(&self.nodes, i).next
    }

    /// Returns the backward link of the node in slot `i`.
    pub fn prev_of(&self, i: usize) -> (r: Option<usize>)
        requires
            self.wf(),
            self.slot_ok(i),
        ensures
            r == self.link_prev(i),
    {
        node_ref(&self.nodes, i).prev
    }
}

impl<T: Clone> LinkedList<T> {
    /// Returns a copy of the element held by the node in slot `i`.
    pub fn data_at(&self, i: usize) -> (r: T)
        requires
            self.wf(),
            self.slot_ok(i),
        ensures
            cloned(self.data_in(i), r),
    {
        node_ref(&self.nodes, i).data.clone()
    }

    /// Returns a copy of the element at the given zero-based position, or
    /// nothing when the position is out of range.
    pub fn get(&self, index: usize) -> (r: Option<T>)
        requires
            self.wf(),
        ensures
            index < self@.len() ==> (r matches Some(v) && cloned(self@[index as int], v)),
            index >= self@.len() ==> r is None,
    {
        let ptr = self.get_ptr(index);
        match ptr {
            None => None,
            Some(i) => {
                proof {
                    assert(self.slot_ok(i));
                    assert(self.node_at(index as int).data == self@[index as int]);
                }
                let nd = node_ref(&self.nodes, i);
                Some(nd.data.clone())
            },
        }
    }
}

} // verus!
