//! Comparator-driven in-place sorting.
//!
//! The pass works purely by comparing adjacent elements and swapping their
//! data in place: no link is ever rewired, so the correctness of the
//! ordering is decoupled from the correctness of the pointer structure.
//! The comparator is an arbitrary function; its answers are only related to
//! an actual ordering through [`comparator_decides`], so the contract
//! promises a sorted result exactly for comparators that decide a total
//! order, while termination and structural soundness hold for every
//! comparator, consistent or not.
use core::cmp::Ordering;
use vstd::prelude::*;
use vstd::relations::{sorted_by, total_ordering};

use crate::LinkedList;

verus! {

/// The comparator `f` decides the order `leq`: whenever a call on `(x, y)`
/// can answer `o`, the answer is `Greater` exactly when `x` does not come
/// before-or-with `y` under `leq`.
pub open spec fn comparator_decides<T, F: Fn(&T, &T) -> Ordering>(
    f: F,
    leq: spec_fn(T, T) -> bool,
) -> bool {
    forall|x: T, y: T, o: Ordering|
        #[trigger] call_ensures(f, (&x, &y), o) ==> ((o == Ordering::Greater) <==> !leq(x, y))
}

/// `perm` witnesses that `after` is `before` rearranged, stably for the
/// comparator `f`: position `k` of `after` holds the element from position
/// `perm[k]` of `before`, and whenever two elements crossed (an earlier
/// element of `before` now follows a later one), the comparator was seen
/// to answer `Greater` for that pair.  Elements the comparator never
/// answers `Greater` about therefore keep their relative order.
pub open spec fn sort_permutation<T, F: Fn(&T, &T) -> Ordering>(
    f: F,
    before: Seq<T>,
    after: Seq<T>,
    perm: Seq<int>,
) -> bool {
    &&& perm.len() == before.len()
    &&& after.len() == before.len()
    &&& forall|k: int| 0 <= k < perm.len() ==> 0 <= #[trigger] perm[k] < before.len()
    &&& forall|a: int, b: int|
        #![trigger perm[a], perm[b]]
        0 <= a < b < perm.len() ==> perm[a] != perm[b]
    &&& forall|k: int| 0 <= k < perm.len() ==> after[k] == before[#[trigger] perm[k]]
    &&& forall|a: int, b: int|
        #![trigger perm[a], perm[b]]
        0 <= a < b < perm.len() && perm[a] > perm[b] ==> call_ensures(
            f,
            (&after[b], &after[a]),
            Ordering::Greater,
        )
}

/// Every element before position `m` comes no later than every element
/// from position `m` on, and the elements from `m` on are mutually in
/// order: the tail starting at `m` is settled in its final place.
pub open spec fn settled_from<T>(s: Seq<T>, m: int, leq: spec_fn(T, T) -> bool) -> bool {
    &&& forall|a: int, b: int| 0 <= a < m && m <= b < s.len() ==> #[trigger] leq(s[a], s[b])
    &&& forall|a: int, b: int| m <= a < b < s.len() ==> #[trigger] leq(s[a], s[b])
}

/// Position `j` holds an element that every earlier element precedes.
pub open spec fn prefix_peak<T>(s: Seq<T>, j: int, leq: spec_fn(T, T) -> bool) -> bool {
    forall|a: int| 0 <= a < j ==> #[trigger] leq(s[a], s[j])
}

/// Every adjacent pair before position `m` is in order.
pub open spec fn adjacent_ordered_to<T>(s: Seq<T>, m: int, leq: spec_fn(T, T) -> bool) -> bool {
    forall|a: int| 0 <= a && a + 1 < m ==> #[trigger] leq(s[a], s[a + 1])
}

/// A transitive order on adjacent pairs extends to all pairs of the
/// prefix.
proof fn lemma_adjacent_chain<T>(s: Seq<T>, m: int, leq: spec_fn(T, T) -> bool)
    requires
        vstd::relations::transitive(leq),
        0 <= m <= s.len(),
        adjacent_ordered_to(s, m, leq),
    ensures
        forall|a: int, b: int| 0 <= a < b < m ==> #[trigger] leq(s[a], s[b]),
    decreases m,
{
    if m >= 2 {
        lemma_adjacent_chain(s, m - 1, leq);
        let p = m - 2;
        assert(leq(s[p], s[p + 1]));
        assert forall|a: int| 0 <= a < m - 1 implies #[trigger] leq(s[a], s[m - 1]) by {
            assert(s[p + 1] == s[m - 1]);
            if a < p {
                assert(leq(s[a], s[p]));
                assert(leq(s[a], s[p + 1]));
            }
        }
    }
}

/// Sorts the list in place by repeated adjacent-element comparison and
/// data swap, until a whole pass makes no swap.
///
/// The result holds the same elements; and for every total order that the
/// comparator decides, the result is sorted by that order.  An
/// inconsistent comparator still leaves a well-formed list with the same
/// elements, and the pass bound makes termination unconditional.
pub fn bubble_sort<T, F: Fn(&T, &T) -> Ordering>(list: &mut LinkedList<T>, compare: F)
    requires
        old(list).wf(),
        forall|x: &T, y: &T| call_requires(compare, (x, y)),
    ensures
        final(list).wf(),
        final(list)@.len() == old(list)@.len(),
        final(list)@.to_multiset() == old(list)@.to_multiset(),
        exists|perm: Seq<int>| sort_permutation(compare, old(list)@, final(list)@, perm),
        forall|leq: spec_fn(T, T) -> bool|
            total_ordering(leq) && #[trigger] comparator_decides(compare, leq) ==> sorted_by(
                final(list)@,
                leq,
            ),
{
    let ghost s0 = old(list)@;
    let ghost mut perm: Seq<int> = Seq::new(s0.len(), |k: int| k);
    let n = list.len();
    proof {
        assert(sort_permutation(compare, s0, list@, perm));
    }
    if n < 2 {
        proof {
            assert(exists|p: Seq<int>| sort_permutation(compare, s0, list@, p));
            assert forall|leq: spec_fn(T, T) -> bool|
                total_ordering(leq) && #[trigger] comparator_decides(compare, leq) implies sorted_by(
                list@,
                leq,
            ) by {}
        }
        return ;
    }
    let mut limit: usize = n;
    let mut swapped: bool = true;
    while swapped && limit > 1
        invariant
            list.wf(),
            list@.len() == n,
            n == s0.len(),
            list@.to_multiset() == s0.to_multiset(),
            sort_permutation(compare, s0, list@, perm),
            1 <= limit <= n,
            forall|x: &T, y: &T| call_requires(compare, (x, y)),
            forall|leq: spec_fn(T, T) -> bool|
                total_ordering(leq) && #[trigger] comparator_decides(compare, leq) ==> settled_from(
                    list@,
                    limit as int,
                    leq,
                ),
            !swapped ==> (forall|leq: spec_fn(T, T) -> bool|
                total_ordering(leq) && #[trigger] comparator_decides(compare, leq) ==> sorted_by(
                    list@,
                    leq,
                )),
        decreases limit,
    {
        let mut swapped_this: bool = false;
        let mut cur: usize = list.head.unwrap();
        let mut j: usize = 0;
        while j + 1 < limit
            invariant
                list.wf(),
                list@.len() == n,
                n == s0.len(),
                list@.to_multiset() == s0.to_multiset(),
                sort_permutation(compare, s0, list@, perm),
                2 <= limit <= n,
                0 <= j < limit,
                cur == list.slot_seq()[j as int],
                forall|x: &T, y: &T| call_requires(compare, (x, y)),
                forall|leq: spec_fn(T, T) -> bool|
                    total_ordering(leq) && #[trigger] comparator_decides(compare, leq)
                        ==> settled_from(list@, limit as int, leq),
                forall|leq: spec_fn(T, T) -> bool|
                    total_ordering(leq) && #[trigger] comparator_decides(compare, leq)
                        ==> prefix_peak(list@, j as int, leq),
                !swapped_this ==> (forall|leq: spec_fn(T, T) -> bool|
                    total_ordering(leq) && #[trigger] comparator_decides(compare, leq)
                        ==> adjacent_ordered_to(list@, j as int + 1, leq)),
            decreases limit - j,
        {
            proof {
                assert(list.slot_ok(cur));
                assert(list.node_at(j as int).next == Some(list.slot_seq()[j as int + 1]));
            }
            let a_ref = crate::node_ref(&list.nodes, cur);
            let nxt = a_ref.next.unwrap();
            proof {
                assert(list.slot_ok(nxt));
                assert(list.node_at(j as int + 1) == list.node_in(nxt));
            }
            let b_ref = crate::node_ref(&list.nodes, nxt);
            let o = compare(&a_ref.data, &b_ref.data);
            let ghost s_pre = list@;
            proof {
                assert(a_ref.data == s_pre[j as int]);
                assert(b_ref.data == s_pre[j as int + 1]);
                assert(call_ensures(compare, (&s_pre[j as int], &s_pre[j as int + 1]), o));
            }
            let is_greater = match o {
                Ordering::Greater => true,
                _ => false,
            };
            if is_greater {
                list.swap_data_at(cur, nxt, Ghost(j as int), Ghost(j as int + 1));
                swapped_this = true;
                proof {
                    crate::laws::lemma_swap_keeps_multiset(s_pre, j as int, j as int + 1);
                    let jj = j as int;
                    let p0 = perm;
                    perm = perm.update(jj, p0[jj + 1]).update(jj + 1, p0[jj]);
                    assert forall|k: int| 0 <= k < perm.len() implies #[trigger] perm[k] == (if k
                        == jj {
                        p0[jj + 1]
                    } else if k == jj + 1 {
                        p0[jj]
                    } else {
                        p0[k]
                    }) by {}
                    assert forall|k: int| 0 <= k < list@.len() implies #[trigger] list@[k] == (if k
                        == jj {
                        s_pre[jj + 1]
                    } else if k == jj + 1 {
                        s_pre[jj]
                    } else {
                        s_pre[k]
                    }) by {}
                    assert forall|a: int, b: int|
                        0 <= a < b < perm.len() && perm[a] > perm[b] implies call_ensures(
                        compare,
                        (&list@[b], &list@[a]),
                        Ordering::Greater,
                    ) by {
                        if a == jj && b == jj + 1 {
                            assert(o == Ordering::Greater);
                            assert(call_ensures(compare, (&s_pre[jj], &s_pre[jj + 1]), o));
                            assert(list@[b] == s_pre[jj] && list@[a] == s_pre[jj + 1]);
                        } else if b == jj {
                            assert(p0[a] > p0[jj + 1]);
                            assert(call_ensures(
                                compare,
                                (&s_pre[jj + 1], &s_pre[a]),
                                Ordering::Greater,
                            ));
                            assert(list@[b] == s_pre[jj + 1] && list@[a] == s_pre[a]);
                        } else if b == jj + 1 {
                            assert(p0[a] > p0[jj]);
                            assert(call_ensures(compare, (&s_pre[jj], &s_pre[a]), Ordering::Greater));
                            assert(list@[b] == s_pre[jj] && list@[a] == s_pre[a]);
                        } else if a == jj {
                            assert(p0[jj + 1] > p0[b]);
                            assert(call_ensures(
                                compare,
                                (&s_pre[b], &s_pre[jj + 1]),
                                Ordering::Greater,
                            ));
                            assert(list@[b] == s_pre[b] && list@[a] == s_pre[jj + 1]);
                        } else if a == jj + 1 {
                            assert(p0[jj] > p0[b]);
                            assert(call_ensures(compare, (&s_pre[b], &s_pre[jj]), Ordering::Greater));
                            assert(list@[b] == s_pre[b] && list@[a] == s_pre[jj]);
                        } else {
                            assert(p0[a] > p0[b]);
                            assert(call_ensures(compare, (&s_pre[b], &s_pre[a]), Ordering::Greater));
                            assert(list@[b] == s_pre[b] && list@[a] == s_pre[a]);
                        }
                    }
                    assert forall|a: int, b: int|
                        0 <= a < b < perm.len() implies perm[a] != perm[b] by {
                        if a == jj && b == jj + 1 {
                            assert(p0[jj + 1] != p0[jj]);
                        } else if b == jj {
                            assert(p0[a] != p0[jj + 1]);
                        } else if b == jj + 1 {
                            assert(p0[a] != p0[jj]);
                        } else if a == jj {
                            assert(p0[jj + 1] != p0[b]);
                        } else if a == jj + 1 {
                            assert(p0[jj] != p0[b]);
                        } else {
                            assert(p0[a] != p0[b]);
                        }
                    }
                    assert(sort_permutation(compare, s0, list@, perm));
                    assert forall|leq: spec_fn(T, T) -> bool|
                        total_ordering(leq) && #[trigger] comparator_decides(compare, leq) implies {
                        &&& settled_from(list@, limit as int, leq)
                        &&& prefix_peak(list@, j as int + 1, leq)
                    } by {
                        assert(!leq(s_pre[j as int], s_pre[j as int + 1]));
                        assert(leq(s_pre[j as int + 1], s_pre[j as int]));
                        assert(settled_from(s_pre, limit as int, leq));
                        assert(prefix_peak(s_pre, j as int, leq));
                        assert forall|a: int, b: int|
                            0 <= a < limit as int && limit as int <= b < list@.len() implies #[trigger] leq(
                            list@[a],
                            list@[b],
                        ) by {
                            assert(list@[b] == s_pre[b]);
                            if a == j as int {
                                assert(list@[a] == s_pre[j as int + 1]);
                            } else if a == j as int + 1 {
                                assert(list@[a] == s_pre[j as int]);
                            } else {
                                assert(list@[a] == s_pre[a]);
                            }
                        }
                        assert forall|a: int, b: int|
                            limit as int <= a < b < list@.len() implies #[trigger] leq(
                            list@[a],
                            list@[b],
                        ) by {
                            assert(list@[a] == s_pre[a] && list@[b] == s_pre[b]);
                        }
                        assert forall|a: int| 0 <= a < j as int + 1 implies #[trigger] leq(
                            list@[a],
                            list@[j as int + 1],
                        ) by {
                            assert(list@[j as int + 1] == s_pre[j as int]);
                            if a < j as int {
                                assert(list@[a] == s_pre[a]);
                                assert(leq(s_pre[a], s_pre[j as int]));
                            } else {
                                assert(list@[a] == s_pre[j as int + 1]);
                            }
                        }
                    }
                }
            } else {
                proof {
                    assert(list@ == s_pre);
                    assert forall|leq: spec_fn(T, T) -> bool|
                        total_ordering(leq) && #[trigger] comparator_decides(compare, leq) implies {
                        &&& prefix_peak(list@, j as int + 1, leq)
                        &&& leq(list@[j as int], list@[j as int + 1])
                    } by {
                        assert(o != Ordering::Greater);
                        assert(leq(s_pre[j as int], s_pre[j as int + 1]));
                        assert(prefix_peak(s_pre, j as int, leq));
                        assert forall|a: int| 0 <= a < j as int + 1 implies #[trigger] leq(
                            list@[a],
                            list@[j as int + 1],
                        ) by {
                            if a < j as int {
                                assert(leq(s_pre[a], s_pre[j as int]));
                                assert(leq(s_pre[j as int], s_pre[j as int + 1]));
                            }
                        }
                    }
                }
            }
            cur = nxt;
            j = j + 1;
        }
        proof {
            assert(j as int == limit as int - 1);
            assert forall|leq: spec_fn(T, T) -> bool|
                total_ordering(leq) && #[trigger] comparator_decides(compare, leq) implies settled_from(
                list@,
                limit as int - 1,
                leq,
            ) by {
                assert(settled_from(list@, limit as int, leq));
                assert(prefix_peak(list@, limit as int - 1, leq));
                assert forall|a: int, b: int|
                    0 <= a < limit as int - 1 && limit as int - 1 <= b < list@.len() implies #[trigger] leq(
                    list@[a],
                    list@[b],
                ) by {
                    if b == limit as int - 1 {
                        assert(leq(list@[a], list@[limit as int - 1]));
                    }
                }
                assert forall|a: int, b: int|
                    limit as int - 1 <= a < b < list@.len() implies #[trigger] leq(
                    list@[a],
                    list@[b],
                ) by {
                    if a == limit as int - 1 {
                        assert(leq(list@[a], list@[b]));
                    }
                }
            }
            if !swapped_this {
                assert forall|leq: spec_fn(T, T) -> bool|
                    total_ordering(leq) && #[trigger] comparator_decides(compare, leq) implies sorted_by(
                    list@,
                    leq,
                ) by {
                    lemma_adjacent_chain(list@, limit as int, leq);
                    assert forall|a: int, b: int| 0 <= a < b < list@.len() implies #[trigger] leq(
                        list@[a],
                        list@[b],
                    ) by {
                        if b < limit as int {
                        } else if a < limit as int {
                            assert(settled_from(list@, limit as int, leq));
                        }
                    }
                }
            }
        }
        swapped = swapped_this;
        limit = limit - 1;
    }
    proof {
        assert(exists|p: Seq<int>| sort_permutation(compare, s0, list@, p));
        assert forall|leq: spec_fn(T, T) -> bool|
            total_ordering(leq) && #[trigger] comparator_decides(compare, leq) implies sorted_by(
            list@,
            leq,
        ) by {
            if swapped {
                assert(limit == 1);
                assert(settled_from(list@, 1, leq));
                assert forall|a: int, b: int| 0 <= a < b < list@.len() implies #[trigger] leq(
                    list@[a],
                    list@[b],
                ) by {
                    if a >= 1 {
                        assert(leq(list@[a], list@[b]));
                    }
                }
            }
        }
    }
}

impl<T> LinkedList<T> {
    /// Sorts the list with a comparator function.
    ///
    /// The comparator should decide a total order over the elements; the
    /// contract then promises the elements rearranged into that order.  If
    /// the comparator is inconsistent (it decides no total order), the
    /// final arrangement is unspecified, but the operation still
    /// terminates, keeps every element, and preserves the structural
    /// invariants.
    pub fn sort<F: Fn(&T, &T) -> Ordering>(&mut self, compare: F)
        requires
            old(self).wf(),
            forall|x: &T, y: &T| call_requires(compare, (x, y)),
        ensures
            final(self).wf(),
            final(self)@.len() == old(self)@.len(),
            final(self)@.to_multiset() == old(self)@.to_multiset(),
            exists|perm: Seq<int>| sort_permutation(compare, old(self)@, final(self)@, perm),
            forall|leq: spec_fn(T, T) -> bool|
                total_ordering(leq) && #[trigger] comparator_decides(compare, leq) ==> sorted_by(
                    final(self)@,
                    leq,
                ),
    {
        bubble_sort(self, compare)
    }
}

} // verus!
