//! Sequence-level facts about the list's operations.
//!
//! The specifications of the container are stated over plain sequences; the
//! definitions and proof functions here spell out what those statements
//! entail: how flag-selection behaves, that it keeps relative order, and how
//! runs of pushes and pops act on the abstract content.
use vstd::prelude::*;

verus! {

/// The subsequence of `s` selected by the `keep` flags, in order.
pub open spec fn mask<A>(s: Seq<A>, keep: Seq<bool>) -> Seq<A>
    decreases s.len(),
{
    if s.len() == 0 {
        Seq::empty()
    } else {
        let rest = mask(s.drop_first(), keep.drop_first());
        if keep[0] {
            seq![s[0]] + rest
        } else {
            rest
        }
    }
}

/// How many flags are set.
pub open spec fn count_true(keep: Seq<bool>) -> int
    decreases keep.len(),
{
    if keep.len() == 0 {
        0
    } else {
        (if keep[0] {
            1int
        } else {
            0int
        }) + count_true(keep.drop_first())
    }
}

/// What `retain` leaves behind: `after` is `before` restricted by the flags
/// in `keep`, and each flag is an answer the predicate can give for the
/// element at its position.
pub open spec fn retained_by<T, F: Fn(&T) -> bool>(
    f: F,
    before: Seq<T>,
    after: Seq<T>,
    keep: Seq<bool>,
) -> bool {
    &&& keep.len() == before.len()
    &&& after == mask(before, keep)
    &&& forall|k: int| 0 <= k < keep.len() ==> call_ensures(f, (&before[k],), #[trigger] keep[k])
}

/// Selecting from a sequence extended by one element selects from the
/// prefix and then takes or drops the new element.
pub proof fn lemma_mask_snoc<A>(s: Seq<A>, keep: Seq<bool>, x: A, b: bool)
    requires
        s.len() == keep.len(),
    ensures
        mask(s.push(x), keep.push(b)) == mask(s, keep) + (if b {
            seq![x]
        } else {
            Seq::<A>::empty()
        }),
    decreases s.len(),
{
    if s.len() == 0 {
        let e = Seq::<A>::empty();
        assert(s.push(x)[0] == x);
        assert(s.push(x).drop_first() =~= e);
        assert(keep.push(b)[0] == b);
        assert(mask(e, keep.push(b).drop_first()) == e);
        assert(mask(s.push(x), keep.push(b)) == (if b {
            seq![x] + e
        } else {
            e
        }));
        assert(seq![x] + e =~= seq![x]);
        assert(mask(s, keep) == e);
        assert(mask(s, keep) + seq![x] =~= seq![x]);
        assert(mask(s, keep) + e =~= e);
    } else {
        assert(s.push(x).drop_first() =~= s.drop_first().push(x));
        assert(keep.push(b).drop_first() =~= keep.drop_first().push(b));
        lemma_mask_snoc(s.drop_first(), keep.drop_first(), x, b);
        assert(s.push(x)[0] == s[0]);
        assert(keep.push(b)[0] == keep[0]);
        if keep[0] {
            assert(mask(s.push(x), keep.push(b)) =~= mask(s, keep) + (if b {
                seq![x]
            } else {
                Seq::<A>::empty()
            }));
        } else {
            assert(mask(s.push(x), keep.push(b)) =~= mask(s, keep) + (if b {
                seq![x]
            } else {
                Seq::<A>::empty()
            }));
        }
    }
}

/// Selection shortens a sequence by exactly the number of cleared flags:
/// the result's length is the number of set flags.
pub proof fn lemma_mask_len<A>(s: Seq<A>, keep: Seq<bool>)
    requires
        s.len() == keep.len(),
    ensures
        mask(s, keep).len() == count_true(keep),
        0 <= count_true(keep) <= keep.len(),
    decreases s.len(),
{
    if s.len() > 0 {
        lemma_mask_len(s.drop_first(), keep.drop_first());
    }
}

/// Exchanging two elements of a sequence leaves its multiset of elements
/// unchanged.
pub proof fn lemma_swap_keeps_multiset<A>(s: Seq<A>, i: int, j: int)
    requires
        0 <= i < s.len(),
        0 <= j < s.len(),
        i != j,
    ensures
        s.update(i, s[j]).update(j, s[i]).to_multiset() == s.to_multiset(),
{
    broadcast use vstd::seq_lib::group_to_multiset_ensures;

    let s1 = s.update(i, s[j]);
    assert(s.contains(s[i]));
    assert(s.to_multiset().count(s[i]) > 0);
    assert(s1.to_multiset() == s.to_multiset().insert(s[j]).remove(s[i]));
    assert(s1[j] == s[j]);
    assert(s1.update(j, s[i]).to_multiset() == s1.to_multiset().insert(s[i]).remove(s1[j]));
    assert(s.to_multiset().insert(s[j]).remove(s[i]).insert(s[i]).remove(s[j])
        =~= s.to_multiset());
}

/// The positions `pos` witness that `sub` appears inside `s` in order.
pub open spec fn picks_in_order<A>(s: Seq<A>, sub: Seq<A>, pos: Seq<int>) -> bool {
    &&& pos.len() == sub.len()
    &&& forall|a: int, b: int| 0 <= a < b < pos.len() ==> pos[a] < pos[b]
    &&& forall|j: int| 0 <= j < pos.len() ==> 0 <= #[trigger] pos[j] < s.len()
    &&& forall|j: int| 0 <= j < pos.len() ==> sub[j] == s[#[trigger] pos[j]]
}

/// Selection keeps relative order: the selected elements appear in the
/// result exactly at an increasing run of source positions, and those are
/// the positions whose flag is set.
pub proof fn lemma_mask_picks_in_order<A>(s: Seq<A>, keep: Seq<bool>) -> (pos: Seq<int>)
    requires
        s.len() == keep.len(),
    ensures
        picks_in_order(s, mask(s, keep), pos),
        forall|j: int| 0 <= j < pos.len() ==> keep[#[trigger] pos[j]],
    decreases s.len(),
{
    if s.len() == 0 {
        Seq::empty()
    } else {
        let rest = lemma_mask_picks_in_order(s.drop_first(), keep.drop_first());
        let shifted = rest.map_values(|p: int| p + 1);
        assert forall|j: int| 0 <= j < shifted.len() implies s[#[trigger] shifted[j]] == s.drop_first()[rest[j]]
            && keep[shifted[j]] == keep.drop_first()[rest[j]] by {
        }
        if keep[0] {
            let pos = seq![0int] + shifted;
            assert(mask(s, keep) =~= seq![s[0]] + mask(s.drop_first(), keep.drop_first()));
            assert forall|j: int| 0 <= j < pos.len() implies mask(s, keep)[j] == s[#[trigger] pos[j]] by {
                if j > 0 {
                    assert(pos[j] == rest[j - 1] + 1);
                }
            }
            pos
        } else {
            assert forall|j: int| 0 <= j < shifted.len() implies mask(s, keep)[j] == s[#[trigger] shifted[j]] by {
                assert(shifted[j] == rest[j] + 1);
            }
            shifted
        }
    }
}

/// One operation at the ends of the list, as the container's contracts
/// describe it: pushing at either end, or popping at either end.
pub enum EndOp<T> {
    PushFront(T),
    PushBack(T),
    PopFront,
    PopBack,
}

/// The abstract effect of one end operation on the content.  This is
/// exactly what the contracts of `push_front`, `push_back`, `pop_front`
/// and `pop_back` state: a push adds its value at its end, a pop on a
/// non-empty content removes its end, and a pop on the empty content
/// changes nothing.
pub open spec fn apply_end_op<T>(s: Seq<T>, op: EndOp<T>) -> Seq<T> {
    match op {
        EndOp::PushFront(v) => seq![v] + s,
        EndOp::PushBack(v) => s.push(v),
        EndOp::PopFront => if s.len() == 0 {
            s
        } else {
            s.drop_first()
        },
        EndOp::PopBack => if s.len() == 0 {
            s
        } else {
            s.drop_last()
        },
    }
}

/// The abstract effect of a run of end operations, applied left to right.
pub open spec fn apply_end_ops<T>(s: Seq<T>, ops: Seq<EndOp<T>>) -> Seq<T>
    decreases ops.len(),
{
    if ops.len() == 0 {
        s
    } else {
        apply_end_ops(apply_end_op(s, ops[0]), ops.drop_first())
    }
}

/// How many operations of the run push a value.
pub open spec fn count_pushes<T>(ops: Seq<EndOp<T>>) -> int
    decreases ops.len(),
{
    if ops.len() == 0 {
        0
    } else {
        (match ops[0] {
            EndOp::PushFront(_) => 1int,
            EndOp::PushBack(_) => 1int,
            _ => 0int,
        }) + count_pushes(ops.drop_first())
    }
}

/// How many pops of the run succeed when it starts from `s`: a pop
/// succeeds exactly when the content it acts on is non-empty.
pub open spec fn count_successful_pops<T>(s: Seq<T>, ops: Seq<EndOp<T>>) -> int
    decreases ops.len(),
{
    if ops.len() == 0 {
        0
    } else {
        (match ops[0] {
            EndOp::PopFront => if s.len() > 0 {
                1int
            } else {
                0int
            },
            EndOp::PopBack => if s.len() > 0 {
                1int
            } else {
                0int
            },
            _ => 0int,
        }) + count_successful_pops(apply_end_op(s, ops[0]), ops.drop_first())
    }
}

/// After any run of end operations, the length is the starting length
/// plus the pushes minus the successful pops; in particular a pop on the
/// empty content leaves it untouched at every point of the run.
pub proof fn lemma_len_after_end_ops<T>(s: Seq<T>, ops: Seq<EndOp<T>>)
    ensures
        apply_end_ops(s, ops).len() == s.len() + count_pushes(ops) - count_successful_pops(s, ops),
    decreases ops.len(),
{
    if ops.len() > 0 {
        lemma_len_after_end_ops(apply_end_op(s, ops[0]), ops.drop_first());
    }
}

/// The content after pushing each value of `vs` at the head in turn.
pub open spec fn pushed_front_all<T>(s: Seq<T>, vs: Seq<T>) -> Seq<T>
    decreases vs.len(),
{
    if vs.len() == 0 {
        s
    } else {
        pushed_front_all(seq![vs[0]] + s, vs.drop_first())
    }
}

/// The content after pushing each value of `vs` at the tail in turn.
pub open spec fn pushed_back_all<T>(s: Seq<T>, vs: Seq<T>) -> Seq<T>
    decreases vs.len(),
{
    if vs.len() == 0 {
        s
    } else {
        pushed_back_all(s.push(vs[0]), vs.drop_first())
    }
}

/// Pushing a run of values at the head lays it down reversed before the
/// old content, so popping at the head afterwards yields the run last
/// value first.
pub proof fn lemma_pushed_front_all_reverses<T>(s: Seq<T>, vs: Seq<T>)
    ensures
        pushed_front_all(s, vs) == vs.reverse() + s,
    decreases vs.len(),
{
    if vs.len() == 0 {
        assert(vs.reverse() + s =~= s);
    } else {
        lemma_pushed_front_all_reverses(seq![vs[0]] + s, vs.drop_first());
        assert(vs.reverse() =~= vs.drop_first().reverse() + seq![vs[0]]);
        assert(vs.drop_first().reverse() + (seq![vs[0]] + s) =~= vs.reverse() + s);
    }
}

/// Pushing a run of values at the tail appends it after the old content,
/// so popping at the head afterwards yields the run in its own order.
pub proof fn lemma_pushed_back_all_appends<T>(s: Seq<T>, vs: Seq<T>)
    ensures
        pushed_back_all(s, vs) == s + vs,
    decreases vs.len(),
{
    if vs.len() == 0 {
        assert(s + vs =~= s);
    } else {
        lemma_pushed_back_all_appends(s.push(vs[0]), vs.drop_first());
        assert(s.push(vs[0]) + vs.drop_first() =~= s + vs);
    }
}

/// Pushing a value at the head of the empty content and popping at the
/// tail rounds the value through a single-element list and back: the pop
/// returns that very value and leaves the content empty again.
pub proof fn lemma_single_round_trip<T>(v: T)
    ensures
        apply_end_op(apply_end_op(Seq::<T>::empty(), EndOp::PushFront(v)), EndOp::PopBack)
            == Seq::<T>::empty(),
        (seq![v] + Seq::<T>::empty()).last() == v,
{
    let one = seq![v] + Seq::<T>::empty();
    assert(one =~= seq![v]);
    assert(one.drop_last() =~= Seq::<T>::empty());
}

/// What `retain` reports entails the announced shape: the result is
/// exactly as long as the number of kept flags, and its elements are the
/// flagged elements of the input in their original relative order, at an
/// increasing run of source positions.
pub proof fn lemma_retained_shape<T, F: Fn(&T) -> bool>(
    f: F,
    before: Seq<T>,
    after: Seq<T>,
    keep: Seq<bool>,
) -> (pos: Seq<int>)
    requires
        retained_by(f, before, after, keep),
    ensures
        after.len() == count_true(keep),
        before.len() - after.len() == keep.len() - count_true(keep),
        picks_in_order(before, after, pos),
        forall|j: int| 0 <= j < pos.len() ==> keep[#[trigger] pos[j]],
{
    lemma_mask_len(before, keep);
    lemma_mask_picks_in_order(before, keep)
}

} // verus!
