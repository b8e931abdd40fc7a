//! Merge sort: split, sort the halves into buffers of their own, merge.

use vstd::prelude::*;
use vstd::relations::{sorted_by, transitive};
use vstd::seq_lib::{group_to_multiset_ensures, lemma_multiset_commutative};
use crate::order::{
    answers_all, decides, keeps_ties, lemma_orders_rearranged, lemma_orders_within,
    lemma_stable_sorted_unique, not_after, orders, strict_weak_order, tied_with,
};
use crate::sequences::{lemma_filtered_from, lemma_rearranged_length};
use crate::slots::wrap_all;
use crate::sorter::CompareSorter;

verus! {

/// Sorts the borrowed sequence by merging: O(n log n) comparisons, O(n)
/// auxiliary space, and ties stay in their input order.
pub struct MergeSorter<'a, S>(pub &'a mut S);

/// The elements that a run of filled slots holds.
pub open spec fn contents<T>(slots: Seq<Option<T>>) -> Seq<T> {
    slots.map_values(|slot: Option<T>| slot->Some_0)
}

/// What is known while two sorted runs are being merged: `out` holds the
/// first `i` entries of `left` and the first `j` of `right`, sorted, before
/// everything that is still to come, and with ties in the order "left run
/// first".
spec fn merging<T>(
    rel: spec_fn(T, T) -> bool,
    left: Seq<T>,
    right: Seq<T>,
    i: int,
    j: int,
    out: Seq<T>,
) -> bool {
    &&& 0 <= i <= left.len()
    &&& 0 <= j <= right.len()
    &&& sorted_by(out, rel)
    &&& forall|k: int, m: int|
        0 <= k < out.len() && i <= m < left.len() ==> rel(#[trigger] out[k], #[trigger] left[m])
    &&& forall|k: int, m: int|
        0 <= k < out.len() && j <= m < right.len() ==> rel(#[trigger] out[k], #[trigger] right[m])
    &&& forall|m: int, n: int|
        i <= m < left.len() && 0 <= n < j ==> !rel(#[trigger] left[m], #[trigger] right[n])
    &&& forall|x: T| #[trigger]
        out.filter(tied_with(rel, x)) == left.take(i).filter(tied_with(rel, x)) + right.take(
            j,
        ).filter(tied_with(rel, x))
}

/// The two runs are sorted and `rel` orders their entries.
pub open spec fn mergeable<T>(rel: spec_fn(T, T) -> bool, left: Seq<T>, right: Seq<T>) -> bool {
    &&& orders(rel, left + right)
    &&& sorted_by(left, rel)
    &&& sorted_by(right, rel)
}

proof fn lemma_merging_starts<T>(rel: spec_fn(T, T) -> bool, left: Seq<T>, right: Seq<T>)
    ensures
        merging(rel, left, right, 0, 0, Seq::<T>::empty()),
{
    reveal(Seq::filter);
    assert forall|x: T| #[trigger]
        Seq::<T>::empty().filter(tied_with(rel, x)) == left.take(0).filter(tied_with(rel, x))
            + right.take(0).filter(tied_with(rel, x)) by {
        assert(left.take(0) =~= Seq::<T>::empty());
        assert(right.take(0) =~= Seq::<T>::empty());
        assert(Seq::<T>::empty().filter(tied_with(rel, x)) =~= Seq::<T>::empty());
    }
}

proof fn lemma_take_left<T>(
    rel: spec_fn(T, T) -> bool,
    left: Seq<T>,
    right: Seq<T>,
    i: int,
    j: int,
    out: Seq<T>,
)
    requires
        mergeable(rel, left, right),
        merging(rel, left, right, i, j, out),
        i < left.len(),
        j < right.len(),
        rel(left[i], right[j]),
    ensures
        merging(rel, left, right, i + 1, j, out.push(left[i])),
{
    broadcast use Seq::lemma_filter_push;

    let e = left[i];
    let grown = out.push(e);
    assert forall|a: int, b: int| 0 <= a < b < grown.len() implies #[trigger] rel(
        grown[a],
        grown[b],
    ) by {
        if b < out.len() {
            assert(grown[a] == out[a] && grown[b] == out[b]);
        } else {
            assert(rel(out[a], left[i]));
        }
    }
    assert forall|k: int, m: int| 0 <= k < grown.len() && i + 1 <= m < left.len() implies rel(
        #[trigger] grown[k],
        #[trigger] left[m],
    ) by {
        if k < out.len() {
            assert(rel(out[k], left[m]));
        } else {
            assert(rel(left[i], left[m]));
        }
    }
    assert forall|k: int, m: int| 0 <= k < grown.len() && j <= m < right.len() implies rel(
        #[trigger] grown[k],
        #[trigger] right[m],
    ) by {
        if k < out.len() {
            assert(rel(out[k], right[m]));
        } else if m > j {
            assert(rel(right[j], right[m]));
        }
    }
    assert forall|x: T| #[trigger]
        grown.filter(tied_with(rel, x)) == left.take(i + 1).filter(tied_with(rel, x))
            + right.take(j).filter(tied_with(rel, x)) by {
        let pred = tied_with(rel, x);
        assert(left.take(i + 1) =~= left.take(i).push(e));
        assert(out.filter(pred) == left.take(i).filter(pred) + right.take(j).filter(pred));
        if pred(e) {
            let taken = right.take(j);
            assert(taken.all(|y: T| !pred(y))) by {
                assert forall|n: int| 0 <= n < taken.len() implies !pred(#[trigger] taken[n]) by {
                    if pred(taken[n]) {
                        assert(rel(e, x) && rel(x, right[n]));
                        assert(!rel(left[i], right[n]));
                    }
                }
            }
            taken.lemma_all_neg_filter_empty(pred);
            assert(taken.filter(pred) =~= Seq::<T>::empty());
            assert(grown.filter(pred) =~= left.take(i + 1).filter(pred) + taken.filter(pred));
        }
    }
}

proof fn lemma_take_right<T>(
    rel: spec_fn(T, T) -> bool,
    left: Seq<T>,
    right: Seq<T>,
    i: int,
    j: int,
    out: Seq<T>,
)
    requires
        mergeable(rel, left, right),
        merging(rel, left, right, i, j, out),
        i < left.len(),
        j < right.len(),
        !rel(left[i], right[j]),
    ensures
        merging(rel, left, right, i, j + 1, out.push(right[j])),
{
    broadcast use Seq::lemma_filter_push;

    let e = right[j];
    let grown = out.push(e);
    let both = left + right;
    assert(both[i] == left[i] && both[left.len() + j] == right[j]);
    assert(rel(right[j], left[i]));
    assert forall|a: int, b: int| 0 <= a < b < grown.len() implies #[trigger] rel(
        grown[a],
        grown[b],
    ) by {
        if b < out.len() {
            assert(grown[a] == out[a] && grown[b] == out[b]);
        } else {
            assert(rel(out[a], right[j]));
        }
    }
    assert forall|k: int, m: int| 0 <= k < grown.len() && i <= m < left.len() implies rel(
        #[trigger] grown[k],
        #[trigger] left[m],
    ) by {
        if k < out.len() {
            assert(rel(out[k], left[m]));
        } else if m > i {
            assert(rel(left[i], left[m]));
        }
    }
    assert forall|k: int, m: int| 0 <= k < grown.len() && j + 1 <= m < right.len() implies rel(
        #[trigger] grown[k],
        #[trigger] right[m],
    ) by {
        if k < out.len() {
            assert(rel(out[k], right[m]));
        } else {
            assert(rel(right[j], right[m]));
        }
    }
    assert forall|m: int, n: int| i <= m < left.len() && 0 <= n < j + 1 implies !rel(
        #[trigger] left[m],
        #[trigger] right[n],
    ) by {
        if n == j && m > i && rel(left[m], right[n]) {
            assert(rel(left[i], left[m]));
        }
    }
    assert forall|x: T| #[trigger]
        grown.filter(tied_with(rel, x)) == left.take(i).filter(tied_with(rel, x)) + right.take(
            j + 1,
        ).filter(tied_with(rel, x)) by {
        let pred = tied_with(rel, x);
        assert(right.take(j + 1) =~= right.take(j).push(e));
        assert(out.filter(pred) == left.take(i).filter(pred) + right.take(j).filter(pred));
        assert(grown.filter(pred) =~= left.take(i).filter(pred) + right.take(j + 1).filter(pred));
    }
}

proof fn lemma_merging_ends<T>(
    rel: spec_fn(T, T) -> bool,
    left: Seq<T>,
    right: Seq<T>,
    i: int,
    j: int,
    out: Seq<T>,
)
    requires
        mergeable(rel, left, right),
        merging(rel, left, right, i, j, out),
        i == left.len() || j == right.len(),
    ensures
        sorted_by(out + left.skip(i) + right.skip(j), rel),
        keeps_ties(rel, left + right, out + left.skip(i) + right.skip(j)),
{
    broadcast use Seq::filter_distributes_over_add;

    let rest_left = left.skip(i);
    let rest_right = right.skip(j);
    let all = out + rest_left + rest_right;
    assert forall|a: int, b: int| 0 <= a < b < all.len() implies #[trigger] rel(all[a], all[b]) by {
        if b < out.len() {
            assert(all[a] == out[a] && all[b] == out[b]);
        } else if i < left.len() {
            assert(rest_right.len() == 0);
            assert(all[b] == left[i + (b - out.len())]);
            if a < out.len() {
                assert(all[a] == out[a]);
            } else {
                assert(all[a] == left[i + (a - out.len())]);
            }
        } else {
            assert(rest_left.len() == 0);
            assert(all[b] == right[j + (b - out.len())]);
            if a < out.len() {
                assert(all[a] == out[a]);
            } else {
                assert(all[a] == right[j + (a - out.len())]);
            }
        }
    }
    assert forall|x: T| #[trigger]
        all.filter(tied_with(rel, x)) == (left + right).filter(tied_with(rel, x)) by {
        let pred = tied_with(rel, x);
        assert(left =~= left.take(i) + rest_left);
        assert(right =~= right.take(j) + rest_right);
        assert(out.filter(pred) == left.take(i).filter(pred) + right.take(j).filter(pred));
        assert(left.filter(pred) == left.take(i).filter(pred) + rest_left.filter(pred));
        assert(right.filter(pred) == right.take(j).filter(pred) + rest_right.filter(pred));
        if i < left.len() {
            assert(rest_right =~= Seq::<T>::empty());
            assert(right.take(j) =~= right);
            if rest_left.filter(pred).len() > 0 && right.filter(pred).len() > 0 {
                rest_left.lemma_filter_pred(pred, 0);
                right.lemma_filter_pred(pred, 0);
                let a = rest_left.filter(pred)[0];
                let b = right.filter(pred)[0];
                assert(rest_left.filter(pred).contains(a));
                assert(right.filter(pred).contains(b));
                lemma_filtered_from(rest_left, pred, a);
                lemma_filtered_from(right, pred, b);
                let m = choose|m: int| 0 <= m < rest_left.len() && rest_left[m] == a;
                let n = choose|n: int| 0 <= n < right.len() && right[n] == b;
                assert(rel(a, x) && rel(x, b));
                assert(!rel(left[i + m], right[n]));
            }
            if rest_left.filter(pred).len() == 0 {
                assert(rest_left.filter(pred) =~= Seq::<T>::empty());
            } else {
                assert(right.filter(pred) =~= Seq::<T>::empty());
            }
            assert(all.filter(pred) =~= left.filter(pred) + right.filter(pred));
        } else {
            assert(rest_left =~= Seq::<T>::empty());
            assert(left.take(i) =~= left);
            assert(all =~= out + rest_right);
            assert(all.filter(pred) =~= left.filter(pred) + right.filter(pred));
        }
    }
}

/// What is known of the order while two runs sorted by `rel` are being
/// merged: `out` is sorted, and stands before everything still to come.
spec fn merging_in_order<T>(
    rel: spec_fn(T, T) -> bool,
    left: Seq<T>,
    right: Seq<T>,
    i: int,
    j: int,
    out: Seq<T>,
) -> bool {
    &&& 0 <= i <= left.len()
    &&& 0 <= j <= right.len()
    &&& sorted_by(out, rel)
    &&& forall|k: int, m: int|
        0 <= k < out.len() && i <= m < left.len() ==> rel(#[trigger] out[k], #[trigger] left[m])
    &&& forall|k: int, m: int|
        0 <= k < out.len() && j <= m < right.len() ==> rel(#[trigger] out[k], #[trigger] right[m])
}

/// Taking the front that may stand before the other front keeps the order.
proof fn lemma_take_in_order<T>(
    rel: spec_fn(T, T) -> bool,
    left: Seq<T>,
    right: Seq<T>,
    i: int,
    j: int,
    out: Seq<T>,
    from_left: bool,
)
    requires
        transitive(rel),
        sorted_by(left, rel),
        sorted_by(right, rel),
        merging_in_order(rel, left, right, i, j, out),
        i < left.len(),
        j < right.len(),
        from_left ==> rel(left[i], right[j]),
        !from_left ==> rel(right[j], left[i]),
    ensures
        from_left ==> merging_in_order(rel, left, right, i + 1, j, out.push(left[i])),
        !from_left ==> merging_in_order(rel, left, right, i, j + 1, out.push(right[j])),
{
    let e = if from_left {
        left[i]
    } else {
        right[j]
    };
    let grown = out.push(e);
    assert forall|a: int, b: int| 0 <= a < b < grown.len() implies #[trigger] rel(
        grown[a],
        grown[b],
    ) by {
        if b < out.len() {
            assert(grown[a] == out[a] && grown[b] == out[b]);
        } else {
            assert(rel(out[a], left[i]) && rel(out[a], right[j]));
        }
    }
    assert forall|k: int, m: int|
        0 <= k < grown.len() && (if from_left { i + 1 } else { i }) <= m < left.len() implies rel(
        #[trigger] grown[k],
        #[trigger] left[m],
    ) by {
        if k < out.len() {
            assert(rel(out[k], left[m]));
        } else if m > i {
            assert(rel(left[i], left[m]));
        }
    }
    assert forall|k: int, m: int|
        0 <= k < grown.len() && (if from_left { j } else { j + 1 }) <= m < right.len() implies rel(
        #[trigger] grown[k],
        #[trigger] right[m],
    ) by {
        if k < out.len() {
            assert(rel(out[k], right[m]));
        } else if m > j {
            assert(rel(right[j], right[m]));
        }
    }
}

/// With one run used up, what is left of the other follows in order.
proof fn lemma_in_order_ends<T>(
    rel: spec_fn(T, T) -> bool,
    left: Seq<T>,
    right: Seq<T>,
    i: int,
    j: int,
    out: Seq<T>,
)
    requires
        sorted_by(left, rel),
        sorted_by(right, rel),
        merging_in_order(rel, left, right, i, j, out),
        i == left.len() || j == right.len(),
    ensures
        sorted_by(out + left.skip(i) + right.skip(j), rel),
{
    let all = out + left.skip(i) + right.skip(j);
    assert forall|a: int, b: int| 0 <= a < b < all.len() implies #[trigger] rel(all[a], all[b]) by {
        if b < out.len() {
            assert(all[a] == out[a] && all[b] == out[b]);
        } else if i < left.len() {
            assert(all[b] == left[i + (b - out.len())]);
            if a < out.len() {
                assert(all[a] == out[a]);
            } else {
                assert(all[a] == left[i + (a - out.len())]);
            }
        } else {
            assert(all[b] == right[j + (b - out.len())]);
            if a < out.len() {
                assert(all[a] == out[a]);
            } else {
                assert(all[a] == right[j + (a - out.len())]);
            }
        }
    }
}

/// Merges two runs into one. Whenever `compare(l, r)` holds of the two
/// fronts, or the right run is used up, the left front goes first.
pub fn merge<T, F: Fn(&T, &T) -> bool>(left: Vec<T>, right: Vec<T>, compare: &F) -> (out: Vec<T>)
    requires
        answers_all(*compare),
    ensures
        out@.to_multiset() == (left@ + right@).to_multiset(),
        forall|rel: spec_fn(T, T) -> bool|
            #[trigger] decides(*compare, rel) && mergeable(rel, left@, right@) ==> sorted_by(
                out@,
                rel,
            ) && keeps_ties(rel, left@ + right@, out@),
        forall|rel: spec_fn(T, T) -> bool|
            #[trigger] decides(*compare, rel) && strict_weak_order(rel) && sorted_by(
                left@,
                not_after(rel),
            ) && sorted_by(right@, not_after(rel)) ==> sorted_by(out@, not_after(rel)),
{
    let left_length: usize = left.len();
    let right_length: usize = right.len();
    let mut out: Vec<T> = match left_length.checked_add(right_length) {
        Some(total) => Vec::with_capacity(total),
        None => Vec::new(),
    };
    let mut left_slots = wrap_all(left);
    let mut right_slots = wrap_all(right);
    let mut i: usize = 0;
    let mut j: usize = 0;
    proof {
        assert forall|rel: spec_fn(T, T) -> bool| #[trigger]
            decides(*compare, rel) && mergeable(rel, left@, right@) implies merging(
            rel,
            left@,
            right@,
            0,
            0,
            out@,
        ) by {
            lemma_merging_starts(rel, left@, right@);
        }
        assert(left@.take(0) + right@.take(0) =~= Seq::<T>::empty());
    }
    assert(forall|rel: spec_fn(T, T) -> bool|
        #[trigger] merging_in_order(rel, left@, right@, 0, 0, out@));
    while i < left_length && j < right_length
        invariant
            answers_all(*compare),
            left_length == left@.len(),
            right_length == right@.len(),
            left_slots@.len() == left_length,
            right_slots@.len() == right_length,
            i <= left_length,
            j <= right_length,
            forall|k: int| i <= k < left_length ==> #[trigger] left_slots@[k] == Some(left@[k]),
            forall|k: int| j <= k < right_length ==> #[trigger] right_slots@[k] == Some(right@[k]),
            out@.to_multiset() == (left@.take(i as int) + right@.take(j as int)).to_multiset(),
            forall|rel: spec_fn(T, T) -> bool|
                #[trigger] decides(*compare, rel) && mergeable(rel, left@, right@) ==> merging(
                    rel,
                    left@,
                    right@,
                    i as int,
                    j as int,
                    out@,
                ),
            forall|rel: spec_fn(T, T) -> bool|
                #[trigger] decides(*compare, rel) && strict_weak_order(rel) && sorted_by(
                    left@,
                    not_after(rel),
                ) && sorted_by(right@, not_after(rel)) ==> merging_in_order(
                    not_after(rel),
                    left@,
                    right@,
                    i as int,
                    j as int,
                    out@,
                ),
        decreases left_length - i + right_length - j,
    {
        let ghost before = out@;
        assert(left_slots@[i as int] == Some(left@[i as int]));
        assert(right_slots@[j as int] == Some(right@[j as int]));
        let left_first = compare(left_slots[i].as_ref().unwrap(), right_slots[j].as_ref().unwrap());
        if left_first {
            let e = left_slots[i].take().unwrap();
            out.push(e);
            proof {
                broadcast use group_to_multiset_ensures;
                broadcast use lemma_multiset_commutative;

                assert forall|rel: spec_fn(T, T) -> bool| #[trigger]
                    decides(*compare, rel) && mergeable(rel, left@, right@) implies merging(
                    rel,
                    left@,
                    right@,
                    i + 1,
                    j as int,
                    out@,
                ) by {
                    lemma_take_left(rel, left@, right@, i as int, j as int, before);
                }
                assert forall|rel: spec_fn(T, T) -> bool| #[trigger]
                    decides(*compare, rel) && strict_weak_order(rel) && sorted_by(
                        left@,
                        not_after(rel),
                    ) && sorted_by(right@, not_after(rel)) implies merging_in_order(
                    not_after(rel),
                    left@,
                    right@,
                    i + 1,
                    j as int,
                    out@,
                ) by {
                    lemma_take_in_order(
                        not_after(rel),
                        left@,
                        right@,
                        i as int,
                        j as int,
                        before,
                        true,
                    );
                }
                assert(left@.take(i + 1) =~= left@.take(i as int).push(left@[i as int]));
                assert(out@.to_multiset() =~= (left@.take(i + 1) + right@.take(
                    j as int,
                )).to_multiset());
            }
            i += 1;
        } else {
            let e = right_slots[j].take().unwrap();
            out.push(e);
            proof {
                broadcast use group_to_multiset_ensures;
                broadcast use lemma_multiset_commutative;

                assert forall|rel: spec_fn(T, T) -> bool| #[trigger]
                    decides(*compare, rel) && mergeable(rel, left@, right@) implies merging(
                    rel,
                    left@,
                    right@,
                    i as int,
                    j + 1,
                    out@,
                ) by {
                    lemma_take_right(rel, left@, right@, i as int, j as int, before);
                }
                assert forall|rel: spec_fn(T, T) -> bool| #[trigger]
                    decides(*compare, rel) && strict_weak_order(rel) && sorted_by(
                        left@,
                        not_after(rel),
                    ) && sorted_by(right@, not_after(rel)) implies merging_in_order(
                    not_after(rel),
                    left@,
                    right@,
                    i as int,
                    j + 1,
                    out@,
                ) by {
                    lemma_take_in_order(
                        not_after(rel),
                        left@,
                        right@,
                        i as int,
                        j as int,
                        before,
                        false,
                    );
                }
                assert(right@.take(j + 1) =~= right@.take(j as int).push(right@[j as int]));
                assert(out@.to_multiset() =~= (left@.take(i as int) + right@.take(
                    j + 1,
                )).to_multiset());
            }
            j += 1;
        }
    }
    let ghost merged = out@;
    let ghost i0 = i as int;
    let ghost j0 = j as int;
    while i < left_length
        invariant
            left_length == left@.len(),
            left_slots@.len() == left_length,
            0 <= i0 <= i <= left_length,
            forall|k: int| i <= k < left_length ==> #[trigger] left_slots@[k] == Some(left@[k]),
            out@ == merged + left@.subrange(i0, i as int),
        decreases left_length - i,
    {
        assert(left_slots@[i as int] == Some(left@[i as int]));
        let e = left_slots[i].take().unwrap();
        out.push(e);
        i += 1;
        assert(out@ =~= merged + left@.subrange(i0, i as int));
    }
    while j < right_length
        invariant
            right_length == right@.len(),
            right_slots@.len() == right_length,
            0 <= i0 <= left@.len(),
            0 <= j0 <= j <= right_length,
            forall|k: int| j <= k < right_length ==> #[trigger] right_slots@[k] == Some(right@[k]),
            out@ == merged + left@.skip(i0) + right@.subrange(j0, j as int),
        decreases right_length - j,
    {
        assert(right_slots@[j as int] == Some(right@[j as int]));
        let e = right_slots[j].take().unwrap();
        out.push(e);
        j += 1;
        assert(out@ =~= merged + left@.skip(i0) + right@.subrange(j0, j as int));
    }
    proof {
        broadcast use lemma_multiset_commutative;

        assert(out@ =~= merged + left@.skip(i0) + right@.skip(j0));
        assert(left@ =~= left@.take(i0) + left@.skip(i0));
        assert(right@ =~= right@.take(j0) + right@.skip(j0));
        assert(out@.to_multiset() =~= (left@ + right@).to_multiset());
        assert forall|rel: spec_fn(T, T) -> bool| #[trigger]
            decides(*compare, rel) && mergeable(rel, left@, right@) implies sorted_by(out@, rel)
            && keeps_ties(rel, left@ + right@, out@) by {
            lemma_merging_ends(rel, left@, right@, i0, j0, merged);
        }
        assert forall|rel: spec_fn(T, T) -> bool| #[trigger]
            decides(*compare, rel) && strict_weak_order(rel) && sorted_by(
                left@,
                not_after(rel),
            ) && sorted_by(right@, not_after(rel)) implies sorted_by(out@, not_after(rel)) by {
            lemma_in_order_ends(not_after(rel), left@, right@, i0, j0, merged);
        }
    }
    out
}

/// Sorts the elements in slots `p..r` of `source` into a buffer of their
/// own, leaving those slots empty. The split point is biased so that the
/// left half gets the extra element.
pub fn merge_sort<T, F: Fn(&T, &T) -> bool>(
    source: &mut Vec<Option<T>>,
    compare: &F,
    p: usize,
    r: usize,
) -> (out: Vec<T>)
    requires
        answers_all(*compare),
        p < r <= old(source)@.len(),
        forall|k: int| p <= k < r ==> (#[trigger] old(source)@[k]) is Some,
    ensures
        final(source)@.len() == old(source)@.len(),
        forall|k: int| p <= k < r ==> (#[trigger] final(source)@[k]) is None,
        forall|k: int|
            0 <= k < p || r <= k < old(source)@.len() ==> #[trigger] final(source)@[k] == old(
                source,
            )@[k],
        out@.to_multiset() == contents(old(source)@.subrange(p as int, r as int)).to_multiset(),
        forall|rel: spec_fn(T, T) -> bool|
            #[trigger] decides(*compare, rel) && orders(
                rel,
                contents(old(source)@.subrange(p as int, r as int)),
            ) ==> sorted_by(out@, rel) && keeps_ties(
                rel,
                contents(old(source)@.subrange(p as int, r as int)),
                out@,
            ),
        forall|rel: spec_fn(T, T) -> bool|
            #[trigger] decides(*compare, rel) && strict_weak_order(rel) ==> sorted_by(
                out@,
                not_after(rel),
            ),
    decreases r - p,
{
    let ghost items = contents(source@.subrange(p as int, r as int));
    if r - p > 1 {
        let q: usize = r - (r - p) / 2;
        let ghost left_items = contents(source@.subrange(p as int, q as int));
        let ghost right_items = contents(source@.subrange(q as int, r as int));
        let left = merge_sort(source, compare, p, q);
        assert(source@.subrange(q as int, r as int) =~= old(source)@.subrange(q as int, r as int));
        let right = merge_sort(source, compare, q, r);
        let out = merge(left, right, compare);
        proof {
            broadcast use lemma_multiset_commutative;

            assert(items =~= left_items + right_items);
            assert(out@.to_multiset() =~= items.to_multiset());
            assert forall|rel: spec_fn(T, T) -> bool| #[trigger]
                decides(*compare, rel) && orders(rel, items) implies sorted_by(out@, rel)
                && keeps_ties(rel, items, out@) by {
                lemma_halves(rel, items, left_items, right_items, left@, right@);
                lemma_merged_keeps_ties(rel, items, left_items, right_items, left@, right@, out@);
            }
        }
        out
    } else {
        let mut out: Vec<T> = Vec::with_capacity(1);
        let e = source[p].take().unwrap();
        out.push(e);
        proof {
            assert(out@ =~= items);
        }
        out
    }
}

/// A relation that orders a sequence orders its two halves, and still does
/// after each half has been rearranged.
proof fn lemma_halves<T>(
    rel: spec_fn(T, T) -> bool,
    items: Seq<T>,
    left_items: Seq<T>,
    right_items: Seq<T>,
    left: Seq<T>,
    right: Seq<T>,
)
    requires
        orders(rel, items),
        items == left_items + right_items,
        left.to_multiset() == left_items.to_multiset(),
        right.to_multiset() == right_items.to_multiset(),
    ensures
        orders(rel, left_items),
        orders(rel, right_items),
        orders(rel, left + right),
{
    broadcast use lemma_multiset_commutative;

    lemma_orders_within(rel, items, 0, left_items.len() as int);
    lemma_orders_within(rel, items, left_items.len() as int, items.len() as int);
    assert(items.subrange(0, left_items.len() as int) =~= left_items);
    assert(items.subrange(left_items.len() as int, items.len() as int) =~= right_items);
    assert((left + right).to_multiset() =~= items.to_multiset());
    lemma_orders_rearranged(rel, items, left + right);
}

/// Sorting each half with ties kept and merging the two with ties kept
/// keeps the ties of the whole.
proof fn lemma_merged_keeps_ties<T>(
    rel: spec_fn(T, T) -> bool,
    items: Seq<T>,
    left_items: Seq<T>,
    right_items: Seq<T>,
    left: Seq<T>,
    right: Seq<T>,
    out: Seq<T>,
)
    requires
        items == left_items + right_items,
        keeps_ties(rel, left_items, left),
        keeps_ties(rel, right_items, right),
        keeps_ties(rel, left + right, out),
    ensures
        keeps_ties(rel, items, out),
{
    broadcast use Seq::filter_distributes_over_add;

    assert forall|x: T| #[trigger] out.filter(tied_with(rel, x)) == items.filter(tied_with(rel, x)) by {
        let pred = tied_with(rel, x);
        assert(out.filter(pred) == (left + right).filter(pred));
        assert(left.filter(pred) == left_items.filter(pred));
        assert(right.filter(pred) == right_items.filter(pred));
    }
}

impl<'a, Elem> CompareSorter for MergeSorter<'a, Vec<Elem>> {
    type Element = Elem;

    open spec fn elements(&self) -> Seq<Elem> {
        self.0@
    }

    /// Besides what every sorter promises, ties keep their input order,
    /// a sequence that is sorted already is left exactly as it was, and the
    /// sorter still lends from the same sequence afterwards.
    fn sort_by<F: Fn(&Elem, &Elem) -> bool>(&mut self, compare: F)
        ensures
            forall|rel: spec_fn(Elem, Elem) -> bool|
                #[trigger] decides(compare, rel) && orders(rel, old(self).0@) ==> keeps_ties(
                    rel,
                    old(self).0@,
                    final(self).0@,
                ),
            forall|rel: spec_fn(Elem, Elem) -> bool|
                #[trigger] decides(compare, rel) && orders(rel, old(self).0@) && sorted_by(
                    old(self).0@,
                    rel,
                ) ==> final(self).0@ == old(self).0@,
            *final(final(self).0) == *final(old(self).0),
    {
        let ghost input = self.0@;
        let len: usize = self.0.len();
        if len < 2 {
            return ;
        }
        let mut taken: Vec<Elem> = Vec::new();
        core::mem::swap(&mut *self.0, &mut taken);
        let mut source = wrap_all(taken);
        assert(source@.subrange(0, len as int) =~= source@);
        assert(contents(source@) =~= input);
        let mut sorted = merge_sort(&mut source, &compare, 0, len);
        core::mem::swap(&mut *self.0, &mut sorted);
        proof {
            lemma_rearranged_length(input, self.0@);
            assert forall|rel: spec_fn(Elem, Elem) -> bool| #[trigger]
                decides(compare, rel) && orders(rel, input) && sorted_by(
                    input,
                    rel,
                ) implies self.0@ == input by {
                lemma_stable_sorted_unique(rel, input, self.0@);
            }
        }
    }
}

} // verus!
