//! The vocabulary in which every sorter states what it does: the relation a
//! comparator decides, when that relation orders a sequence, and what it
//! means for a rearrangement to keep ties in place.
//!
//! A comparator is an executable closure; contracts speak of it through any
//! relation `rel` with `decides(compare, rel)`. A relation that `orders` the
//! entries, such as `<=`, holds afterwards of every entry and every later
//! one; of a strict one, such as `<` over repeated keys, the weak side
//! `not_after` does.

use vstd::prelude::*;
use vstd::relations::{sorted_by, transitive};
use vstd::seq_lib::group_to_multiset_ensures;
use crate::sequences::{
    lemma_filter_keeps_order, lemma_filter_place, lemma_filter_sorted, lemma_twice,
    lemma_two_places,
};

verus! {

/// The comparator can be asked about every pair.
pub open spec fn answers_all<T, F: Fn(&T, &T) -> bool>(compare: F) -> bool {
    forall|a: T, b: T| #[trigger] compare.requires((&a, &b))
}

/// `rel` is the relation that the comparator decides: whenever
/// `compare(&a, &b)` returns, its answer is `rel(a, b)`, which says whether
/// `a` may stand directly before `b`.
pub open spec fn decides<T, F: Fn(&T, &T) -> bool>(compare: F, rel: spec_fn(T, T) -> bool) -> bool {
    forall|a: T, b: T, r: bool| #[trigger] compare.ensures((&a, &b), r) ==> r == rel(a, b)
}

/// Of any two entries of `s` at different positions, one may stand before the other.
pub open spec fn comparable<T>(rel: spec_fn(T, T) -> bool, s: Seq<T>) -> bool {
    forall|i: int, j: int|
        #![trigger s[i], s[j]]
        0 <= i < s.len() && 0 <= j < s.len() && i != j ==> rel(s[i], s[j]) || rel(s[j], s[i])
}

/// `rel` orders the entries of `s`: it is transitive, and any two entries at
/// different positions are comparable. A non-strict order such as `<=` orders
/// every sequence; a strict one such as `<` orders the sequences without
/// repeated keys.
pub open spec fn orders<T>(rel: spec_fn(T, T) -> bool, s: Seq<T>) -> bool {
    &&& transitive(rel)
    &&& comparable(rel, s)
}

/// The weak side of a strict relation: `b` does not have to stand before `a`.
/// For `<` this is `<=`.
pub open spec fn not_after<T>(rel: spec_fn(T, T) -> bool) -> spec_fn(T, T) -> bool {
    |a: T, b: T| !rel(b, a)
}

/// `rel` is a strict order whose ties form classes, as `<` on keys is: it
/// never holds both ways, and whatever does not have to stand before a
/// second entry, which does not have to stand before a third, does not have
/// to stand before the third. Such a relation cannot hold of every entry and
/// every later one where keys repeat; what sorting by it gives is that no
/// later entry has to stand before an earlier one.
pub open spec fn strict_weak_order<T>(rel: spec_fn(T, T) -> bool) -> bool {
    &&& forall|a: T, b: T| #[trigger] rel(a, b) ==> !rel(b, a)
    &&& transitive(not_after(rel))
}

/// What the answers of a strict comparator say of its weak side: `true`
/// puts the first entry before the second, `false` the second before the first.
pub proof fn lemma_strict_answers<T>(rel: spec_fn(T, T) -> bool, a: T, b: T)
    requires
        strict_weak_order(rel),
    ensures
        rel(a, b) ==> not_after(rel)(a, b),
        !rel(a, b) ==> not_after(rel)(b, a),
{
}

/// The entries that `rel` treats as equal to `x`: each may stand before the other.
pub open spec fn tied_with<T>(rel: spec_fn(T, T) -> bool, x: T) -> spec_fn(T) -> bool {
    |y: T| rel(x, y) && rel(y, x)
}

/// `output` keeps the entries that `rel` ties in the order they have in `input`:
/// for every `x`, the entries tied with `x` form the same subsequence in both.
pub open spec fn keeps_ties<T>(rel: spec_fn(T, T) -> bool, input: Seq<T>, output: Seq<T>) -> bool {
    forall|x: T| #[trigger] output.filter(tied_with(rel, x)) == input.filter(tied_with(rel, x))
}

/// Whether a relation orders a sequence does not depend on how the sequence is arranged.
pub proof fn lemma_orders_rearranged<T>(rel: spec_fn(T, T) -> bool, s: Seq<T>, t: Seq<T>)
    requires
        orders(rel, s),
        s.to_multiset() == t.to_multiset(),
    ensures
        orders(rel, t),
{
    broadcast use group_to_multiset_ensures;

    assert forall|i: int, j: int|
        #![trigger t[i], t[j]]
        0 <= i < t.len() && 0 <= j < t.len() && i != j implies rel(t[i], t[j]) || rel(
        t[j],
        t[i],
    ) by {
        if t[i] == t[j] {
            lemma_twice(t, i, j);
            let (p, q) = lemma_two_places(s, t[i]);
            assert(rel(s[p], s[q]) || rel(s[q], s[p]));
        } else {
            assert(t.contains(t[i]) && t.contains(t[j]));
            assert(t.to_multiset().count(t[i]) > 0 && t.to_multiset().count(t[j]) > 0);
            assert(s.to_multiset().count(t[i]) > 0 && s.to_multiset().count(t[j]) > 0);
            assert(s.contains(t[i]) && s.contains(t[j]));
            let p = choose|p: int| 0 <= p < s.len() && s[p] == t[i];
            let q = choose|q: int| 0 <= q < s.len() && s[q] == t[j];
            assert(rel(s[p], s[q]) || rel(s[q], s[p]));
        }
    }
}

/// A relation that orders a sequence orders each contiguous part of it.
pub proof fn lemma_orders_within<T>(rel: spec_fn(T, T) -> bool, s: Seq<T>, from: int, to: int)
    requires
        orders(rel, s),
        0 <= from <= to <= s.len(),
    ensures
        orders(rel, s.subrange(from, to)),
{
    let part = s.subrange(from, to);
    assert forall|i: int, j: int|
        #![trigger part[i], part[j]]
        0 <= i < part.len() && 0 <= j < part.len() && i != j implies rel(part[i], part[j]) || rel(
        part[j],
        part[i],
    ) by {
        assert(part[i] == s[from + i] && part[j] == s[from + j]);
    }
}

/// Two entries at different positions of a rearrangement of `s` are comparable
/// whenever `rel` orders `s`.
pub proof fn lemma_comparable_in<T>(rel: spec_fn(T, T) -> bool, s: Seq<T>, t: Seq<T>, i: int, j: int)
    requires
        orders(rel, s),
        s.to_multiset() == t.to_multiset(),
        0 <= i < t.len(),
        0 <= j < t.len(),
        i != j,
    ensures
        rel(t[i], t[j]) || rel(t[j], t[i]),
{
    lemma_orders_rearranged(rel, s, t);
}

/// Two entries that a filter keeps, in an output that holds the same
/// filtered entries as a sorted input, stand in the sorted order.
pub proof fn lemma_tied_in_order<T>(
    rel: spec_fn(T, T) -> bool,
    input: Seq<T>,
    output: Seq<T>,
    pred: spec_fn(T) -> bool,
    i: int,
    j: int,
)
    requires
        sorted_by(input, rel),
        output.filter(pred) == input.filter(pred),
        0 <= i < j < output.len(),
        pred(output[i]),
        pred(output[j]),
    ensures
        rel(output[i], output[j]),
{
    let (a, b) = lemma_filter_keeps_order(output, pred, i, j);
    lemma_filter_sorted(input, pred, rel);
    assert(rel(input.filter(pred)[a], input.filter(pred)[b]));
}

/// In a sorted sequence the relation holds of every entry and the next.
pub proof fn lemma_sorted_adjacent<T>(rel: spec_fn(T, T) -> bool, s: Seq<T>, i: int)
    requires
        sorted_by(s, rel),
        0 < i < s.len(),
    ensures
        rel(s[i - 1], s[i]),
{
}

/// Taking the first entry off both sides of a kept-ties pair with equal
/// first entries leaves a kept-ties pair.
proof fn lemma_keeps_ties_of_rest<T>(rel: spec_fn(T, T) -> bool, a: Seq<T>, b: Seq<T>)
    requires
        a.len() > 0,
        b.len() > 0,
        a[0] == b[0],
        keeps_ties(rel, a, b),
    ensures
        keeps_ties(rel, a.drop_first(), b.drop_first()),
{
    broadcast use Seq::lemma_filter_prepend;

    assert(a =~= seq![a[0]] + a.drop_first());
    assert(b =~= seq![b[0]] + b.drop_first());
    assert forall|x: T| #[trigger]
        b.drop_first().filter(tied_with(rel, x)) == a.drop_first().filter(tied_with(rel, x)) by {
        let pred = tied_with(rel, x);
        let head = if pred(a[0]) {
            seq![a[0]]
        } else {
            Seq::<T>::empty()
        };
        assert(b.filter(pred) == a.filter(pred));
        assert(a.filter(pred) == head + a.drop_first().filter(pred));
        assert(b.filter(pred) == head + b.drop_first().filter(pred));
        assert(a.drop_first().filter(pred) =~= (head + a.drop_first().filter(pred)).skip(
            head.len() as int,
        ));
        assert(b.drop_first().filter(pred) =~= (head + b.drop_first().filter(pred)).skip(
            head.len() as int,
        ));
    }
}

/// There is one way only to sort a sequence and keep its ties: a sorted
/// rearrangement of a sorted sequence that keeps its ties is that sequence.
pub proof fn lemma_stable_sorted_unique<T>(rel: spec_fn(T, T) -> bool, a: Seq<T>, b: Seq<T>)
    requires
        transitive(rel),
        a.to_multiset() == b.to_multiset(),
        sorted_by(a, rel),
        sorted_by(b, rel),
        keeps_ties(rel, a, b),
    ensures
        a == b,
    decreases a.len(),
{
    broadcast use group_to_multiset_ensures;

    assert(a.to_multiset().len() == a.len() && b.to_multiset().len() == b.len());
    if a.len() > 0 {
        if a[0] != b[0] {
            assert(a.contains(a[0]) && b.contains(b[0]));
            assert(a.to_multiset().count(a[0]) > 0 && b.to_multiset().count(b[0]) > 0);
            assert(b.contains(a[0]) && a.contains(b[0]));
            let p = choose|p: int| 0 <= p < b.len() && b[p] == a[0];
            let q = choose|q: int| 0 <= q < a.len() && a[q] == b[0];
            assert(rel(b[0], b[p]));
            assert(rel(a[0], a[q]));
            let pred = tied_with(rel, a[0]);
            assert(pred(a[0]) && pred(b[0]));
            let at_a = lemma_filter_place(a, pred, 0);
            let at_b = lemma_filter_place(b, pred, 0);
            assert(a.take(0) =~= Seq::<T>::empty() && b.take(0) =~= Seq::<T>::empty());
            assert(at_a == 0 && at_b == 0) by {
                reveal(Seq::filter);
            }
            assert(b.filter(pred) == a.filter(pred));
        }
        lemma_keeps_ties_of_rest(rel, a, b);
        assert(a.drop_first() =~= a.remove(0) && b.drop_first() =~= b.remove(0));
        assert(a.drop_first().to_multiset() == b.drop_first().to_multiset());
        lemma_stable_sorted_unique(rel, a.drop_first(), b.drop_first());
        assert(a =~= seq![a[0]] + a.drop_first());
        assert(b =~= seq![b[0]] + b.drop_first());
    } else {
        assert(a =~= b);
    }
}

/// The relation ties no two different values among the entries of `s`.
pub open spec fn ties_are_equal<T>(rel: spec_fn(T, T) -> bool, s: Seq<T>) -> bool {
    forall|i: int, j: int|
        #![trigger s[i], s[j]]
        0 <= i < s.len() && 0 <= j < s.len() && rel(s[i], s[j]) && rel(s[j], s[i]) ==> s[i] == s[j]
}

/// Where no two different values are tied there is one way only to sort: a
/// sorted rearrangement of a sorted sequence is that sequence.
pub proof fn lemma_untied_sorted_unique<T>(rel: spec_fn(T, T) -> bool, a: Seq<T>, b: Seq<T>)
    requires
        a.to_multiset() == b.to_multiset(),
        sorted_by(a, rel),
        sorted_by(b, rel),
        ties_are_equal(rel, a),
    ensures
        a == b,
    decreases a.len(),
{
    broadcast use group_to_multiset_ensures;

    assert(a.to_multiset().len() == a.len() && b.to_multiset().len() == b.len());
    if a.len() > 0 {
        if a[0] != b[0] {
            assert(a.contains(a[0]) && b.contains(b[0]));
            assert(a.to_multiset().count(a[0]) > 0 && b.to_multiset().count(b[0]) > 0);
            assert(b.contains(a[0]) && a.contains(b[0]));
            let p = choose|p: int| 0 <= p < b.len() && b[p] == a[0];
            let q = choose|q: int| 0 <= q < a.len() && a[q] == b[0];
            assert(rel(b[0], b[p]));
            assert(rel(a[0], a[q]));
        }
        let rest_a = a.drop_first();
        let rest_b = b.drop_first();
        assert(rest_a =~= a.remove(0) && rest_b =~= b.remove(0));
        assert(rest_a.to_multiset() == rest_b.to_multiset());
        assert forall|i: int, j: int|
            #![trigger rest_a[i], rest_a[j]]
            0 <= i < rest_a.len() && 0 <= j < rest_a.len() && rel(rest_a[i], rest_a[j]) && rel(
                rest_a[j],
                rest_a[i],
            ) implies rest_a[i] == rest_a[j] by {
            assert(rest_a[i] == a[i + 1] && rest_a[j] == a[j + 1]);
        }
        lemma_untied_sorted_unique(rel, rest_a, rest_b);
        assert(a =~= seq![a[0]] + rest_a);
        assert(b =~= seq![b[0]] + rest_b);
    } else {
        assert(a =~= b);
    }
}

} // verus!
