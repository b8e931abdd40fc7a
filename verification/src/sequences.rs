//! Facts about sequences that the sorters' proofs share: what a filter
//! keeps and in which order, and what a rearrangement leaves as it is.

use vstd::prelude::*;
use vstd::relations::sorted_by;
use vstd::seq_lib::group_to_multiset_ensures;

verus! {

/// A rearrangement is as long as what it rearranges.
pub proof fn lemma_rearranged_length<T>(s: Seq<T>, t: Seq<T>)
    requires
        s.to_multiset() == t.to_multiset(),
    ensures
        s.len() == t.len(),
{
    broadcast use group_to_multiset_ensures;

    assert(s.to_multiset().len() == s.len() && t.to_multiset().len() == t.len());
}

/// A value at two different positions occurs at least twice.
pub proof fn lemma_twice<T>(s: Seq<T>, i: int, j: int)
    requires
        0 <= i < s.len(),
        0 <= j < s.len(),
        i != j,
        s[i] == s[j],
    ensures
        s.to_multiset().count(s[i]) >= 2,
{
    broadcast use group_to_multiset_ensures;

    let rest = s.remove(i);
    let k = if j < i { j } else { j - 1 };
    assert(rest[k] == s[j]);
    assert(rest.contains(s[j]));
    assert(rest.to_multiset().count(s[j]) > 0);
    assert(rest.to_multiset() == s.to_multiset().remove(s[i]));
}

/// A value that occurs at least twice stands at two different positions.
pub proof fn lemma_two_places<T>(s: Seq<T>, a: T) -> (places: (int, int))
    requires
        s.to_multiset().count(a) >= 2,
    ensures
        0 <= places.0 < s.len(),
        0 <= places.1 < s.len(),
        places.0 != places.1,
        s[places.0] == a,
        s[places.1] == a,
{
    broadcast use group_to_multiset_ensures;

    assert(s.contains(a));
    let i = choose|i: int| 0 <= i < s.len() && s[i] == a;
    let rest = s.remove(i);
    assert(rest.to_multiset() == s.to_multiset().remove(s[i]));
    assert(rest.to_multiset().count(a) > 0);
    assert(rest.contains(a));
    let k = choose|k: int| 0 <= k < rest.len() && rest[k] == a;
    let j = if k < i { k } else { k + 1 };
    (i, j)
}

/// Moving the entry at `from` down to `to` keeps a filtered subsequence as it
/// is, provided that no entry it passes is selected together with it.
pub proof fn lemma_move_down_filter<T>(s: Seq<T>, to: int, from: int, pred: spec_fn(T) -> bool)
    requires
        0 <= to <= from < s.len(),
        forall|k: int| to <= k < from ==> !(pred(#[trigger] s[k]) && pred(s[from])),
    ensures
        s.remove(from).insert(to, s[from]).filter(pred) == s.filter(pred),
{
    broadcast use Seq::filter_distributes_over_add;

    let head = s.subrange(0, to);
    let passed = s.subrange(to, from);
    let moved = seq![s[from]];
    let tail = s.subrange(from + 1, s.len() as int);
    assert(s =~= head + passed + moved + tail);
    assert(s.remove(from).insert(to, s[from]) =~= head + moved + passed + tail);
    if pred(s[from]) {
        assert(passed.all(|x: T| !pred(x))) by {
            assert forall|k: int| 0 <= k < passed.len() implies !pred(#[trigger] passed[k]) by {
                assert(passed[k] == s[to + k]);
            }
        }
        passed.lemma_all_neg_filter_empty(pred);
        assert(passed.filter(pred) =~= Seq::<T>::empty());
        assert(head.filter(pred) + passed.filter(pred) + moved.filter(pred) + tail.filter(pred)
            =~= head.filter(pred) + moved.filter(pred) + passed.filter(pred) + tail.filter(pred));
    } else {
        reveal_with_fuel(Seq::filter, 2);
        assert(moved.filter(pred) =~= Seq::<T>::empty());
        assert(head.filter(pred) + passed.filter(pred) + moved.filter(pred) + tail.filter(pred)
            =~= head.filter(pred) + moved.filter(pred) + passed.filter(pred) + tail.filter(pred));
    }
}

/// Whatever a filter keeps comes from the sequence it was applied to.
pub proof fn lemma_filtered_from<T>(s: Seq<T>, pred: spec_fn(T) -> bool, a: T)
    requires
        s.filter(pred).contains(a),
    ensures
        s.contains(a),
    decreases s.len(),
{
    reveal(Seq::filter);
    if s.len() > 0 {
        let rest = s.drop_last();
        if pred(s.last()) && a == s.last() {
            assert(s[s.len() - 1] == a);
        } else {
            let kept = rest.filter(pred);
            let k = choose|k: int| 0 <= k < s.filter(pred).len() && s.filter(pred)[k] == a;
            if pred(s.last()) {
                assert(s.filter(pred) == kept.push(s.last()));
                assert(k < kept.len());
            }
            assert(kept[k] == a);
            lemma_filtered_from(rest, pred, a);
            let m = choose|m: int| 0 <= m < rest.len() && rest[m] == a;
            assert(s[m] == a);
        }
    }
}

/// Where a filter puts the entry at `i`, if it keeps it: behind as many
/// entries as it keeps of those before `i`.
pub proof fn lemma_filter_place<T>(s: Seq<T>, pred: spec_fn(T) -> bool, i: int) -> (at: int)
    requires
        0 <= i < s.len(),
        pred(s[i]),
    ensures
        at == s.take(i).filter(pred).len(),
        0 <= at < s.filter(pred).len(),
        s.filter(pred)[at] == s[i],
{
    broadcast use Seq::filter_distributes_over_add;
    broadcast use Seq::lemma_filter_push;

    let at = s.take(i).filter(pred).len() as int;
    assert(s.take(i + 1) =~= s.take(i).push(s[i]));
    assert(s =~= s.take(i + 1) + s.skip(i + 1));
    assert(s.filter(pred) == s.take(i + 1).filter(pred) + s.skip(i + 1).filter(pred));
    at
}

/// A filter keeps the entries it keeps in their order.
pub proof fn lemma_filter_keeps_order<T>(s: Seq<T>, pred: spec_fn(T) -> bool, i: int, j: int) -> (at: (
    int,
    int,
))
    requires
        0 <= i < j < s.len(),
        pred(s[i]),
        pred(s[j]),
    ensures
        0 <= at.0 < at.1 < s.filter(pred).len(),
        s.filter(pred)[at.0] == s[i],
        s.filter(pred)[at.1] == s[j],
{
    broadcast use Seq::filter_distributes_over_add;
    broadcast use Seq::lemma_filter_push;

    let a = lemma_filter_place(s, pred, i);
    let b = lemma_filter_place(s, pred, j);
    assert(s.take(i + 1) =~= s.take(i).push(s[i]));
    assert(s.take(j) =~= s.take(i + 1) + s.subrange(i + 1, j));
    assert(s.take(j).filter(pred) == s.take(i + 1).filter(pred) + s.subrange(i + 1, j).filter(pred));
    (a, b)
}

/// What a relation sorts stays sorted when some entries are filtered out.
pub proof fn lemma_filter_sorted<T>(s: Seq<T>, pred: spec_fn(T) -> bool, rel: spec_fn(T, T) -> bool)
    requires
        sorted_by(s, rel),
    ensures
        sorted_by(s.filter(pred), rel),
    decreases s.len(),
{
    reveal(Seq::filter);
    if s.len() > 0 {
        let rest = s.drop_last();
        assert forall|a: int, b: int| 0 <= a < b < rest.len() implies #[trigger] rel(
            rest[a],
            rest[b],
        ) by {
            assert(rel(s[a], s[b]));
        }
        lemma_filter_sorted(rest, pred, rel);
        let kept = s.filter(pred);
        assert forall|a: int, b: int| 0 <= a < b < kept.len() implies #[trigger] rel(
            kept[a],
            kept[b],
        ) by {
            if b < rest.filter(pred).len() {
                assert(rel(rest.filter(pred)[a], rest.filter(pred)[b]));
            } else {
                assert(rest.filter(pred).contains(rest.filter(pred)[a]));
                lemma_filtered_from(rest, pred, kept[a]);
                let m = choose|m: int| 0 <= m < rest.len() && rest[m] == kept[a];
                assert(rel(s[m], s[s.len() - 1]));
            }
        }
    }
}

/// What holds of every entry of a sequence holds of every entry of each
/// rearrangement of it.
pub proof fn lemma_all_rearranged<T>(s: Seq<T>, t: Seq<T>, pred: spec_fn(T) -> bool)
    requires
        s.to_multiset() == t.to_multiset(),
        forall|k: int| 0 <= k < s.len() ==> pred(#[trigger] s[k]),
    ensures
        forall|k: int| 0 <= k < t.len() ==> pred(#[trigger] t[k]),
{
    broadcast use vstd::seq_lib::group_to_multiset_ensures;

    assert forall|k: int| 0 <= k < t.len() implies pred(#[trigger] t[k]) by {
        assert(t.contains(t[k]));
        assert(t.to_multiset().count(t[k]) > 0);
        assert(s.to_multiset().count(t[k]) > 0);
        assert(s.contains(t[k]));
        let m = choose|m: int| 0 <= m < s.len() && s[m] == t[k];
        assert(pred(s[m]));
    }
}

/// A filter keeps a sequence whole when every entry passes.
pub proof fn lemma_filter_keeps_all<T>(s: Seq<T>, pred: spec_fn(T) -> bool)
    requires
        forall|j: int| 0 <= j < s.len() ==> pred(#[trigger] s[j]),
    ensures
        s.filter(pred) == s,
    decreases s.len(),
{
    reveal(Seq::filter);
    if s.len() > 0 {
        assert forall|j: int| 0 <= j < s.drop_last().len() implies pred(#[trigger] s.drop_last()[j]) by {
            assert(s.drop_last()[j] == s[j]);
        }
        lemma_filter_keeps_all(s.drop_last(), pred);
        assert(pred(s.last()));
        assert(s.drop_last().push(s.last()) =~= s);
    }
}

/// A filter keeps nothing when no entry passes.
pub proof fn lemma_filter_keeps_none<T>(s: Seq<T>, pred: spec_fn(T) -> bool)
    requires
        forall|j: int| 0 <= j < s.len() ==> !pred(#[trigger] s[j]),
    ensures
        s.filter(pred) == Seq::<T>::empty(),
    decreases s.len(),
{
    reveal(Seq::filter);
    if s.len() > 0 {
        assert forall|j: int| 0 <= j < s.drop_last().len() implies !pred(
            #[trigger] s.drop_last()[j],
        ) by {
            assert(s.drop_last()[j] == s[j]);
        }
        lemma_filter_keeps_none(s.drop_last(), pred);
        assert(!pred(s.last()));
    }
    assert(s.filter(pred) =~= Seq::<T>::empty());
}

/// A rearrangement of at most one entry changes nothing.
pub proof fn lemma_short_rearranged<T>(s: Seq<T>, t: Seq<T>)
    requires
        s.to_multiset() == t.to_multiset(),
        s.len() <= 1,
    ensures
        s == t,
{
    broadcast use group_to_multiset_ensures;

    assert(s.to_multiset().len() == s.len());
    assert(t.to_multiset().len() == t.len());
    if s.len() == 1 {
        assert(s.contains(s[0]));
        assert(s.to_multiset().count(s[0]) > 0);
        assert(t.contains(s[0]));
    }
    assert(s =~= t);
}

/// Two filters that agree on every entry keep the same entries.
pub proof fn lemma_filters_agree<T>(s: Seq<T>, p: spec_fn(T) -> bool, q: spec_fn(T) -> bool)
    requires
        forall|m: int| 0 <= m < s.len() ==> p(#[trigger] s[m]) == q(s[m]),
    ensures
        s.filter(p) == s.filter(q),
    decreases s.len(),
{
    reveal(Seq::filter);
    if s.len() > 0 {
        assert forall|m: int| 0 <= m < s.drop_last().len() implies p(#[trigger] s.drop_last()[m])
            == q(s.drop_last()[m]) by {
            assert(s.drop_last()[m] == s[m]);
        }
        lemma_filters_agree(s.drop_last(), p, q);
        assert(p(s.last()) == q(s.last()));
    }
}

} // verus!
