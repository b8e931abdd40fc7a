//! Counting sort: a stable sort by a key that lies below a known bound, in
//! time and space linear in the length and the bound.

use vstd::prelude::*;
use vstd::relations::sorted_by;
use vstd::seq_lib::group_to_multiset_ensures;
use crate::order::{keeps_ties, tied_with};
use crate::sequences::{lemma_filter_keeps_all, lemma_filter_keeps_none, lemma_short_rearranged};
use crate::slots::{holds_all, unwrap_all};

verus! {

/// The failure of a sort whose input holds a key at or above the bound.
pub const KEY_OVERFLOW: &'static str = "元素值溢出";

/// `key` is the function that the key extractor computes: whenever
/// `key_of(&e)` returns, its result is `key(e)`.
pub open spec fn extracts<T, F: Fn(&T) -> usize>(key_of: F, key: spec_fn(T) -> usize) -> bool {
    forall|e: T, k: usize| #[trigger] key_of.ensures((&e,), k) ==> k == key(e)
}

/// The order of the keys: `a` may stand before `b` when its key is not greater.
pub open spec fn by_key<T>(key: spec_fn(T) -> usize) -> spec_fn(T, T) -> bool {
    |a: T, b: T| key(a) <= key(b)
}

/// The keys less than `k`.
spec fn is_below(k: int) -> spec_fn(usize) -> bool {
    |x: usize| x < k
}

/// The key `k` itself.
spec fn is_key(k: int) -> spec_fn(usize) -> bool {
    |x: usize| x == k
}

/// How many of the keys are less than `k`: where the run of key `k` starts
/// in the sorted output.
spec fn below(ks: Seq<usize>, k: int) -> int {
    ks.filter(is_below(k)).len() as int
}

/// How many of the keys are `k`.
spec fn among(ks: Seq<usize>, k: int) -> int {
    ks.filter(is_key(k)).len() as int
}

/// Each element in a slot of its own.
spec fn wrap<T>(s: Seq<T>) -> Seq<Option<T>> {
    s.map_values(|e: T| Some(e))
}

/// `n` empty slots.
spec fn nones<T>(n: nat) -> Seq<Option<T>> {
    Seq::new(n, |j: int| None::<T>)
}

/// The run of the next key starts where the run of this key ends.
proof fn lemma_below_next(ks: Seq<usize>, k: int)
    ensures
        below(ks, k + 1) == below(ks, k) + among(ks, k),
    decreases ks.len(),
{
    reveal(Seq::filter);
    if ks.len() > 0 {
        lemma_below_next(ks.drop_last(), k);
    }
}

/// Runs of greater keys start later.
proof fn lemma_below_grows(ks: Seq<usize>, a: int, b: int)
    requires
        a <= b,
    ensures
        below(ks, a) <= below(ks, b),
    decreases ks.len(),
{
    reveal(Seq::filter);
    if ks.len() > 0 {
        lemma_below_grows(ks.drop_last(), a, b);
    }
}

/// The runs start at zero and end, where every key lies below the bound,
/// at the length.
proof fn lemma_below_bounds(ks: Seq<usize>, bound: int)
    ensures
        below(ks, 0) == 0,
        below(ks, bound) <= ks.len(),
        (forall|j: int| 0 <= j < ks.len() ==> #[trigger] ks[j] < bound) ==> below(ks, bound)
            == ks.len(),
    decreases ks.len(),
{
    reveal(Seq::filter);
    if ks.len() > 0 {
        lemma_below_bounds(ks.drop_last(), bound);
        if forall|j: int| 0 <= j < ks.len() ==> #[trigger] ks[j] < bound {
            assert forall|j: int| 0 <= j < ks.drop_last().len() implies #[trigger] ks.drop_last()[j]
                < bound by {
                assert(ks.drop_last()[j] == ks[j]);
            }
        }
    }
}

/// Looking at one key more adds one to the count of that key and nothing
/// to the others; a prefix never holds more of a key than the whole.
proof fn lemma_among_take(ks: Seq<usize>, i: int, k: int)
    requires
        0 <= i < ks.len(),
    ensures
        among(ks.take(i + 1), k) == among(ks.take(i), k) + (if ks[i] == k {
            1int
        } else {
            0int
        }),
        among(ks.take(i + 1), k) <= among(ks, k),
{
    broadcast use Seq::lemma_filter_len_push;

    assert(ks.take(i + 1) =~= ks.take(i).push(ks[i]));
    ks.lemma_filter_take_len(is_key(k), i + 1);
}

/// Every place of the output lies in the run of exactly one key.
proof fn lemma_find_run(ks: Seq<usize>, bound: int, q: int) -> (k: int)
    requires
        0 <= bound,
        0 <= q < below(ks, bound),
    ensures
        0 <= k < bound,
        below(ks, k) <= q < below(ks, k + 1),
    decreases bound,
{
    lemma_below_bounds(ks, bound);
    if q >= below(ks, bound - 1) {
        bound - 1
    } else {
        lemma_find_run(ks, bound - 1, q)
    }
}

/// A key that is counted occurs.
proof fn lemma_key_occurs(ks: Seq<usize>, k: int) -> (j: int)
    requires
        among(ks, k) > 0,
    ensures
        0 <= j < ks.len(),
        ks[j] == k,
    decreases ks.len(),
{
    reveal(Seq::filter);
    if ks.last() == k {
        ks.len() - 1
    } else {
        lemma_key_occurs(ks.drop_last(), k)
    }
}

/// The keys recorded for the items are the ones that `key` gives, and all
/// lie below the bound.
spec fn keyed<T>(key: spec_fn(T) -> usize, items: Seq<T>, ks: Seq<usize>, bound: int) -> bool {
    &&& ks.len() == items.len()
    &&& forall|j: int| 0 <= j < items.len() ==> #[trigger] ks[j] == key(items[j]) && ks[j] < bound
}

/// The items from `from` on that are tied with `x`.
spec fn run_of<T>(key: spec_fn(T) -> usize, items: Seq<T>, from: int, x: T) -> Seq<T> {
    items.skip(from).filter(tied_with(by_key(key), x))
}

/// What the placing pass has reached once the items from `from` on are in
/// their slots: the upper end of each key's run holds, in their input
/// order, the items of that key placed so far.
spec fn placed<T>(
    key: spec_fn(T) -> usize,
    items: Seq<T>,
    ks: Seq<usize>,
    slots: Seq<Option<T>>,
    from: int,
    bound: int,
) -> bool {
    forall|x: T|
        key(x) < bound ==> #[trigger] wrap(run_of(key, items, from, x)) == slots.subrange(
            below(ks, key(x) as int) + among(ks.take(from), key(x) as int),
            below(ks, key(x) + 1),
        )
}

/// The free places of each key's run: its lower end, as long as the count
/// of that key among the items still to be placed.
spec fn free_below<T>(ks: Seq<usize>, slots: Seq<Option<T>>, from: int, bound: int) -> bool {
    forall|k: int, q: int| 0 <= k < bound && #[trigger] in_free_part(ks, from, k, q) ==> slots[q] is None
}

/// `q` lies in the part of the run of key `k` that the items before `from`
/// will fill.
spec fn in_free_part(ks: Seq<usize>, from: int, k: int, q: int) -> bool {
    below(ks, k) <= q < below(ks, k) + among(ks.take(from), k)
}

proof fn lemma_run_is_inside(ks: Seq<usize>, from: int, k: int)
    requires
        0 <= from <= ks.len(),
    ensures
        below(ks, k) + among(ks.take(from), k) <= below(ks, k + 1) <= ks.len(),
{
    lemma_below_next(ks, k);
    lemma_below_bounds(ks, k + 1);
    ks.lemma_filter_take_len(is_key(k), from);
}

proof fn lemma_runs_apart(ks: Seq<usize>, a: int, b: int)
    requires
        a < b,
    ensures
        below(ks, a + 1) <= below(ks, b),
{
    lemma_below_grows(ks, a + 1, b);
}

/// Placing the item before `from` at the top of the free part of its run
/// keeps the rest free.
proof fn lemma_free_step<T>(ks: Seq<usize>, slots: Seq<Option<T>>, from: int, bound: int, e: T)
    requires
        0 < from <= ks.len(),
        slots.len() == ks.len(),
        0 <= ks[from - 1] < bound,
        free_below(ks, slots, from, bound),
    ensures
        ({
            let k = ks[from - 1] as int;
            let q = below(ks, k) + among(ks.take(from - 1), k);
            &&& 0 <= q < slots.len()
            &&& q == below(ks, k) + among(ks.take(from), k) - 1
            &&& slots[q] is None
            &&& free_below(ks, slots.update(q, Some(e)), from - 1, bound)
        }),
{
    let k = ks[from - 1] as int;
    let q = below(ks, k) + among(ks.take(from - 1), k);
    lemma_among_take(ks, from - 1, k);
    lemma_run_is_inside(ks, from, k);
    assert(in_free_part(ks, from, k, q));
    let next = slots.update(q, Some(e));
    assert forall|m: int, p: int|
        0 <= m < bound && #[trigger] in_free_part(ks, from - 1, m, p) implies next[p] is None by {
        lemma_among_take(ks, from - 1, m);
        lemma_run_is_inside(ks, from, m);
        if m < k {
            lemma_runs_apart(ks, m, k);
        } else if m > k {
            lemma_runs_apart(ks, k, m);
        }
        assert(p != q);
        assert(in_free_part(ks, from, m, p));
    }
}

/// Placing the item before `from` extends the placed part of its run by
/// one at the front and leaves the other runs as they are.
proof fn lemma_place<T>(
    key: spec_fn(T) -> usize,
    items: Seq<T>,
    ks: Seq<usize>,
    slots: Seq<Option<T>>,
    from: int,
    bound: int,
)
    requires
        0 < from <= items.len(),
        slots.len() == items.len(),
        keyed(key, items, ks, bound),
        placed(key, items, ks, slots, from, bound),
    ensures
        placed(
            key,
            items,
            ks,
            slots.update(
                below(ks, ks[from - 1] as int) + among(ks.take(from - 1), ks[from - 1] as int),
                Some(items[from - 1]),
            ),
            from - 1,
            bound,
        ),
{
    broadcast use Seq::lemma_filter_prepend;

    let e = items[from - 1];
    let k = ks[from - 1] as int;
    let q = below(ks, k) + among(ks.take(from - 1), k);
    let next = slots.update(q, Some(e));
    lemma_among_take(ks, from - 1, k);
    lemma_run_is_inside(ks, from, k);
    assert(items.skip(from - 1) =~= seq![e] + items.skip(from));
    assert forall|x: T| key(x) < bound implies #[trigger] wrap(run_of(key, items, from - 1, x))
        == next.subrange(
        below(ks, key(x) as int) + among(ks.take(from - 1), key(x) as int),
        below(ks, key(x) + 1),
    ) by {
        let kx = key(x) as int;
        let pred = tied_with(by_key(key), x);
        let low = below(ks, kx) + among(ks.take(from), kx);
        let high = below(ks, kx + 1);
        lemma_among_take(ks, from - 1, kx);
        lemma_run_is_inside(ks, from, kx);
        assert(wrap(run_of(key, items, from, x)) == slots.subrange(low, high));
        assert(ks[from - 1] == key(e));
        if kx == k {
            assert(pred(e));
            assert(run_of(key, items, from - 1, x) == seq![e] + run_of(key, items, from, x));
            assert(wrap(seq![e] + run_of(key, items, from, x)) =~= seq![Some(e)] + wrap(
                run_of(key, items, from, x),
            ));
            assert(next.subrange(q, high) =~= seq![Some(e)] + slots.subrange(low, high));
        } else {
            assert(!pred(e));
            assert(run_of(key, items, from - 1, x) =~= run_of(key, items, from, x));
            if kx < k {
                lemma_runs_apart(ks, kx, k);
            } else {
                lemma_runs_apart(ks, k, kx);
            }
            assert(next.subrange(low, high) =~= slots.subrange(low, high));
        }
    }
}

/// Before anything is placed, the placed part of every run is empty.
proof fn lemma_placed_nothing<T>(
    key: spec_fn(T) -> usize,
    items: Seq<T>,
    ks: Seq<usize>,
    slots: Seq<Option<T>>,
    bound: int,
)
    requires
        slots.len() == items.len(),
        keyed(key, items, ks, bound),
    ensures
        placed(key, items, ks, slots, items.len() as int, bound),
{
    reveal(Seq::filter);
    assert(ks.take(items.len() as int) =~= ks);
    assert forall|x: T| key(x) < bound implies #[trigger] wrap(
        run_of(key, items, items.len() as int, x),
    ) == slots.subrange(
        below(ks, key(x) as int) + among(ks.take(items.len() as int), key(x) as int),
        below(ks, key(x) + 1),
    ) by {
        let kx = key(x) as int;
        lemma_below_next(ks, kx);
        lemma_below_bounds(ks, kx + 1);
        assert(items.skip(items.len() as int) =~= Seq::<T>::empty());
        assert(run_of(key, items, items.len() as int, x) =~= Seq::<T>::empty());
        assert(wrap(Seq::<T>::empty()) =~= slots.subrange(below(ks, kx + 1), below(ks, kx + 1)));
    }
}

/// The key of what stands at place `q` once everything is placed.
proof fn lemma_key_at<T>(
    key: spec_fn(T) -> usize,
    items: Seq<T>,
    ks: Seq<usize>,
    out: Seq<T>,
    bound: int,
    q: int,
) -> (k: int)
    requires
        out.len() == items.len(),
        keyed(key, items, ks, bound),
        placed(key, items, ks, wrap(out), 0, bound),
        0 <= q < out.len(),
    ensures
        0 <= k < bound,
        below(ks, k) <= q < below(ks, k + 1),
        key(out[q]) == k,
{
    assert(ks[q] < bound);
    lemma_below_bounds(ks, bound);
    let k = lemma_find_run(ks, bound, q);
    lemma_below_next(ks, k);
    let j = lemma_key_occurs(ks, k);
    let x = items[j];
    let pred = tied_with(by_key(key), x);
    let run = run_of(key, items, 0, x);
    assert(ks.take(0) =~= Seq::<usize>::empty());
    assert(among(ks.take(0), k) == 0) by {
        reveal(Seq::filter);
    }
    assert(wrap(run) == wrap(out).subrange(below(ks, k), below(ks, k + 1)));
    let at = q - below(ks, k);
    assert(wrap(run).len() == below(ks, k + 1) - below(ks, k));
    assert(wrap(run)[at] == wrap(out)[q]);
    assert(run[at] == out[q]);
    items.skip(0).lemma_filter_pred(pred, at);
    k
}

/// Once everything is placed the output is sorted by key, and the items of
/// each key stand in their input order.
proof fn lemma_all_placed<T>(
    key: spec_fn(T) -> usize,
    items: Seq<T>,
    ks: Seq<usize>,
    out: Seq<T>,
    bound: int,
)
    requires
        out.len() == items.len(),
        keyed(key, items, ks, bound),
        placed(key, items, ks, wrap(out), 0, bound),
    ensures
        sorted_by(out, by_key(key)),
        keeps_ties(by_key(key), items, out),
{
    broadcast use Seq::filter_distributes_over_add;

    let rel = by_key(key);
    assert forall|a: int, b: int| 0 <= a < b < out.len() implies #[trigger] rel(out[a], out[b]) by {
        let ka = lemma_key_at(key, items, ks, out, bound, a);
        let kb = lemma_key_at(key, items, ks, out, bound, b);
        if ka > kb {
            lemma_runs_apart(ks, kb, ka);
        }
    }
    assert forall|x: T| #[trigger] out.filter(tied_with(rel, x)) == items.filter(tied_with(rel, x)) by {
        let pred = tied_with(rel, x);
        let kx = key(x) as int;
        if kx < bound {
            let low = below(ks, kx);
            let high = below(ks, kx + 1);
            lemma_run_is_inside(ks, 0, kx);
            assert(ks.take(0) =~= Seq::<usize>::empty());
            assert(among(ks.take(0), kx) == 0) by {
                reveal(Seq::filter);
            }
            let run = run_of(key, items, 0, x);
            assert(items.skip(0) =~= items);
            assert(wrap(run) == wrap(out).subrange(low, high));
            let block = out.subrange(low, high);
            assert(block =~= run) by {
                assert(wrap(run).len() == high - low);
                assert forall|m: int| 0 <= m < high - low implies block[m] == run[m] by {
                    assert(wrap(run)[m] == wrap(out).subrange(low, high)[m]);
                }
            }
            let head = out.subrange(0, low);
            let tail = out.subrange(high, out.len() as int);
            assert(out =~= head + block + tail);
            assert forall|m: int| 0 <= m < head.len() implies !pred(#[trigger] head[m]) by {
                let km = lemma_key_at(key, items, ks, out, bound, m);
                if km >= kx {
                    lemma_below_grows(ks, kx, km);
                }
            }
            assert forall|m: int| 0 <= m < tail.len() implies !pred(#[trigger] tail[m]) by {
                let km = lemma_key_at(key, items, ks, out, bound, high + m);
                if km <= kx {
                    lemma_below_grows(ks, km + 1, kx + 1);
                }
            }
            assert forall|m: int| 0 <= m < block.len() implies pred(#[trigger] block[m]) by {
                items.lemma_filter_pred(pred, m);
            }
            lemma_filter_keeps_none(head, pred);
            lemma_filter_keeps_none(tail, pred);
            lemma_filter_keeps_all(block, pred);
            assert(out.filter(pred) =~= block);
        } else {
            assert forall|m: int| 0 <= m < out.len() implies !pred(#[trigger] out[m]) by {
                let km = lemma_key_at(key, items, ks, out, bound, m);
            }
            assert forall|m: int| 0 <= m < items.len() implies !pred(#[trigger] items[m]) by {
                assert(ks[m] == key(items[m]));
            }
            lemma_filter_keeps_none(out, pred);
            lemma_filter_keeps_none(items, pred);
        }
    }
}

/// What the slots and the items still to be placed hold together: all the
/// items, and one empty slot for each item still to be placed.
spec fn nothing_lost<T>(slots: Seq<Option<T>>, rest: Seq<T>, items: Seq<T>) -> bool {
    slots.to_multiset().add(wrap(rest).to_multiset()) == wrap(items).to_multiset().add(
        nones::<T>(rest.len()).to_multiset(),
    )
}

proof fn lemma_nothing_lost_step<T>(slots: Seq<Option<T>>, rest: Seq<T>, items: Seq<T>, q: int)
    requires
        rest.len() > 0,
        0 <= q < slots.len(),
        slots[q] is None,
        nothing_lost(slots, rest, items),
    ensures
        nothing_lost(slots.update(q, Some(rest.last())), rest.drop_last(), items),
{
    broadcast use group_to_multiset_ensures;
    broadcast use vstd::seq_lib::to_multiset_update;

    let e = rest.last();
    let next = slots.update(q, Some(e));
    assert(wrap(rest) =~= wrap(rest.drop_last()).push(Some(e)));
    assert(nones::<T>(rest.len()) =~= nones::<T>(rest.drop_last().len()).push(None));
    assert(next.to_multiset() == slots.to_multiset().insert(Some(e)).remove(slots[q]));
    assert(slots.contains(slots[q]));
    assert(slots.to_multiset().count(None) > 0);
    let left = next.to_multiset().add(wrap(rest.drop_last()).to_multiset());
    let right = wrap(items).to_multiset().add(nones::<T>(rest.drop_last().len()).to_multiset());
    let old_left = slots.to_multiset().add(wrap(rest).to_multiset());
    let old_right = wrap(items).to_multiset().add(nones::<T>(rest.len()).to_multiset());
    assert(wrap(rest).to_multiset() == wrap(rest.drop_last()).to_multiset().insert(Some(e)));
    assert(nones::<T>(rest.len()).to_multiset() == nones::<T>(
        rest.drop_last().len(),
    ).to_multiset().insert(None));
    assert forall|v: Option<T>| left.count(v) == right.count(v) by {
        assert(old_left.count(v) == old_right.count(v));
    }
    assert(left =~= right);
}

proof fn lemma_count_wrapped<T>(s: Seq<T>, x: T)
    ensures
        wrap(s).to_multiset().count(Some(x)) == s.to_multiset().count(x),
        wrap(s).to_multiset().count(None) == 0,
    decreases s.len(),
{
    broadcast use group_to_multiset_ensures;

    if s.len() == 0 {
        assert(wrap(s) =~= Seq::<Option<T>>::empty());
        assert(wrap(s).to_multiset().len() == 0);
        assert(s.to_multiset().len() == 0);
    } else {
        lemma_count_wrapped(s.drop_last(), x);
        assert(s =~= s.drop_last().push(s.last()));
        assert(wrap(s) =~= wrap(s.drop_last()).push(Some(s.last())));
        assert(s.to_multiset() == s.drop_last().to_multiset().insert(s.last()));
        assert(wrap(s).to_multiset() == wrap(s.drop_last()).to_multiset().insert(Some(s.last())));
    }
}

/// Once nothing is left to be placed, every slot is filled, and the slots
/// hold a rearrangement of the items.
proof fn lemma_nothing_lost_end<T>(slots: Seq<Option<T>>, items: Seq<T>)
    requires
        nothing_lost(slots, Seq::<T>::empty(), items),
    ensures
        forall|q: int| 0 <= q < slots.len() ==> (#[trigger] slots[q]) is Some,
        forall|out: Seq<T>| #[trigger] holds_all(slots, out) ==> out.to_multiset() == items.to_multiset(),
{
    broadcast use group_to_multiset_ensures;

    assert(wrap(Seq::<T>::empty()) =~= Seq::<Option<T>>::empty());
    assert(nones::<T>(0) =~= Seq::<Option<T>>::empty());
    assert(Seq::<Option<T>>::empty().to_multiset().len() == 0);
    let old_left = slots.to_multiset().add(Seq::<Option<T>>::empty().to_multiset());
    let old_right = wrap(items).to_multiset().add(Seq::<Option<T>>::empty().to_multiset());
    assert forall|v: Option<T>| slots.to_multiset().count(v) == wrap(items).to_multiset().count(
        v,
    ) by {
        assert(old_left.count(v) == old_right.count(v));
        assert(Seq::<Option<T>>::empty().to_multiset().count(v) == 0);
    }
    assert(slots.to_multiset() =~= wrap(items).to_multiset());
    assert forall|q: int| 0 <= q < slots.len() implies (#[trigger] slots[q]) is Some by {
        if slots[q] is None {
            assert(slots.contains(slots[q]));
            assert(slots.to_multiset().count(None) > 0);
            lemma_count_wrapped(items, arbitrary());
        }
    }
    assert forall|out: Seq<T>| #[trigger] holds_all(slots, out) implies out.to_multiset()
        == items.to_multiset() by {
        assert(slots =~= wrap(out));
        assert forall|x: T| out.to_multiset().count(x) == items.to_multiset().count(x) by {
            lemma_count_wrapped(out, x);
            lemma_count_wrapped(items, x);
        }
        assert(out.to_multiset() =~= items.to_multiset());
    }
}

/// Sorts by key, keeping items of equal key in their input order. Fails
/// with `KEY_OVERFLOW`, before anything is moved, when a key is not below
/// `max_key`. The key of each element is asked for once.
pub fn counting_sort<T, F>(vec: Vec<T>, max_key: usize, key_of: F) -> (res: Result<
    Vec<T>,
    &'static str,
>) where F: Fn(&T) -> usize
    requires
        forall|i: int| 0 <= i < vec@.len() ==> #[trigger] key_of.requires((&vec@[i],)),
    ensures
        res matches Ok(out) ==> out@.to_multiset() == vec@.to_multiset() && out@.len() == vec@.len()
            && (vec@.len() <= 1 ==> out@ == vec@),
        res matches Err(message) ==> message == KEY_OVERFLOW,
        forall|key: spec_fn(T) -> usize| #[trigger]
            extracts(key_of, key) ==> (res is Err <==> exists|i: int|
                0 <= i < vec@.len() && #[trigger] key(vec@[i]) >= max_key),
        forall|key: spec_fn(T) -> usize| #[trigger]
            extracts(key_of, key) ==> (res matches Ok(out) ==> sorted_by(out@, by_key(key))
                && keeps_ties(by_key(key), vec@, out@)),
{
    let ghost items = vec@;
    let ghost bound = max_key as int;
    let n: usize = vec.len();
    let mut count: Vec<usize> = vec![0usize; max_key];
    let mut keys: Vec<usize> = Vec::with_capacity(n);
    assert forall|k: int| 0 <= k < bound implies count@[k] == among(keys@, k) by {
        reveal(Seq::filter);
    }
    let mut i: usize = 0;
    while i < n
        invariant
            items == vec@,
            n == items.len(),
            bound == max_key,
            i <= n,
            keys@.len() == i,
            count@.len() == max_key,
            forall|j: int| 0 <= j < n ==> #[trigger] key_of.requires((&items[j],)),
            forall|k: int| 0 <= k < bound ==> #[trigger] count@[k] == among(keys@, k),
            forall|j: int|
                0 <= j < i ==> #[trigger] keys@[j] < bound && key_of.ensures((&items[j],), keys@[j]),
        decreases n - i,
    {
        let key = key_of(&vec[i]);
        if key >= max_key {
            proof {
                assert forall|spec_key: spec_fn(T) -> usize| #[trigger]
                    extracts(key_of, spec_key) implies exists|j: int|
                    0 <= j < items.len() && #[trigger] spec_key(items[j]) >= max_key by {
                    assert(spec_key(items[i as int]) >= max_key);
                }
            }
            return Err(KEY_OVERFLOW);
        }
        proof {
            broadcast use Seq::lemma_filter_len_push;

            keys@.lemma_filter_len(is_key(key as int));
            assert forall|k: int| 0 <= k < bound implies among(keys@.push(key), k) == among(
                keys@,
                k,
            ) + (if k == key { 1int } else { 0int }) by {
                assert(is_key(k)(key) == (k == key));
            }
        }
        count[key] += 1;
        keys.push(key);
        i += 1;
    }
    let ghost ks = keys@;
    proof {
        lemma_below_bounds(ks, 0);
        lemma_below_next(ks, 0);
    }
    let mut k: usize = 1;
    while k < max_key
        invariant
            1 <= k,
            bound == max_key,
            ks.len() == n,
            count@.len() == max_key,
            forall|m: int| 0 <= m < k && m < bound ==> #[trigger] count@[m] == below(ks, m + 1),
            forall|m: int| k <= m < bound ==> #[trigger] count@[m] == among(ks, m),
        decreases max_key - k,
    {
        proof {
            lemma_below_next(ks, k as int);
            lemma_below_bounds(ks, k + 1);
        }
        count[k] += count[k - 1];
        k += 1;
    }
    let mut slots: Vec<Option<T>> = Vec::with_capacity(n);
    let mut filled: usize = 0;
    while filled < n
        invariant
            filled <= n,
            slots@ == nones::<T>(filled as nat),
        decreases n - filled,
    {
        slots.push(None);
        filled += 1;
        assert(slots@ =~= nones::<T>(filled as nat));
    }
    let mut vec = vec;
    let mut i: usize = n;
    proof {
        assert(ks.take(n as int) =~= ks);
        assert(items.take(n as int) =~= items);
        assert(slots@.to_multiset().add(wrap(items).to_multiset()) =~= wrap(
            items,
        ).to_multiset().add(nones::<T>(n as nat).to_multiset()));
        assert forall|m: int| 0 <= m < bound implies #[trigger] count@[m] == below(ks, m) + among(
            ks.take(n as int),
            m,
        ) by {
            lemma_below_next(ks, m);
        }
        assert(free_below(ks, slots@, n as int, bound)) by {
            assert forall|m: int, q: int|
                0 <= m < bound && #[trigger] in_free_part(ks, n as int, m, q) implies slots@[q]
                is None by {
                lemma_run_is_inside(ks, n as int, m);
            }
        }
        assert forall|key: spec_fn(T) -> usize| #[trigger] extracts(key_of, key) implies placed(
            key,
            items,
            ks,
            slots@,
            n as int,
            bound,
        ) by {
            lemma_placed_nothing(key, items, ks, slots@, bound);
        }
    }
    while i > 0
        invariant
            n == items.len(),
            bound == max_key,
            i <= n,
            vec@ == items.take(i as int),
            ks == keys@,
            ks.len() == n,
            slots@.len() == n,
            count@.len() == max_key,
            forall|j: int|
                0 <= j < n ==> #[trigger] ks[j] < bound && key_of.ensures((&items[j],), ks[j]),
            forall|m: int|
                0 <= m < bound ==> #[trigger] count@[m] == below(ks, m) + among(ks.take(i as int), m),
            free_below(ks, slots@, i as int, bound),
            nothing_lost(slots@, vec@, items),
            forall|key: spec_fn(T) -> usize| #[trigger]
                extracts(key_of, key) ==> placed(key, items, ks, slots@, i as int, bound),
        decreases i,
    {
        let ghost rest = vec@;
        let ghost before = slots@;
        let e = vec.pop().unwrap();
        let key = keys[i - 1];
        proof {
            lemma_free_step(ks, before, i as int, bound, e);
            lemma_among_take(ks, i - 1, key as int);
        }
        count[key] -= 1;
        let q = count[key];
        slots[q] = Some(e);
        proof {
            assert(e == items[i - 1]);
            assert(vec@ =~= items.take(i - 1));
            lemma_nothing_lost_step(before, rest, items, q as int);
            assert forall|m: int| 0 <= m < bound implies #[trigger] count@[m] == below(ks, m)
                + among(ks.take(i - 1), m) by {
                lemma_among_take(ks, i - 1, m);
            }
            assert forall|spec_key: spec_fn(T) -> usize| #[trigger]
                extracts(key_of, spec_key) implies placed(
                spec_key,
                items,
                ks,
                slots@,
                i - 1,
                bound,
            ) by {
                assert(keyed(spec_key, items, ks, bound));
                lemma_place(spec_key, items, ks, before, i as int, bound);
            }
        }
        i -= 1;
    }
    proof {
        assert(vec@ =~= Seq::<T>::empty());
        lemma_nothing_lost_end(slots@, items);
    }
    let out = unwrap_all(slots);
    proof {
        assert(slots@ =~= wrap(out@));
        if items.len() <= 1 {
            lemma_short_rearranged(items, out@);
        }
        assert forall|key: spec_fn(T) -> usize| #[trigger] extracts(key_of, key) implies sorted_by(
            out@,
            by_key(key),
        ) && keeps_ties(by_key(key), items, out@) && !(exists|j: int|
            0 <= j < items.len() && #[trigger] key(items[j]) >= max_key) by {
            assert(keyed(key, items, ks, bound));
            lemma_all_placed(key, items, ks, out@, bound);
            assert forall|j: int| 0 <= j < items.len() implies key(items[j]) < max_key by {
                assert(ks[j] == key(items[j]));
            }
        }
    }
    Ok(out)
}

} // verus!
