//! Moving elements that cannot be copied: swapping two entries of a vector,
//! and vectors of slots from which an element is taken exactly once.

use vstd::prelude::*;

verus! {

/// What `s` holds after its entries at `i` and `j` have changed places.
pub open spec fn swapped<T>(s: Seq<T>, i: int, j: int) -> Seq<T> {
    s.update(i, s[j]).update(j, s[i])
}

/// Exchanges the entries at `i` and `j`.
pub fn swap_entries<T>(v: &mut Vec<T>, i: usize, j: usize)
    requires
        i < old(v)@.len(),
        j < old(v)@.len(),
    ensures
        final(v)@ == swapped(old(v)@, i as int, j as int),
{
    if i < j {
        let (low, high) = v.split_at_mut(j);
        core::mem::swap(&mut low[i], &mut high[0]);
        assert(v@ =~= swapped(old(v)@, i as int, j as int));
    } else if j < i {
        let (low, high) = v.split_at_mut(i);
        core::mem::swap(&mut low[j], &mut high[0]);
        assert(v@ =~= swapped(old(v)@, i as int, j as int));
    } else {
        assert(v@ =~= swapped(old(v)@, i as int, j as int));
    }
}

/// Exchanging two entries rearranges a sequence and loses nothing.
pub proof fn lemma_swapped_multiset<T>(s: Seq<T>, i: int, j: int)
    requires
        0 <= i < s.len(),
        0 <= j < s.len(),
    ensures
        swapped(s, i, j).to_multiset() == s.to_multiset(),
        swapped(s, i, j).len() == s.len(),
{
    broadcast use vstd::seq_lib::group_to_multiset_ensures;
    broadcast use vstd::seq_lib::to_multiset_update;

    let mid = s.update(i, s[j]);
    assert(s.contains(s[i]) && s.contains(s[j]));
    assert(s.to_multiset().count(s[i]) > 0 && s.to_multiset().count(s[j]) > 0);
    assert(mid.to_multiset() == s.to_multiset().insert(s[j]).remove(s[i]));
    assert(mid[j] == s[j]);
    assert(swapped(s, i, j).to_multiset() == mid.to_multiset().insert(s[i]).remove(mid[j]));
    assert(swapped(s, i, j).to_multiset() =~= s.to_multiset());
}

/// `after` differs from `before` only by a rearrangement inside `from..to`.
pub open spec fn rearranged_within<T>(before: Seq<T>, after: Seq<T>, from: int, to: int) -> bool {
    &&& after.len() == before.len()
    &&& forall|k: int| 0 <= k < from || to <= k < before.len() ==> #[trigger] after[k] == before[k]
    &&& after.subrange(from, to).to_multiset() == before.subrange(from, to).to_multiset()
}

/// Exchanging two entries inside `from..to` rearranges that part and leaves
/// the rest as it is.
pub proof fn lemma_swapped_within<T>(s: Seq<T>, from: int, to: int, i: int, j: int)
    requires
        0 <= from <= i < to <= s.len(),
        from <= j < to,
    ensures
        rearranged_within(s, swapped(s, i, j), from, to),
{
    lemma_swapped_multiset(s.subrange(from, to), i - from, j - from);
    assert(swapped(s, i, j).subrange(from, to) =~= swapped(s.subrange(from, to), i - from, j - from));
}

/// A rearrangement inside `from..to` is one of the whole sequence.
pub proof fn lemma_rearranged_whole<T>(before: Seq<T>, after: Seq<T>, from: int, to: int)
    requires
        0 <= from <= to <= before.len(),
        rearranged_within(before, after, from, to),
    ensures
        after.to_multiset() == before.to_multiset(),
{
    broadcast use vstd::seq_lib::lemma_multiset_commutative;

    assert(after.subrange(0, from) =~= before.subrange(0, from));
    assert(after.subrange(to, after.len() as int) =~= before.subrange(to, before.len() as int));
    assert(after =~= after.subrange(0, from) + after.subrange(from, to) + after.subrange(
        to,
        after.len() as int,
    ));
    assert(before =~= before.subrange(0, from) + before.subrange(from, to) + before.subrange(
        to,
        before.len() as int,
    ));
}

/// Every slot holds an element, and the elements are those of `items` in order.
pub open spec fn holds_all<T>(slots: Seq<Option<T>>, items: Seq<T>) -> bool {
    &&& slots.len() == items.len()
    &&& forall|k: int| 0 <= k < items.len() ==> #[trigger] slots[k] == Some(items[k])
}

/// Moves every element into a slot of its own, in order.
pub fn wrap_all<T>(v: Vec<T>) -> (slots: Vec<Option<T>>)
    ensures
        holds_all(slots@, v@),
{
    let mut slots: Vec<Option<T>> = Vec::with_capacity(v.len());
    for e in it: v
        invariant
            slots@.len() == it.index(),
            forall|k: int| 0 <= k < slots@.len() ==> #[trigger] slots@[k] == Some(it.seq()[k]),
    {
        slots.push(Some(e));
    }
    slots
}

/// Moves every element out of its slot, in order.
pub fn unwrap_all<T>(slots: Vec<Option<T>>) -> (v: Vec<T>)
    requires
        forall|k: int| 0 <= k < slots@.len() ==> (#[trigger] slots@[k]) is Some,
    ensures
        holds_all(slots@, v@),
{
    let mut v: Vec<T> = Vec::with_capacity(slots.len());
    for slot in it: slots
        invariant
            it.seq() == slots@,
            forall|k: int| 0 <= k < slots@.len() ==> (#[trigger] slots@[k]) is Some,
            holds_all(slots@.subrange(0, it.index() as int), v@),
    {
        assert(slots@[it.index() as int] is Some);
        v.push(slot.unwrap());
        assert forall|k: int| 0 <= k < v@.len() implies #[trigger] slots@.subrange(
            0,
            it.index() + 1,
        )[k] == Some(v@[k]) by {
            if k < it.index() {
                assert(slots@.subrange(0, it.index() as int)[k] == Some(v@[k]));
            }
        }
    }
    assert(slots@.subrange(0, slots@.len() as int) =~= slots@);
    v
}

} // verus!
