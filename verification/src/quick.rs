//! Quicksort with the last entry of each range as its pivot.

use vstd::prelude::*;
use vstd::relations::{sorted_by, transitive};
use vstd::seq_lib::lemma_multiset_commutative;
use crate::order::{
    answers_all, decides, lemma_orders_rearranged, lemma_orders_within, not_after, orders,
    strict_weak_order,
};
use crate::sequences::lemma_all_rearranged;
use crate::slots::{
    lemma_rearranged_whole, lemma_swapped_within, rearranged_within, swap_entries, swapped,
};
use crate::sorter::CompareSorter;

verus! {

/// Sorts the borrowed sequence by partitioning around the last entry of each
/// range: O(n log n) on average, O(n^2) at worst, ties in no particular order.
pub struct QuickSorter<'a, S>(pub &'a mut S);

/// The entries of `first..end` are split around the pivot at `divider`:
/// exactly those before it may stand before the pivot.
pub open spec fn split_around<T>(
    rel: spec_fn(T, T) -> bool,
    s: Seq<T>,
    first: int,
    divider: int,
    end: int,
) -> bool {
    &&& first <= divider < end
    &&& forall|k: int| first <= k < divider ==> rel(#[trigger] s[k], s[divider])
    &&& forall|k: int| divider < k < end ==> !rel(#[trigger] s[k], s[divider])
}

/// What the scan of a partition knows after it has looked at `first..j`:
/// the entries found to stand before the pivot have been gathered in `first..i`.
spec fn scanned<T>(
    rel: spec_fn(T, T) -> bool,
    input: Seq<T>,
    now: Seq<T>,
    first: int,
    i: int,
    j: int,
    last: int,
) -> bool {
    &&& forall|k: int| first <= k < i ==> rel(#[trigger] now[k], input[last])
    &&& forall|k: int| i <= k < j ==> !rel(#[trigger] now[k], input[last])
    &&& (forall|k: int| first <= k < j ==> rel(#[trigger] input[k], input[last])) ==> i == j && now
        == input
}

proof fn lemma_scan_next<T>(
    rel: spec_fn(T, T) -> bool,
    input: Seq<T>,
    now: Seq<T>,
    first: int,
    i: int,
    j: int,
    last: int,
)
    requires
        0 <= first <= i <= j < last < now.len(),
        now.len() == input.len(),
        scanned(rel, input, now, first, i, j, last),
        forall|k: int| j <= k <= last ==> #[trigger] now[k] == input[k],
    ensures
        rel(now[j], now[last]) ==> scanned(rel, input, swapped(now, i, j), first, i + 1, j + 1, last),
        !rel(now[j], now[last]) ==> scanned(rel, input, now, first, i, j + 1, last),
{
    if rel(now[j], now[last]) {
        let next = swapped(now, i, j);
        if forall|k: int| first <= k < j + 1 ==> rel(#[trigger] input[k], input[last]) {
            assert(i == j && now == input);
            assert(next =~= now);
        }
    } else {
        assert(!rel(input[j], input[last]));
    }
}

/// Partitions `first..end` around its last entry and returns the place where
/// that pivot comes to rest. A range whose entries may all stand before the
/// pivot is left exactly as it was.
pub fn partition<T, F: Fn(&T, &T) -> bool>(
    vec: &mut Vec<T>,
    compare: &F,
    first: usize,
    end: usize,
) -> (divider: usize)
    requires
        answers_all(*compare),
        first < end <= old(vec)@.len(),
    ensures
        first <= divider < end,
        rearranged_within(old(vec)@, final(vec)@, first as int, end as int),
        final(vec)@[divider as int] == old(vec)@[end - 1],
        forall|rel: spec_fn(T, T) -> bool| #[trigger]
            decides(*compare, rel) ==> split_around(
                rel,
                final(vec)@,
                first as int,
                divider as int,
                end as int,
            ) && ((forall|k: int|
                first <= k < end - 1 ==> rel(#[trigger] old(vec)@[k], old(vec)@[end - 1]))
                ==> final(vec)@ == old(vec)@ && divider == end - 1),
{
    let ghost input = vec@;
    let last: usize = end - 1;
    let mut i: usize = first;
    let mut j: usize = first;
    while j < last
        invariant
            answers_all(*compare),
            first <= i <= j <= last,
            last == end - 1,
            end <= input.len(),
            rearranged_within(input, vec@, first as int, end as int),
            forall|k: int| j <= k < end ==> #[trigger] vec@[k] == input[k],
            forall|rel: spec_fn(T, T) -> bool| #[trigger]
                decides(*compare, rel) ==> scanned(
                    rel,
                    input,
                    vec@,
                    first as int,
                    i as int,
                    j as int,
                    last as int,
                ),
        decreases last - j,
    {
        let ghost before = vec@;
        let goes_low = compare(&vec[j], &vec[last]);
        if goes_low {
            swap_entries(vec, i, j);
            proof {
                lemma_swapped_within(before, first as int, end as int, i as int, j as int);
            }
        }
        proof {
            assert forall|rel: spec_fn(T, T) -> bool| #[trigger]
                decides(*compare, rel) implies scanned(
                rel,
                input,
                vec@,
                first as int,
                if goes_low { i + 1 } else { i as int },
                j + 1,
                last as int,
            ) by {
                lemma_scan_next(rel, input, before, first as int, i as int, j as int, last as int);
            }
        }
        if goes_low {
            i += 1;
        }
        j += 1;
    }
    let ghost before = vec@;
    swap_entries(vec, i, last);
    proof {
        lemma_swapped_within(before, first as int, end as int, i as int, last as int);
        assert forall|rel: spec_fn(T, T) -> bool| #[trigger] decides(*compare, rel) implies split_around(
            rel,
            vec@,
            first as int,
            i as int,
            end as int,
        ) && ((forall|k: int| first <= k < end - 1 ==> rel(#[trigger] input[k], input[end - 1]))
            ==> vec@ == input && i == end - 1) by {
            assert(scanned(rel, input, before, first as int, i as int, last as int, last as int));
            if forall|k: int| first <= k < end - 1 ==> rel(#[trigger] input[k], input[end - 1]) {
                assert(vec@ =~= before);
            }
        }
    }
    i
}

proof fn lemma_quick_sorted<T>(
    rel: spec_fn(T, T) -> bool,
    split: Seq<T>,
    low: Seq<T>,
    done: Seq<T>,
    first: int,
    divider: int,
    end: int,
)
    requires
        0 <= first <= divider < end <= split.len(),
        orders(rel, split.subrange(first, end)),
        split_around(rel, split, first, divider, end),
        rearranged_within(split, low, first, divider),
        rearranged_within(low, done, divider + 1, end),
        sorted_by(low.subrange(first, divider), rel),
        sorted_by(done.subrange(divider + 1, end), rel),
    ensures
        sorted_by(done.subrange(first, end), rel),
{
    let part = split.subrange(first, end);
    assert forall|k: int| divider < k < end implies rel(split[divider], #[trigger] split[k]) by {
        assert(part[k - first] == split[k] && part[divider - first] == split[divider]);
        assert(rel(part[k - first], part[divider - first]) || rel(
            part[divider - first],
            part[k - first],
        ));
    }
    lemma_quick_in_order(rel, split, low, done, first, divider, end);
}

proof fn lemma_range_rearranged<T>(
    split: Seq<T>,
    low: Seq<T>,
    done: Seq<T>,
    first: int,
    divider: int,
    end: int,
)
    requires
        0 <= first <= divider < end <= split.len(),
        rearranged_within(split, low, first, divider),
        rearranged_within(low, done, divider + 1, end),
    ensures
        rearranged_within(split, done, first, end),
{
    broadcast use lemma_multiset_commutative;

    assert(done.subrange(first, end) =~= done.subrange(first, divider) + done.subrange(
        divider,
        divider + 1,
    ) + done.subrange(divider + 1, end));
    assert(split.subrange(first, end) =~= split.subrange(first, divider) + split.subrange(
        divider,
        divider + 1,
    ) + split.subrange(divider + 1, end));
    assert(done.subrange(first, divider) =~= low.subrange(first, divider));
    assert(done.subrange(divider, divider + 1) =~= split.subrange(divider, divider + 1));
    assert(low.subrange(divider + 1, end) =~= split.subrange(divider + 1, end));
}

/// Two sorted parts around a pivot that stands between them make a sorted
/// whole.
proof fn lemma_quick_in_order<T>(
    rel: spec_fn(T, T) -> bool,
    split: Seq<T>,
    low: Seq<T>,
    done: Seq<T>,
    first: int,
    divider: int,
    end: int,
)
    requires
        transitive(rel),
        0 <= first <= divider < end <= split.len(),
        forall|k: int| first <= k < divider ==> rel(#[trigger] split[k], split[divider]),
        forall|k: int| divider < k < end ==> rel(split[divider], #[trigger] split[k]),
        rearranged_within(split, low, first, divider),
        rearranged_within(low, done, divider + 1, end),
        sorted_by(low.subrange(first, divider), rel),
        sorted_by(done.subrange(divider + 1, end), rel),
    ensures
        sorted_by(done.subrange(first, end), rel),
{
    let pivot = split[divider];
    let part = done.subrange(first, end);
    assert(done[divider] == low[divider] && low[divider] == pivot);
    let before_pivot = |x: T| rel(x, pivot);
    assert forall|k: int| 0 <= k < split.subrange(first, divider).len() implies before_pivot(
        #[trigger] split.subrange(first, divider)[k],
    ) by {
        assert(split.subrange(first, divider)[k] == split[first + k]);
    }
    lemma_all_rearranged(split.subrange(first, divider), low.subrange(first, divider), before_pivot);
    let after_pivot = |x: T| rel(pivot, x);
    assert(low.subrange(divider + 1, end) =~= split.subrange(divider + 1, end));
    assert forall|k: int| 0 <= k < low.subrange(divider + 1, end).len() implies after_pivot(
        #[trigger] low.subrange(divider + 1, end)[k],
    ) by {
        assert(low.subrange(divider + 1, end)[k] == split[divider + 1 + k]);
    }
    lemma_all_rearranged(low.subrange(divider + 1, end), done.subrange(divider + 1, end), after_pivot);
    assert forall|a: int, b: int| 0 <= a < b < part.len() implies #[trigger] rel(part[a], part[b]) by {
        let d = divider - first;
        assert(part[d] == pivot);
        if b < d {
            assert(part[a] == low.subrange(first, divider)[a]);
            assert(part[b] == low.subrange(first, divider)[b]);
        } else if a > d {
            assert(part[a] == done.subrange(divider + 1, end)[a - d - 1]);
            assert(part[b] == done.subrange(divider + 1, end)[b - d - 1]);
        } else {
            if a < d {
                assert(part[a] == low.subrange(first, divider)[a]);
                assert(before_pivot(low.subrange(first, divider)[a]));
            }
            if b > d {
                assert(part[b] == done.subrange(divider + 1, end)[b - d - 1]);
                assert(after_pivot(done.subrange(divider + 1, end)[b - d - 1]));
            }
        }
    }
}

proof fn lemma_sorted_stays<T>(
    rel: spec_fn(T, T) -> bool,
    input: Seq<T>,
    first: int,
    end: int,
)
    requires
        0 <= first < end <= input.len(),
        sorted_by(input.subrange(first, end), rel),
    ensures
        forall|k: int| first <= k < end - 1 ==> rel(#[trigger] input[k], input[end - 1]),
        sorted_by(input.subrange(first, end - 1), rel),
{
    let part = input.subrange(first, end);
    assert forall|k: int| first <= k < end - 1 implies rel(#[trigger] input[k], input[end - 1]) by {
        assert(rel(part[k - first], part[end - 1 - first]));
    }
    assert forall|a: int, b: int| 0 <= a < b < end - 1 - first implies #[trigger] rel(
        input.subrange(first, end - 1)[a],
        input.subrange(first, end - 1)[b],
    ) by {
        assert(rel(part[a], part[b]));
    }
}

proof fn lemma_parts_ordered<T>(
    rel: spec_fn(T, T) -> bool,
    input: Seq<T>,
    split: Seq<T>,
    first: int,
    divider: int,
    end: int,
)
    requires
        0 <= first <= divider < end <= input.len(),
        orders(rel, input.subrange(first, end)),
        rearranged_within(input, split, first, end),
    ensures
        orders(rel, split.subrange(first, end)),
        orders(rel, split.subrange(first, divider)),
        orders(rel, split.subrange(divider + 1, end)),
{
    let part = split.subrange(first, end);
    lemma_orders_rearranged(rel, input.subrange(first, end), part);
    lemma_orders_within(rel, part, 0, divider - first);
    lemma_orders_within(rel, part, divider - first + 1, end - first);
    assert(part.subrange(0, divider - first) =~= split.subrange(first, divider));
    assert(part.subrange(divider - first + 1, end - first) =~= split.subrange(divider + 1, end));
}

/// Sorts `first..end` in place and touches nothing outside it. A range
/// that is sorted already is left exactly as it was.
pub fn quick_sort<T, F: Fn(&T, &T) -> bool>(vec: &mut Vec<T>, compare: &F, first: usize, end: usize)
    requires
        answers_all(*compare),
        first <= end <= old(vec)@.len(),
    ensures
        rearranged_within(old(vec)@, final(vec)@, first as int, end as int),
        forall|rel: spec_fn(T, T) -> bool|
            #[trigger] decides(*compare, rel) && orders(
                rel,
                old(vec)@.subrange(first as int, end as int),
            ) ==> sorted_by(final(vec)@.subrange(first as int, end as int), rel),
        forall|rel: spec_fn(T, T) -> bool|
            #[trigger] decides(*compare, rel) && transitive(rel) && sorted_by(
                old(vec)@.subrange(first as int, end as int),
                rel,
            ) ==> final(vec)@ == old(vec)@,
        forall|rel: spec_fn(T, T) -> bool|
            #[trigger] decides(*compare, rel) && strict_weak_order(rel) ==> sorted_by(
                final(vec)@.subrange(first as int, end as int),
                not_after(rel),
            ),
    decreases end - first,
{
    let ghost input = vec@;
    if end - first > 1 {
        let divider = partition(vec, compare, first, end);
        let ghost split = vec@;
        quick_sort(vec, compare, first, divider);
        let ghost low = vec@;
        quick_sort(vec, compare, divider + 1, end);
        proof {
            lemma_range_rearranged(split, low, vec@, first as int, divider as int, end as int);
            assert(low.subrange(divider + 1, end as int) =~= split.subrange(divider + 1, end as int));
            assert forall|rel: spec_fn(T, T) -> bool| #[trigger]
                decides(*compare, rel) && orders(
                    rel,
                    input.subrange(first as int, end as int),
                ) implies sorted_by(vec@.subrange(first as int, end as int), rel) by {
                lemma_parts_ordered(rel, input, split, first as int, divider as int, end as int);
                lemma_quick_sorted(rel, split, low, vec@, first as int, divider as int, end as int);
            }
            assert forall|rel: spec_fn(T, T) -> bool| #[trigger]
                decides(*compare, rel) && strict_weak_order(rel) implies sorted_by(
                vec@.subrange(first as int, end as int),
                not_after(rel),
            ) by {
                let weak = not_after(rel);
                assert(split_around(rel, split, first as int, divider as int, end as int));
                assert forall|k: int| first <= k < divider implies weak(
                    #[trigger] split[k],
                    split[divider as int],
                ) by {
                    assert(rel(split[k], split[divider as int]));
                }
                assert forall|k: int| divider < k < end implies weak(
                    split[divider as int],
                    #[trigger] split[k],
                ) by {
                    assert(!rel(split[k], split[divider as int]));
                }
                lemma_quick_in_order(
                    weak,
                    split,
                    low,
                    vec@,
                    first as int,
                    divider as int,
                    end as int,
                );
            }
            assert forall|rel: spec_fn(T, T) -> bool| #[trigger]
                decides(*compare, rel) && transitive(rel) && sorted_by(
                    input.subrange(first as int, end as int),
                    rel,
                ) implies vec@ == input by {
                lemma_sorted_stays(rel, input, first as int, end as int);
                assert(split == input && divider == end - 1);
                assert(low == input);
                assert(sorted_by(input.subrange(divider + 1, end as int), rel));
            }
        }
    }
}

impl<'a, Elem> CompareSorter for QuickSorter<'a, Vec<Elem>> {
    type Element = Elem;

    open spec fn elements(&self) -> Seq<Elem> {
        self.0@
    }

    /// Besides what every sorter promises, a sequence that is sorted already
    /// is left exactly as it was, and the sorter still lends from the same
    /// sequence afterwards.
    fn sort_by<F: Fn(&Elem, &Elem) -> bool>(&mut self, compare: F)
        ensures
            forall|rel: spec_fn(Elem, Elem) -> bool|
                #[trigger] decides(compare, rel) && transitive(rel) && sorted_by(old(self).0@, rel)
                    ==> final(self).0@ == old(self).0@,
            *final(final(self).0) == *final(old(self).0),
    {
        let ghost input = self.0@;
        let len: usize = self.0.len();
        if len < 2 {
            return ;
        }
        assert(input.subrange(0, len as int) =~= input);
        quick_sort(&mut *self.0, &compare, 0, len);
        proof {
            assert(self.0@.subrange(0, len as int) =~= self.0@);
            lemma_rearranged_whole(input, self.0@, 0, len as int);
        }
    }
}

} // verus!
