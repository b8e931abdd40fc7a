//! Heap sort over a binary max-heap laid out in the sequence itself: the
//! children of the entry at `i` are at `2i + 1` and `2i + 2`.

use vstd::prelude::*;
use vstd::relations::{sorted_by, transitive};
use crate::order::{
    answers_all, decides, lemma_comparable_in, lemma_orders_rearranged, lemma_strict_answers,
    lemma_untied_sorted_unique, not_after, orders, strict_weak_order, ties_are_equal,
};
use crate::sequences::lemma_all_rearranged;
use crate::slots::{
    lemma_rearranged_whole, lemma_swapped_within, rearranged_within, swap_entries, swapped,
};
use crate::sorter::CompareSorter;

verus! {

/// Sorts the borrowed sequence through a binary max-heap: O(n log n), in
/// place, ties in no particular order.
pub struct BiheapSorter<'a, S>(pub &'a mut S);

/// The position of the parent of the entry at `child`.
pub open spec fn parent_of(child: int) -> int {
    (child - 1) / 2
}

/// Among the first `size` entries, every entry whose parent is at `low` or
/// later may stand before its parent: no child is greater than its parent.
pub open spec fn heap_from<T>(rel: spec_fn(T, T) -> bool, s: Seq<T>, low: int, size: int) -> bool {
    forall|c: int| 0 < c < size && low <= parent_of(c) ==> rel(#[trigger] s[c], s[parent_of(c)])
}

/// Every entry of a heap may stand before the root.
pub proof fn lemma_root_is_greatest<T>(rel: spec_fn(T, T) -> bool, s: Seq<T>, size: int, k: int)
    requires
        transitive(rel),
        heap_from(rel, s, 0, size),
        0 < k < size <= s.len(),
    ensures
        rel(s[k], s[0]),
    decreases k,
{
    let p = parent_of(k);
    assert(rel(s[k], s[p]));
    if p > 0 {
        lemma_root_is_greatest(rel, s, size, p);
    }
}

/// `k` lies in the subtree of `root`: it is `root`, or its parent lies there.
pub open spec fn in_subtree(root: int, k: int) -> bool
    decreases k,
{
    if k <= root || k <= 0 {
        k == root
    } else {
        in_subtree(root, parent_of(k))
    }
}

/// Among the first `size` entries, the subtree of `root` is a heap: every
/// entry of it but `root` may stand before its parent.
pub open spec fn heap_under<T>(rel: spec_fn(T, T) -> bool, s: Seq<T>, root: int, size: int) -> bool {
    forall|c: int|
        0 < c < size && c != root && #[trigger] in_subtree(root, c) ==> rel(s[c], s[parent_of(c)])
}

/// `after` is `before` but for the entries of the subtree of `root` among
/// the first `size`.
pub open spec fn same_outside<T>(before: Seq<T>, after: Seq<T>, root: int, size: int) -> bool {
    &&& after.len() == before.len()
    &&& forall|k: int|
        0 <= k < before.len() && !(k < size && in_subtree(root, k)) ==> #[trigger] after[k]
            == before[k]
}

/// The entry on top of the subtree of `root` is one of the three that were
/// topmost: the root or one of its children.
pub open spec fn tops<T>(before: Seq<T>, after: Seq<T>, root: int, size: int) -> bool {
    ||| after[root] == before[root]
    ||| 2 * root + 1 < size && after[root] == before[2 * root + 1]
    ||| 2 * root + 2 < size && after[root] == before[2 * root + 2]
}

/// What stands below the root of a subtree stands at or below one of its
/// children, with its parent in the subtree.
pub proof fn lemma_subtree_below(root: int, c: int)
    requires
        0 <= root,
        in_subtree(root, c),
        c != root,
    ensures
        c >= 2 * root + 1,
        in_subtree(root, parent_of(c)),
        in_subtree(2 * root + 1, c) || in_subtree(2 * root + 2, c),
    decreases c,
{
    let p = parent_of(c);
    if p != root {
        lemma_subtree_below(root, p);
    }
}

/// The subtree of a child lies in the subtree of its parent.
pub proof fn lemma_subtree_up(root: int, child: int, c: int)
    requires
        0 <= root,
        child == 2 * root + 1 || child == 2 * root + 2,
        in_subtree(child, c),
    ensures
        in_subtree(root, c),
        c != root,
    decreases c,
{
    reveal_with_fuel(in_subtree, 3);
    if c != child {
        lemma_subtree_up(root, child, parent_of(c));
    }
}

/// The subtrees of the two children have nothing in common.
pub proof fn lemma_subtrees_apart(root: int, c: int)
    requires
        0 <= root,
    ensures
        !(in_subtree(2 * root + 1, c) && in_subtree(2 * root + 2, c)),
    decreases c,
{
    reveal_with_fuel(in_subtree, 3);
    if c > 2 * root + 2 {
        lemma_subtrees_apart(root, parent_of(c));
    }
}

/// Everything belongs to the subtree of the first entry.
pub proof fn lemma_all_under_first(c: int)
    requires
        0 <= c,
    ensures
        in_subtree(0, c),
    decreases c,
{
    if c > 0 {
        lemma_all_under_first(parent_of(c));
    }
}

/// A heap splits into the heaps under the children of its root, neither
/// child greater than the root.
pub proof fn lemma_heap_parts<T>(rel: spec_fn(T, T) -> bool, s: Seq<T>, root: int, size: int)
    requires
        0 <= root,
        heap_under(rel, s, root, size),
    ensures
        heap_under(rel, s, 2 * root + 1, size),
        heap_under(rel, s, 2 * root + 2, size),
        2 * root + 1 < size ==> rel(s[2 * root + 1], s[root]),
        2 * root + 2 < size ==> rel(s[2 * root + 2], s[root]),
{
    assert forall|c: int|
        0 < c < size && c != 2 * root + 1 && #[trigger] in_subtree(2 * root + 1, c) implies rel(
        s[c],
        s[parent_of(c)],
    ) by {
        lemma_subtree_up(root, 2 * root + 1, c);
    }
    assert forall|c: int|
        0 < c < size && c != 2 * root + 2 && #[trigger] in_subtree(2 * root + 2, c) implies rel(
        s[c],
        s[parent_of(c)],
    ) by {
        lemma_subtree_up(root, 2 * root + 2, c);
    }
    reveal_with_fuel(in_subtree, 3);
    if 2 * root + 1 < size {
        assert(in_subtree(root, 2 * root + 1));
    }
    if 2 * root + 2 < size {
        assert(in_subtree(root, 2 * root + 2));
    }
}

/// Two heaps under a root that neither child is greater than make a heap.
pub proof fn lemma_heap_joined<T>(rel: spec_fn(T, T) -> bool, s: Seq<T>, root: int, size: int)
    requires
        0 <= root,
        heap_under(rel, s, 2 * root + 1, size),
        heap_under(rel, s, 2 * root + 2, size),
        2 * root + 1 < size ==> rel(s[2 * root + 1], s[root]),
        2 * root + 2 < size ==> rel(s[2 * root + 2], s[root]),
    ensures
        heap_under(rel, s, root, size),
{
    assert forall|c: int| 0 < c < size && c != root && #[trigger] in_subtree(root, c) implies rel(
        s[c],
        s[parent_of(c)],
    ) by {
        lemma_subtree_below(root, c);
    }
}

/// A heap stays one where nothing of its subtree changes.
pub proof fn lemma_heap_same<T>(
    rel: spec_fn(T, T) -> bool,
    before: Seq<T>,
    after: Seq<T>,
    root: int,
    size: int,
)
    requires
        0 <= root,
        size <= before.len(),
        after.len() == before.len(),
        heap_under(rel, before, root, size),
        forall|k: int| 0 <= k < size && in_subtree(root, k) ==> #[trigger] after[k] == before[k],
    ensures
        heap_under(rel, after, root, size),
{
    assert forall|c: int| 0 < c < size && c != root && #[trigger] in_subtree(root, c) implies rel(
        after[c],
        after[parent_of(c)],
    ) by {
        lemma_subtree_below(root, c);
        assert(after[c] == before[c]);
        assert(after[parent_of(c)] == before[parent_of(c)]);
    }
}

/// The greater child has changed places with the root, and its subtree has
/// been made a heap again with one of its three topmost entries on top:
/// the whole subtree is a heap.
proof fn lemma_sunk_under<T>(
    rel: spec_fn(T, T) -> bool,
    input: Seq<T>,
    done: Seq<T>,
    i: int,
    child: int,
    size: int,
)
    requires
        0 <= i,
        child == 2 * i + 1 || child == 2 * i + 2,
        child < size <= input.len(),
        heap_under(rel, input, 2 * i + 1, size),
        heap_under(rel, input, 2 * i + 2, size),
        rel(input[i], input[child]),
        2 * i + 1 < size ==> rel(input[2 * i + 1], input[child]) || child == 2 * i + 1,
        2 * i + 2 < size ==> rel(input[2 * i + 2], input[child]) || child == 2 * i + 2,
        same_outside(swapped(input, i, child), done, child, size),
        heap_under(rel, done, child, size),
        tops(swapped(input, i, child), done, child, size),
    ensures
        heap_under(rel, done, i, size),
{
    let sunk = swapped(input, i, child);
    let other = if child == 2 * i + 1 {
        2 * i + 2
    } else {
        2 * i + 1
    };
    assert(!in_subtree(child, i));
    assert(done[i] == sunk[i]);
    lemma_heap_parts(rel, input, child, size);
    assert(rel(done[child], done[i])) by {
        assert(in_subtree(child, child));
    }
    assert forall|k: int| 0 <= k < size && in_subtree(other, k) implies #[trigger] done[k]
        == input[k] by {
        lemma_subtrees_apart(i, k);
        assert(done[k] == sunk[k]);
    }
    lemma_heap_same(rel, input, done, other, size);
    if other < size {
        assert(in_subtree(other, other));
    }
    lemma_heap_joined(rel, done, i, size);
}

/// Sinking changes nothing outside the subtree, whether it stops at the
/// child or goes on below it.
proof fn lemma_sunk_outside<T>(input: Seq<T>, done: Seq<T>, i: int, child: int, size: int)
    requires
        0 <= i,
        child == 2 * i + 1 || child == 2 * i + 2,
        child < size <= input.len(),
        same_outside(swapped(input, i, child), done, child, size),
    ensures
        same_outside(input, done, i, size),
        done[i] == input[child],
{
    let sunk = swapped(input, i, child);
    assert(in_subtree(i, i) && in_subtree(i, child));
    assert(!in_subtree(child, i));
    assert forall|k: int| 0 <= k < input.len() && !(k < size && in_subtree(i, k)) implies #[trigger] done[k]
        == input[k] by {
        if k < size && in_subtree(child, k) {
            lemma_subtree_up(i, child, k);
        }
        assert(done[k] == sunk[k]);
    }
}

/// Which of the three topmost entries is the greatest, as the answers of
/// the two comparisons tell it.
proof fn lemma_greatest_of_three<T>(
    rel: spec_fn(T, T) -> bool,
    s: Seq<T>,
    i: int,
    size: int,
    left_greater: bool,
    right_greater: bool,
    largest: int,
)
    requires
        transitive(rel),
        0 <= i,
        2 * i + 1 < size <= s.len(),
        left_greater ==> rel(s[i], s[2 * i + 1]),
        !left_greater ==> rel(s[2 * i + 1], s[i]),
        2 * i + 2 < size && right_greater ==> rel(
            s[if left_greater { 2 * i + 1 } else { i }],
            s[2 * i + 2],
        ),
        2 * i + 2 < size && !right_greater ==> rel(
            s[2 * i + 2],
            s[if left_greater { 2 * i + 1 } else { i }],
        ),
        largest == (if 2 * i + 2 < size && right_greater {
            2 * i + 2
        } else if left_greater {
            2 * i + 1
        } else {
            i
        }),
    ensures
        largest != i ==> rel(s[i], s[largest]),
        largest != 2 * i + 1 ==> rel(s[2 * i + 1], s[largest]),
        2 * i + 2 < size && largest != 2 * i + 2 ==> rel(s[2 * i + 2], s[largest]),
{
}

/// Lets the entry at `i` sink until neither child is greater, looking only
/// at the first `heap_size` entries. Nothing outside the subtree of `i`
/// changes, and the entry that comes to stand at `i` is the one that stood
/// there or one of its children. Where the subtrees of both children were
/// heaps, the subtree of `i` is a heap afterwards.
pub fn max_heapify<T, F: Fn(&T, &T) -> bool>(
    vec: &mut Vec<T>,
    compare: &F,
    i: usize,
    heap_size: usize,
)
    requires
        answers_all(*compare),
        i < heap_size <= old(vec)@.len(),
    ensures
        rearranged_within(old(vec)@, final(vec)@, i as int, heap_size as int),
        same_outside(old(vec)@, final(vec)@, i as int, heap_size as int),
        tops(old(vec)@, final(vec)@, i as int, heap_size as int),
        forall|rel: spec_fn(T, T) -> bool|
            #[trigger] decides(*compare, rel) && orders(rel, old(vec)@) && heap_under(
                rel,
                old(vec)@,
                2 * i + 1,
                heap_size as int,
            ) && heap_under(rel, old(vec)@, 2 * i + 2, heap_size as int) ==> heap_under(
                rel,
                final(vec)@,
                i as int,
                heap_size as int,
            ),
        forall|rel: spec_fn(T, T) -> bool|
            #[trigger] decides(*compare, rel) && strict_weak_order(rel) && heap_under(
                not_after(rel),
                old(vec)@,
                2 * i + 1,
                heap_size as int,
            ) && heap_under(not_after(rel), old(vec)@, 2 * i + 2, heap_size as int) ==> heap_under(
                not_after(rel),
                final(vec)@,
                i as int,
                heap_size as int,
            ),
    decreases heap_size - i,
{
    let ghost input = vec@;
    let ghost size = heap_size as int;
    if i >= heap_size / 2 {
        proof {
            assert forall|rel: spec_fn(T, T) -> bool|
                heap_under(rel, input, 2 * i + 1, size) && heap_under(
                    rel,
                    input,
                    2 * i + 2,
                    size,
                ) implies #[trigger] heap_under(rel, input, i as int, size) by {
                lemma_heap_joined(rel, input, i as int, size);
            }
        }
        return ;
    }
    let l: usize = 2 * i + 1;
    let r: usize = 2 * i + 2;
    let mut largest: usize = i;
    let left_greater = compare(&vec[largest], &vec[l]);
    if left_greater {
        largest = l;
    }
    let ghost first = largest;
    let mut right_greater = false;
    if r < heap_size {
        right_greater = compare(&vec[largest], &vec[r]);
        if right_greater {
            largest = r;
        }
    }
    proof {
        // what the answers say of the three topmost entries, for a relation
        // that orders the entries and for the weak side of a strict one
        assert forall|rel: spec_fn(T, T) -> bool| #[trigger]
            decides(*compare, rel) && orders(rel, input) implies top_of_three(
            rel,
            input,
            i as int,
            largest as int,
            size,
        ) by {
            lemma_comparable_in(rel, input, input, i as int, l as int);
            if r < size {
                lemma_comparable_in(rel, input, input, first as int, r as int);
            }
            lemma_greatest_of_three(
                rel,
                input,
                i as int,
                size,
                left_greater,
                right_greater,
                largest as int,
            );
        }
        assert forall|rel: spec_fn(T, T) -> bool| #[trigger]
            decides(*compare, rel) && strict_weak_order(rel) implies top_of_three(
            not_after(rel),
            input,
            i as int,
            largest as int,
            size,
        ) by {
            lemma_strict_answers(rel, input[i as int], input[l as int]);
            if r < size {
                lemma_strict_answers(rel, input[first as int], input[r as int]);
            }
            lemma_greatest_of_three(
                not_after(rel),
                input,
                i as int,
                size,
                left_greater,
                right_greater,
                largest as int,
            );
        }
    }
    if largest != i {
        swap_entries(vec, i, largest);
        let ghost sunk = vec@;
        max_heapify(vec, compare, largest, heap_size);
        proof {
            lemma_swapped_within(input, i as int, size, i as int, largest as int);
            lemma_sink_rearranged(input, sunk, vec@, i as int, largest as int, size);
            lemma_sunk_outside(input, vec@, i as int, largest as int, size);
            assert forall|rel: spec_fn(T, T) -> bool| #[trigger]
                decides(*compare, rel) && orders(rel, input) && heap_under(
                    rel,
                    input,
                    2 * i + 1,
                    size,
                ) && heap_under(rel, input, 2 * i + 2, size) implies heap_under(
                rel,
                vec@,
                i as int,
                size,
            ) by {
                lemma_rearranged_whole(input, sunk, i as int, size);
                lemma_orders_rearranged(rel, input, sunk);
                assert(top_of_three(rel, input, i as int, largest as int, size));
                lemma_below_stays(rel, input, i as int, largest as int, size);
                lemma_sunk_under(rel, input, vec@, i as int, largest as int, size);
            }
            assert forall|rel: spec_fn(T, T) -> bool| #[trigger]
                decides(*compare, rel) && strict_weak_order(rel) && heap_under(
                    not_after(rel),
                    input,
                    2 * i + 1,
                    size,
                ) && heap_under(not_after(rel), input, 2 * i + 2, size) implies heap_under(
                not_after(rel),
                vec@,
                i as int,
                size,
            ) by {
                assert(top_of_three(not_after(rel), input, i as int, largest as int, size));
                lemma_below_stays(not_after(rel), input, i as int, largest as int, size);
                lemma_sunk_under(not_after(rel), input, vec@, i as int, largest as int, size);
            }
        }
    } else {
        proof {
            assert forall|rel: spec_fn(T, T) -> bool| #[trigger]
                decides(*compare, rel) && orders(rel, input) && heap_under(
                    rel,
                    input,
                    2 * i + 1,
                    size,
                ) && heap_under(rel, input, 2 * i + 2, size) implies heap_under(
                rel,
                input,
                i as int,
                size,
            ) by {
                assert(top_of_three(rel, input, i as int, largest as int, size));
                lemma_heap_joined(rel, input, i as int, size);
            }
            assert forall|rel: spec_fn(T, T) -> bool| #[trigger]
                decides(*compare, rel) && strict_weak_order(rel) && heap_under(
                    not_after(rel),
                    input,
                    2 * i + 1,
                    size,
                ) && heap_under(not_after(rel), input, 2 * i + 2, size) implies heap_under(
                not_after(rel),
                input,
                i as int,
                size,
            ) by {
                assert(top_of_three(not_after(rel), input, i as int, largest as int, size));
                lemma_heap_joined(not_after(rel), input, i as int, size);
            }
        }
    }
}

/// Of the entry at `i` and its children among the first `size`, none is
/// greater than the one at `largest`.
spec fn top_of_three<T>(rel: spec_fn(T, T) -> bool, s: Seq<T>, i: int, largest: int, size: int) -> bool {
    &&& largest != i ==> rel(s[i], s[largest])
    &&& 2 * i + 1 < size && largest != 2 * i + 1 ==> rel(s[2 * i + 1], s[largest])
    &&& 2 * i + 2 < size && largest != 2 * i + 2 ==> rel(s[2 * i + 2], s[largest])
}

/// The heaps under the children of the child that moves up are not touched
/// by its exchange with the root.
proof fn lemma_below_stays<T>(rel: spec_fn(T, T) -> bool, input: Seq<T>, i: int, child: int, size: int)
    requires
        0 <= i,
        child == 2 * i + 1 || child == 2 * i + 2,
        child < size <= input.len(),
        heap_under(rel, input, child, size),
    ensures
        heap_under(rel, swapped(input, i, child), 2 * child + 1, size),
        heap_under(rel, swapped(input, i, child), 2 * child + 2, size),
{
    let sunk = swapped(input, i, child);
    lemma_heap_parts(rel, input, child, size);
    assert forall|k: int| 0 <= k < size && in_subtree(2 * child + 1, k) implies #[trigger] sunk[k]
        == input[k] by {
        if k != 2 * child + 1 {
            lemma_subtree_below(2 * child + 1, k);
        }
    }
    assert forall|k: int| 0 <= k < size && in_subtree(2 * child + 2, k) implies #[trigger] sunk[k]
        == input[k] by {
        if k != 2 * child + 2 {
            lemma_subtree_below(2 * child + 2, k);
        }
    }
    lemma_heap_same(rel, input, sunk, 2 * child + 1, size);
    lemma_heap_same(rel, input, sunk, 2 * child + 2, size);
}

/// Sinking first one step and then further below rearranges the part from
/// the entry on.
proof fn lemma_sink_rearranged<T>(
    input: Seq<T>,
    sunk: Seq<T>,
    done: Seq<T>,
    i: int,
    child: int,
    size: int,
)
    requires
        0 <= i < child < size <= input.len(),
        rearranged_within(input, sunk, i, size),
        rearranged_within(sunk, done, child, size),
    ensures
        rearranged_within(input, done, i, size),
{
    broadcast use vstd::seq_lib::lemma_multiset_commutative;

    assert(done.subrange(i, size) =~= done.subrange(i, child) + done.subrange(child, size));
    assert(sunk.subrange(i, size) =~= sunk.subrange(i, child) + sunk.subrange(child, size));
    assert(done.subrange(i, child) =~= sunk.subrange(i, child));
}

/// Where every parent from `low` on is not less than its children, the
/// subtree of every entry from `low` on is a heap.
pub proof fn lemma_heap_from_under<T>(
    rel: spec_fn(T, T) -> bool,
    s: Seq<T>,
    low: int,
    root: int,
    size: int,
)
    requires
        0 <= low <= root,
        heap_from(rel, s, low, size),
    ensures
        heap_under(rel, s, root, size),
{
    assert forall|c: int| 0 < c < size && c != root && #[trigger] in_subtree(root, c) implies rel(
        s[c],
        s[parent_of(c)],
    ) by {
        lemma_subtree_below(root, c);
        assert(parent_of(c) >= root) by {
            reveal_with_fuel(in_subtree, 2);
        }
    }
}

/// A heap that is whole from `i + 1` on is whole from `i` on once the
/// subtree of `i` has been made a heap and nothing else has changed.
proof fn lemma_heap_grows<T>(
    rel: spec_fn(T, T) -> bool,
    before: Seq<T>,
    after: Seq<T>,
    i: int,
    size: int,
)
    requires
        0 <= i,
        size <= before.len(),
        heap_from(rel, before, i + 1, size),
        same_outside(before, after, i, size),
        heap_under(rel, after, i, size),
    ensures
        heap_from(rel, after, i, size),
{
    assert forall|c: int| 0 < c < size && i <= parent_of(c) implies rel(
        #[trigger] after[c],
        after[parent_of(c)],
    ) by {
        reveal_with_fuel(in_subtree, 2);
        if !in_subtree(i, c) {
            assert(!in_subtree(i, parent_of(c)));
            assert(after[c] == before[c]);
            assert(after[parent_of(c)] == before[parent_of(c)]);
            assert(rel(before[c], before[parent_of(c)]));
        }
    }
}

/// A heap under the first entry is a heap as a whole.
pub proof fn lemma_heap_under_first<T>(rel: spec_fn(T, T) -> bool, s: Seq<T>, size: int)
    requires
        heap_under(rel, s, 0, size),
    ensures
        heap_from(rel, s, 0, size),
{
    assert forall|c: int| 0 < c < size && 0 <= parent_of(c) implies rel(
        #[trigger] s[c],
        s[parent_of(c)],
    ) by {
        lemma_all_under_first(c);
    }
}

/// With the first and the last entry of a heap exchanged and the last left
/// out, the subtrees of the first entry's children are heaps still.
proof fn lemma_heaps_below_first<T>(rel: spec_fn(T, T) -> bool, before: Seq<T>, size: int)
    requires
        1 < size <= before.len(),
        heap_from(rel, before, 0, size),
    ensures
        heap_under(rel, swapped(before, 0, size - 1), 1, size - 1),
        heap_under(rel, swapped(before, 0, size - 1), 2, size - 1),
{
    let mid = swapped(before, 0, size - 1);
    lemma_heap_from_under(rel, before, 0, 1, size);
    lemma_heap_from_under(rel, before, 0, 2, size);
    assert(heap_under(rel, before, 1, size - 1));
    assert(heap_under(rel, before, 2, size - 1));
    assert forall|k: int| 0 <= k < size - 1 && in_subtree(1, k) implies #[trigger] mid[k]
        == before[k] by {
        reveal_with_fuel(in_subtree, 2);
    }
    assert forall|k: int| 0 <= k < size - 1 && in_subtree(2, k) implies #[trigger] mid[k]
        == before[k] by {
        reveal_with_fuel(in_subtree, 2);
    }
    lemma_heap_same(rel, before, mid, 1, size - 1);
    lemma_heap_same(rel, before, mid, 2, size - 1);
}

/// Builds a max-heap over the whole sequence, from the last inner entry up
/// to the root.
pub fn build_max_heap<T, F: Fn(&T, &T) -> bool>(vec: &mut Vec<T>, compare: &F)
    requires
        answers_all(*compare),
    ensures
        final(vec)@.len() == old(vec)@.len(),
        final(vec)@.to_multiset() == old(vec)@.to_multiset(),
        forall|rel: spec_fn(T, T) -> bool|
            #[trigger] decides(*compare, rel) && orders(rel, old(vec)@) ==> heap_from(
                rel,
                final(vec)@,
                0,
                old(vec)@.len() as int,
            ),
        forall|rel: spec_fn(T, T) -> bool|
            #[trigger] decides(*compare, rel) && strict_weak_order(rel) ==> heap_from(
                not_after(rel),
                final(vec)@,
                0,
                old(vec)@.len() as int,
            ),
{
    let ghost input = vec@;
    let len: usize = vec.len();
    let mut i: usize = len / 2;
    while i > 0
        invariant
            answers_all(*compare),
            len == input.len(),
            vec@.len() == len,
            i <= len / 2,
            vec@.to_multiset() == input.to_multiset(),
            forall|rel: spec_fn(T, T) -> bool|
                #[trigger] decides(*compare, rel) && orders(rel, input) ==> heap_from(
                    rel,
                    vec@,
                    i as int,
                    len as int,
                ),
            forall|rel: spec_fn(T, T) -> bool|
                #[trigger] decides(*compare, rel) && strict_weak_order(rel) ==> heap_from(
                    not_after(rel),
                    vec@,
                    i as int,
                    len as int,
                ),
        decreases i,
    {
        i -= 1;
        let ghost before = vec@;
        max_heapify(vec, compare, i, len);
        proof {
            lemma_rearranged_whole(before, vec@, i as int, len as int);
            assert forall|rel: spec_fn(T, T) -> bool| #[trigger]
                decides(*compare, rel) && orders(rel, input) implies heap_from(
                rel,
                vec@,
                i as int,
                len as int,
            ) by {
                lemma_orders_rearranged(rel, input, before);
                assert(heap_from(rel, before, i + 1, len as int));
                lemma_heap_from_under(rel, before, i + 1, 2 * i + 1, len as int);
                lemma_heap_from_under(rel, before, i + 1, 2 * i + 2, len as int);
                lemma_heap_grows(rel, before, vec@, i as int, len as int);
            }
            assert forall|rel: spec_fn(T, T) -> bool| #[trigger]
                decides(*compare, rel) && strict_weak_order(rel) implies heap_from(
                not_after(rel),
                vec@,
                i as int,
                len as int,
            ) by {
                let weak = not_after(rel);
                assert(heap_from(weak, before, i + 1, len as int));
                lemma_heap_from_under(weak, before, i + 1, 2 * i + 1, len as int);
                lemma_heap_from_under(weak, before, i + 1, 2 * i + 2, len as int);
                lemma_heap_grows(weak, before, vec@, i as int, len as int);
            }
        }
    }
}

/// What is known between two rounds of heap sort: the first `size` entries
/// form a heap, the rest is sorted, and nothing in the heap is greater than
/// anything behind it.
spec fn heap_then_sorted<T>(rel: spec_fn(T, T) -> bool, s: Seq<T>, size: int) -> bool {
    &&& heap_from(rel, s, 0, size)
    &&& sorted_by(s.subrange(size, s.len() as int), rel)
    &&& forall|a: int, b: int| 0 <= a < size <= b < s.len() ==> rel(#[trigger] s[a], #[trigger] s[b])
}

proof fn lemma_round<T>(rel: spec_fn(T, T) -> bool, s: Seq<T>, t: Seq<T>, size: int)
    requires
        transitive(rel),
        1 < size <= s.len(),
        heap_then_sorted(rel, s, size),
        rearranged_within(swapped(s, 0, size - 1), t, 0, size - 1),
        heap_from(rel, t, 0, size - 1),
    ensures
        heap_then_sorted(rel, t, size - 1),
{
    let mid = swapped(s, 0, size - 1);
    let top = s[0];
    assert(t[size - 1] == top);
    let below_top = |x: T| rel(x, top);
    assert forall|k: int| 0 <= k < mid.subrange(0, size - 1).len() implies below_top(
        #[trigger] mid.subrange(0, size - 1)[k],
    ) by {
        if k == 0 {
            lemma_root_is_greatest(rel, s, size, size - 1);
        } else {
            lemma_root_is_greatest(rel, s, size, k);
        }
    }
    lemma_all_rearranged(mid.subrange(0, size - 1), t.subrange(0, size - 1), below_top);
    let tail = t.subrange(size - 1, t.len() as int);
    assert forall|a: int, b: int| 0 <= a < b < tail.len() implies #[trigger] rel(tail[a], tail[b]) by {
        if a == 0 {
            assert(rel(s[0], s[size - 1 + b]));
        } else {
            assert(rel(
                s.subrange(size, s.len() as int)[a - 1],
                s.subrange(size, s.len() as int)[b - 1],
            ));
        }
    }
    assert forall|a: int, b: int| 0 <= a < size - 1 <= b < t.len() implies rel(
        #[trigger] t[a],
        #[trigger] t[b],
    ) by {
        if b == size - 1 {
            assert(below_top(t.subrange(0, size - 1)[a]));
        } else {
            let behind = |x: T| rel(x, s[b]);
            assert forall|k: int| 0 <= k < mid.subrange(0, size - 1).len() implies behind(
                #[trigger] mid.subrange(0, size - 1)[k],
            ) by {
                if k == 0 {
                    assert(rel(s[size - 1], s[b]));
                } else {
                    assert(rel(s[k], s[b]));
                }
            }
            lemma_all_rearranged(mid.subrange(0, size - 1), t.subrange(0, size - 1), behind);
            assert(behind(t.subrange(0, size - 1)[a]));
        }
    }
}

impl<'a, Elem> CompareSorter for BiheapSorter<'a, Vec<Elem>> {
    type Element = Elem;

    open spec fn elements(&self) -> Seq<Elem> {
        self.0@
    }

    /// Besides what every sorter promises, a sequence that is sorted
    /// already, and in which no two different entries are tied, is left
    /// exactly as it was; and the sorter still lends from the same sequence
    /// afterwards.
    fn sort_by<F: Fn(&Elem, &Elem) -> bool>(&mut self, compare: F)
        ensures
            forall|rel: spec_fn(Elem, Elem) -> bool|
                #[trigger] decides(compare, rel) && orders(rel, old(self).0@) && sorted_by(
                    old(self).0@,
                    rel,
                ) && ties_are_equal(rel, old(self).0@) ==> final(self).0@ == old(self).0@,
            *final(final(self).0) == *final(old(self).0),
    {
        let ghost input = self.0@;
        let len: usize = self.0.len();
        if len < 2 {
            return ;
        }
        build_max_heap(&mut *self.0, &compare);
        let mut i: usize = len - 1;
        while i > 0
            invariant
                answers_all(compare),
                len == input.len(),
                self.0@.len() == len,
                i < len,
                self.0@.to_multiset() == input.to_multiset(),
                forall|rel: spec_fn(Elem, Elem) -> bool|
                    #[trigger] decides(compare, rel) && orders(rel, input) ==> heap_then_sorted(
                        rel,
                        self.0@,
                        i + 1,
                    ),
                forall|rel: spec_fn(Elem, Elem) -> bool|
                    #[trigger] decides(compare, rel) && strict_weak_order(rel)
                        ==> heap_then_sorted(not_after(rel), self.0@, i + 1),
                *final(self.0) == *final(old(self).0),
            decreases i,
        {
            let ghost before = self.0@;
            swap_entries(&mut *self.0, 0, i);
            let ghost mid = self.0@;
            max_heapify(&mut *self.0, &compare, 0, i);
            proof {
                lemma_swapped_within(before, 0, len as int, 0, i as int);
                lemma_rearranged_whole(before, mid, 0, len as int);
                lemma_rearranged_whole(mid, self.0@, 0, i as int);
                assert forall|rel: spec_fn(Elem, Elem) -> bool| #[trigger]
                    decides(compare, rel) && orders(rel, input) implies heap_then_sorted(
                    rel,
                    self.0@,
                    i as int,
                ) by {
                    lemma_orders_rearranged(rel, input, mid);
                    assert(heap_then_sorted(rel, before, i + 1));
                    lemma_heaps_below_first(rel, before, i + 1);
                    lemma_heap_under_first(rel, self.0@, i as int);
                    lemma_round(rel, before, self.0@, i + 1);
                }
                assert forall|rel: spec_fn(Elem, Elem) -> bool| #[trigger]
                    decides(compare, rel) && strict_weak_order(rel) implies heap_then_sorted(
                    not_after(rel),
                    self.0@,
                    i as int,
                ) by {
                    let weak = not_after(rel);
                    assert(heap_then_sorted(weak, before, i + 1));
                    lemma_heaps_below_first(weak, before, i + 1);
                    lemma_heap_under_first(weak, self.0@, i as int);
                    lemma_round(weak, before, self.0@, i + 1);
                }
            }
            i -= 1;
        }
        proof {
            assert forall|rel: spec_fn(Elem, Elem) -> bool| #[trigger]
                decides(compare, rel) && orders(rel, input) implies sorted_by(self.0@, rel) by {
                lemma_whole_sorted(rel, self.0@);
            }
            assert forall|rel: spec_fn(Elem, Elem) -> bool| #[trigger]
                decides(compare, rel) && strict_weak_order(rel) implies sorted_by(
                self.0@,
                not_after(rel),
            ) by {
                lemma_whole_sorted(not_after(rel), self.0@);
            }
            assert forall|rel: spec_fn(Elem, Elem) -> bool| #[trigger]
                decides(compare, rel) && orders(rel, input) && sorted_by(input, rel)
                    && ties_are_equal(rel, input) implies self.0@ == input by {
                lemma_untied_sorted_unique(rel, input, self.0@);
            }
        }
    }
}

/// A heap of one entry before a sorted rest that it may stand before is a
/// sorted sequence.
proof fn lemma_whole_sorted<T>(rel: spec_fn(T, T) -> bool, s: Seq<T>)
    requires
        heap_then_sorted(rel, s, 1),
    ensures
        sorted_by(s, rel),
{
    let rest = s.subrange(1, s.len() as int);
    assert forall|a: int, b: int| 0 <= a < b < s.len() implies #[trigger] rel(s[a], s[b]) by {
        if a > 0 {
            assert(rel(rest[a - 1], rest[b - 1]));
        }
    }
}

} // verus!
