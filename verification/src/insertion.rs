//! Insertion sort that finds each insertion point by binary search.

use vstd::prelude::*;
use vstd::relations::{sorted_by, transitive};
use vstd::seq_lib::group_to_multiset_ensures;
use crate::order::{
    answers_all, decides, keeps_ties, lemma_comparable_in, lemma_stable_sorted_unique, not_after,
    orders, strict_weak_order, tied_with,
};
use crate::sequences::lemma_move_down_filter;
use crate::sorter::CompareSorter;

verus! {

/// Sorts the borrowed sequence by binary insertion: O(n log n) comparisons,
/// O(n^2) moves, and ties stay in their input order.
pub struct InsertionSorter<'a, S>(pub &'a mut S);

/// In a prefix that `rel` sorts, `at` is the place where `e` belongs:
/// everything before it may stand before `e`, nothing from it on may.
pub open spec fn is_insertion_point<T>(
    rel: spec_fn(T, T) -> bool,
    prefix: Seq<T>,
    e: T,
    at: int,
) -> bool {
    &&& 0 <= at <= prefix.len()
    &&& forall|k: int| 0 <= k < at ==> rel(#[trigger] prefix[k], e)
    &&& forall|k: int| at <= k < prefix.len() ==> !rel(#[trigger] prefix[k], e)
}

/// What binary search knows of the insertion point while it lies in `left..=right`.
spec fn narrowed<T>(
    rel: spec_fn(T, T) -> bool,
    prefix: Seq<T>,
    e: T,
    left: int,
    right: int,
) -> bool {
    &&& forall|k: int| 0 <= k < left ==> rel(#[trigger] prefix[k], e)
    &&& forall|k: int| right <= k < prefix.len() ==> !rel(#[trigger] prefix[k], e)
}

proof fn lemma_narrow<T>(
    rel: spec_fn(T, T) -> bool,
    prefix: Seq<T>,
    e: T,
    left: int,
    right: int,
    mid: int,
)
    requires
        transitive(rel),
        sorted_by(prefix, rel),
        0 <= left <= mid < right <= prefix.len(),
        narrowed(rel, prefix, e, left, right),
    ensures
        rel(prefix[mid], e) ==> narrowed(rel, prefix, e, mid + 1, right),
        !rel(prefix[mid], e) ==> narrowed(rel, prefix, e, left, mid),
{
    if rel(prefix[mid], e) {
        assert forall|k: int| 0 <= k < mid + 1 implies rel(#[trigger] prefix[k], e) by {
            if k < mid {
                assert(rel(prefix[k], prefix[mid]));
            }
        }
    } else {
        assert forall|k: int| mid <= k < prefix.len() implies !rel(#[trigger] prefix[k], e) by {
            if k > mid && rel(prefix[k], e) {
                assert(rel(prefix[mid], prefix[k]));
            }
        }
    }
}

/// The same narrowing where the comparator is strict and the prefix is
/// sorted by its weak side.
proof fn lemma_narrow_strict<T>(
    rel: spec_fn(T, T) -> bool,
    prefix: Seq<T>,
    e: T,
    left: int,
    right: int,
    mid: int,
)
    requires
        strict_weak_order(rel),
        sorted_by(prefix, not_after(rel)),
        0 <= left <= mid < right <= prefix.len(),
        narrowed(rel, prefix, e, left, right),
    ensures
        rel(prefix[mid], e) ==> narrowed(rel, prefix, e, mid + 1, right),
        !rel(prefix[mid], e) ==> narrowed(rel, prefix, e, left, mid),
{
    let weak = not_after(rel);
    if rel(prefix[mid], e) {
        assert forall|k: int| 0 <= k < mid + 1 implies rel(#[trigger] prefix[k], e) by {
            if k < mid && !rel(prefix[k], e) {
                assert(weak(prefix[k], prefix[mid]));
                assert(weak(e, prefix[k]));
                assert(weak(e, prefix[mid]));
            }
        }
    } else {
        assert forall|k: int| mid <= k < prefix.len() implies !rel(#[trigger] prefix[k], e) by {
            if k > mid {
                assert(weak(prefix[mid], prefix[k]));
                assert(weak(e, prefix[mid]));
                assert(weak(e, prefix[k]));
            }
        }
    }
}

/// Binary search in `v[0..end)` for the place where `e` belongs: behind the
/// entries that may stand before it, in front of the first that may not.
pub fn insertion_point<T, F: Fn(&T, &T) -> bool>(
    v: &Vec<T>,
    end: usize,
    e: &T,
    compare: &F,
) -> (at: usize)
    requires
        answers_all(*compare),
        end <= v@.len(),
    ensures
        at <= end,
        forall|rel: spec_fn(T, T) -> bool|
            #[trigger] decides(*compare, rel) && transitive(rel) && sorted_by(
                v@.subrange(0, end as int),
                rel,
            ) ==> is_insertion_point(rel, v@.subrange(0, end as int), *e, at as int),
        forall|rel: spec_fn(T, T) -> bool|
            #[trigger] decides(*compare, rel) && strict_weak_order(rel) && sorted_by(
                v@.subrange(0, end as int),
                not_after(rel),
            ) ==> is_insertion_point(rel, v@.subrange(0, end as int), *e, at as int),
{
    let ghost prefix = v@.subrange(0, end as int);
    let mut left: usize = 0;
    let mut right: usize = end;
    while left < right
        invariant
            answers_all(*compare),
            prefix == v@.subrange(0, end as int),
            left <= right <= end <= v@.len(),
            forall|rel: spec_fn(T, T) -> bool|
                #[trigger] decides(*compare, rel) && transitive(rel) && sorted_by(prefix, rel)
                    ==> narrowed(rel, prefix, *e, left as int, right as int),
            forall|rel: spec_fn(T, T) -> bool|
                #[trigger] decides(*compare, rel) && strict_weak_order(rel) && sorted_by(
                    prefix,
                    not_after(rel),
                ) ==> narrowed(rel, prefix, *e, left as int, right as int),
        decreases right - left,
    {
        let mid: usize = left + (right - left) / 2;
        assert(prefix[mid as int] == v@[mid as int]);
        let fits = compare(&v[mid], e);
        proof {
            assert forall|rel: spec_fn(T, T) -> bool|
                #[trigger] decides(*compare, rel) && transitive(rel) && sorted_by(
                    prefix,
                    rel,
                ) implies (if fits {
                narrowed(rel, prefix, *e, mid + 1, right as int)
            } else {
                narrowed(rel, prefix, *e, left as int, mid as int)
            }) by {
                lemma_narrow(rel, prefix, *e, left as int, right as int, mid as int);
            }
            assert forall|rel: spec_fn(T, T) -> bool|
                #[trigger] decides(*compare, rel) && strict_weak_order(rel) && sorted_by(
                    prefix,
                    not_after(rel),
                ) implies (if fits {
                narrowed(rel, prefix, *e, mid + 1, right as int)
            } else {
                narrowed(rel, prefix, *e, left as int, mid as int)
            }) by {
                lemma_narrow_strict(rel, prefix, *e, left as int, right as int, mid as int);
            }
        }
        if fits {
            left = mid + 1;
        } else {
            right = mid;
        }
    }
    left
}

/// Taking the entry at `from` out and putting it back at its insertion point
/// in the sorted prefix before it extends the sorted prefix by one and keeps ties.
proof fn lemma_insert_step<T>(rel: spec_fn(T, T) -> bool, s: Seq<T>, from: int, at: int)
    requires
        transitive(rel),
        0 <= from < s.len(),
        sorted_by(s.subrange(0, from), rel),
        is_insertion_point(rel, s.remove(from).subrange(0, from), s[from], at),
        forall|k: int| 0 <= k < from ==> rel(#[trigger] s[k], s[from]) || rel(s[from], s[k]),
    ensures
        sorted_by(s.remove(from).insert(at, s[from]).subrange(0, from + 1), rel),
        keeps_ties(rel, s, s.remove(from).insert(at, s[from])),
{
    let e = s[from];
    let prefix = s.subrange(0, from);
    let out = s.remove(from).insert(at, e);
    let grown = out.subrange(0, from + 1);
    assert(s.remove(from).subrange(0, from) =~= prefix);
    assert forall|i: int, j: int| 0 <= i < j < grown.len() implies #[trigger] rel(
        grown[i],
        grown[j],
    ) by {
        if j < at {
            assert(grown[i] == prefix[i] && grown[j] == prefix[j]);
        } else if j == at {
            assert(grown[i] == prefix[i]);
        } else if i < at {
            assert(grown[i] == prefix[i] && grown[j] == prefix[j - 1]);
        } else if i == at {
            assert(grown[j] == prefix[j - 1]);
            assert(prefix[j - 1] == s[j - 1]);
        } else {
            assert(grown[i] == prefix[i - 1] && grown[j] == prefix[j - 1]);
        }
    }
    assert forall|x: T| #[trigger] out.filter(tied_with(rel, x)) == s.filter(tied_with(rel, x)) by {
        let pred = tied_with(rel, x);
        assert forall|k: int| at <= k < from implies !(pred(#[trigger] s[k]) && pred(s[from])) by {
            assert(s[k] == prefix[k]);
            if pred(s[k]) && pred(e) {
                assert(rel(s[k], x) && rel(x, e));
            }
        }
        lemma_move_down_filter(s, at, from, pred);
    }
}

/// Putting an entry at its insertion point in a prefix that is sorted by the
/// weak side of a strict comparator extends the sorted prefix by one.
proof fn lemma_insert_sorted_strict<T>(rel: spec_fn(T, T) -> bool, s: Seq<T>, from: int, at: int)
    requires
        strict_weak_order(rel),
        0 <= from < s.len(),
        sorted_by(s.subrange(0, from), not_after(rel)),
        is_insertion_point(rel, s.remove(from).subrange(0, from), s[from], at),
    ensures
        sorted_by(s.remove(from).insert(at, s[from]).subrange(0, from + 1), not_after(rel)),
{
    let weak = not_after(rel);
    let e = s[from];
    let prefix = s.subrange(0, from);
    let grown = s.remove(from).insert(at, e).subrange(0, from + 1);
    assert(s.remove(from).subrange(0, from) =~= prefix);
    assert forall|i: int, j: int| 0 <= i < j < grown.len() implies #[trigger] weak(
        grown[i],
        grown[j],
    ) by {
        if j < at {
            assert(grown[i] == prefix[i] && grown[j] == prefix[j]);
            assert(weak(prefix[i], prefix[j]));
        } else if j == at {
            assert(grown[i] == prefix[i]);
            assert(rel(prefix[i], e));
        } else if i < at {
            assert(grown[i] == prefix[i] && grown[j] == prefix[j - 1]);
            assert(weak(prefix[i], prefix[j - 1]));
        } else if i == at {
            assert(grown[j] == prefix[j - 1]);
            assert(!rel(prefix[j - 1], e));
        } else {
            assert(grown[i] == prefix[i - 1] && grown[j] == prefix[j - 1]);
            assert(weak(prefix[i - 1], prefix[j - 1]));
        }
    }
}

/// What insertion sort has reached once the first `done` entries are in place.
spec fn inserted<T>(
    rel: spec_fn(T, T) -> bool,
    input: Seq<T>,
    now: Seq<T>,
    done: int,
) -> bool {
    &&& sorted_by(now.subrange(0, done), rel)
    &&& keeps_ties(rel, input, now)
}

proof fn lemma_inserted_next<T>(
    rel: spec_fn(T, T) -> bool,
    input: Seq<T>,
    now: Seq<T>,
    done: int,
    at: int,
)
    requires
        orders(rel, input),
        now.to_multiset() == input.to_multiset(),
        0 <= done < now.len(),
        inserted(rel, input, now, done),
        is_insertion_point(rel, now.remove(done).subrange(0, done), now[done], at),
    ensures
        inserted(rel, input, now.remove(done).insert(at, now[done]), done + 1),
{
    assert forall|k: int| 0 <= k < done implies rel(#[trigger] now[k], now[done]) || rel(
        now[done],
        now[k],
    ) by {
        lemma_comparable_in(rel, input, now, k, done);
    }
    lemma_insert_step(rel, now, done, at);
    let next = now.remove(done).insert(at, now[done]);
    assert forall|x: T| #[trigger]
        next.filter(tied_with(rel, x)) == input.filter(tied_with(rel, x)) by {
        assert(now.filter(tied_with(rel, x)) == input.filter(tied_with(rel, x)));
    }
}

impl<'a, Elem> CompareSorter for InsertionSorter<'a, Vec<Elem>> {
    type Element = Elem;

    open spec fn elements(&self) -> Seq<Elem> {
        self.0@
    }

    /// Besides what every sorter promises, ties keep their input order,
    /// a sequence that is sorted already is left exactly as it was, and the
    /// sorter still lends from the same sequence afterwards.
    fn sort_by<F: Fn(&Elem, &Elem) -> bool>(&mut self, compare: F)
        ensures
            forall|rel: spec_fn(Elem, Elem) -> bool|
                #[trigger] decides(compare, rel) && orders(rel, old(self).0@) ==> keeps_ties(
                    rel,
                    old(self).0@,
                    final(self).0@,
                ),
            forall|rel: spec_fn(Elem, Elem) -> bool|
                #[trigger] decides(compare, rel) && orders(rel, old(self).0@) && sorted_by(
                    old(self).0@,
                    rel,
                ) ==> final(self).0@ == old(self).0@,
            *final(final(self).0) == *final(old(self).0),
    {
        let ghost input = self.0@;
        let len: usize = self.0.len();
        if len < 2 {
            return ;
        }
        assert(input.subrange(0, 1).len() == 1);
        let mut i: usize = 1;
        while i < len
            invariant
                answers_all(compare),
                1 <= i <= len,
                self.0@.len() == len,
                self.0@.to_multiset() == input.to_multiset(),
                forall|rel: spec_fn(Elem, Elem) -> bool|
                    #[trigger] decides(compare, rel) && orders(rel, input) ==> inserted(
                        rel,
                        input,
                        self.0@,
                        i as int,
                    ),
                forall|rel: spec_fn(Elem, Elem) -> bool|
                    #[trigger] decides(compare, rel) && strict_weak_order(rel) ==> sorted_by(
                        self.0@.subrange(0, i as int),
                        not_after(rel),
                    ),
                *final(self.0) == *final(old(self).0),
            decreases len - i,
        {
            let ghost before = self.0@;
            let e = self.0.remove(i);
            let at = insertion_point(&*self.0, i, &e, &compare);
            self.0.insert(at, e);
            proof {
                broadcast use group_to_multiset_ensures;

                assert(before.contains(before[i as int]));
                assert(before.to_multiset().count(e) > 0);
                assert(self.0@.to_multiset() =~= before.to_multiset());
                assert(before.remove(i as int).subrange(0, i as int) =~= before.subrange(0, i as int));
                assert forall|rel: spec_fn(Elem, Elem) -> bool|
                    #[trigger] decides(compare, rel) && orders(rel, input) implies inserted(
                    rel,
                    input,
                    self.0@,
                    i + 1,
                ) by {
                    lemma_inserted_next(rel, input, before, i as int, at as int);
                }
                assert forall|rel: spec_fn(Elem, Elem) -> bool|
                    #[trigger] decides(compare, rel) && strict_weak_order(rel) implies sorted_by(
                    self.0@.subrange(0, i + 1),
                    not_after(rel),
                ) by {
                    lemma_insert_sorted_strict(rel, before, i as int, at as int);
                }
            }
            i += 1;
        }
        proof {
            assert(self.0@.subrange(0, len as int) =~= self.0@);
            assert forall|rel: spec_fn(Elem, Elem) -> bool| #[trigger]
                decides(compare, rel) && orders(rel, input) && sorted_by(
                    input,
                    rel,
                ) implies self.0@ == input by {
                lemma_stable_sorted_unique(rel, input, self.0@);
            }
        }
    }
}

} // verus!
