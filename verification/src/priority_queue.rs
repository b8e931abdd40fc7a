//! A max-priority queue of integers over a binary max-heap.

use vstd::prelude::*;
use vstd::seq_lib::group_to_multiset_ensures;
use crate::heap::{in_subtree, lemma_subtree_up, parent_of, same_outside};
use crate::slots::{lemma_swapped_multiset, swap_entries, swapped};

verus! {

/// The failure of taking from an empty queue.
pub const HEAP_UNDERFLOW: &'static str = "heap underflow";

/// The failure of lowering a key where only raising is offered.
pub const KEY_DECREASE: &'static str = "New key is smaller than current key";

/// A queue that hands out its greatest key first.
pub struct BiheapPriorityQueue(Vec<i32>);

/// No entry is greater than its parent.
pub open spec fn is_max_heap(s: Seq<i32>) -> bool {
    forall|c: int| 0 < c < s.len() ==> s[c] <= s[#[trigger] parent_of(c)]
}

/// A heap but for the entry at `hole`, which may be smaller than its
/// children; they fit below its parent.
pub open spec fn heap_below(s: Seq<i32>, hole: int) -> bool {
    &&& forall|c: int| 0 < c < s.len() && #[trigger] parent_of(c) != hole ==> s[c] <= s[parent_of(c)]
    &&& hole > 0 ==> forall|c: int|
        0 < c < s.len() && #[trigger] parent_of(c) == hole ==> s[c] <= s[parent_of(hole)]
}

/// A heap but for the entry at `hole`, which may be greater than its
/// parent; its children fit below its parent.
pub open spec fn heap_above(s: Seq<i32>, hole: int) -> bool {
    &&& forall|c: int| 0 < c < s.len() && c != hole ==> s[c] <= s[#[trigger] parent_of(c)]
    &&& hole > 0 ==> forall|c: int|
        0 < c < s.len() && #[trigger] parent_of(c) == hole ==> s[c] <= s[parent_of(hole)]
}

/// No key of the sequence is greater than `top`.
pub open spec fn is_greatest(s: Seq<i32>, top: i32) -> bool {
    forall|k: int| 0 <= k < s.len() ==> #[trigger] s[k] <= top
}

/// The root of a heap is its greatest key.
pub proof fn lemma_root_on_top(s: Seq<i32>, k: int)
    requires
        is_max_heap(s),
        0 <= k < s.len(),
    ensures
        s[k] <= s[0],
    decreases k,
{
    if k > 0 {
        assert(s[k] <= s[parent_of(k)]);
        lemma_root_on_top(s, parent_of(k));
    }
}

/// Keys come out in descending order: what is taken from a queue after
/// its greatest key is not greater than that key.
pub proof fn lemma_taken_in_order(before: Seq<i32>, after: Seq<i32>, first: i32, second: i32)
    requires
        is_greatest(before, first),
        after.to_multiset() == before.to_multiset().remove(first),
        after.contains(second),
    ensures
        second <= first,
{
    broadcast use group_to_multiset_ensures;

    assert(after.to_multiset().count(second) > 0);
    assert(before.to_multiset().count(second) > 0);
    assert(before.contains(second));
}

/// Lets the key at `i` sink until neither child is greater. Nothing
/// outside the subtree of `i` changes.
pub fn max_heapify(queue: &mut Vec<i32>, i: usize)
    requires
        i < old(queue)@.len(),
        heap_below(old(queue)@, i as int),
    ensures
        is_max_heap(final(queue)@),
        final(queue)@.len() == old(queue)@.len(),
        final(queue)@.to_multiset() == old(queue)@.to_multiset(),
        same_outside(old(queue)@, final(queue)@, i as int, old(queue)@.len() as int),
    decreases old(queue)@.len() - i,
{
    let ghost input = queue@;
    let len: usize = queue.len();
    if i >= len / 2 {
        return ;
    }
    let l: usize = 2 * i + 1;
    let r: usize = 2 * i + 2;
    let mut largest: usize = i;
    if queue[l] > queue[largest] {
        largest = l;
    }
    if r < len && queue[r] > queue[largest] {
        largest = r;
    }
    if largest != i {
        swap_entries(queue, i, largest);
        proof {
            lemma_swapped_multiset(input, i as int, largest as int);
            assert forall|c: int| #![trigger parent_of(c)]
                0 < c < queue@.len() && parent_of(c) != largest implies queue@[c]
                <= queue@[parent_of(c)] by {
                if parent_of(c) == i {
                    assert(c == l || c == r);
                } else if c == i {
                    assert(parent_of(largest as int) == i);
                    assert(input[largest as int] <= input[parent_of(i as int)]);
                } else {
                    assert(input[c] <= input[parent_of(c)]);
                }
            }
            assert forall|c: int| #![trigger parent_of(c)]
                0 < c < queue@.len() && parent_of(c) == largest implies queue@[c]
                <= queue@[parent_of(largest as int)] by {
                assert(input[c] <= input[parent_of(c)]);
            }
        }
        let ghost sunk = queue@;
        max_heapify(queue, largest);
        proof {
            assert(in_subtree(i as int, i as int) && in_subtree(i as int, largest as int)) by {
                reveal_with_fuel(in_subtree, 2);
            }
            assert forall|k: int|
                0 <= k < input.len() && !(k < len && in_subtree(i as int, k)) implies #[trigger] queue@[k]
                == input[k] by {
                if in_subtree(largest as int, k) {
                    lemma_subtree_up(i as int, largest as int, k);
                }
                assert(queue@[k] == sunk[k]);
            }
        }
    } else {
        proof {
            assert forall|c: int| #![trigger parent_of(c)] 0 < c < input.len() implies input[c] <= input[parent_of(
                c,
            )] by {
                if parent_of(c) == i {
                    assert(c == l || c == r);
                }
            }
        }
    }
}

/// Lets the key at `i` rise while its parent is smaller. Only entries on
/// the way from `i` up to the root change.
pub fn bubble_up(queue: &mut Vec<i32>, i: usize)
    requires
        i < old(queue)@.len(),
        heap_above(old(queue)@, i as int),
    ensures
        is_max_heap(final(queue)@),
        final(queue)@.len() == old(queue)@.len(),
        final(queue)@.to_multiset() == old(queue)@.to_multiset(),
        forall|k: int|
            0 <= k < old(queue)@.len() && !in_subtree(k, i as int) ==> #[trigger] final(queue)@[k]
                == old(queue)@[k],
{
    let ghost start = i as int;
    let mut i = i;
    assert(in_subtree(start, start)) by {
        reveal_with_fuel(in_subtree, 2);
    }
    while i > 0 && queue[(i - 1) / 2] < queue[i]
        invariant
            i < queue@.len(),
            queue@.len() == old(queue)@.len(),
            queue@.to_multiset() == old(queue)@.to_multiset(),
            heap_above(queue@, i as int),
            in_subtree(i as int, start),
            forall|k: int|
                0 <= k < queue@.len() && !in_subtree(k, start) ==> #[trigger] queue@[k] == old(
                    queue,
                )@[k],
        decreases i,
    {
        let ghost before = queue@;
        let parent: usize = (i - 1) / 2;
        swap_entries(queue, i, parent);
        proof {
            lemma_subtree_up(parent as int, i as int, start);
            lemma_swapped_multiset(before, i as int, parent as int);
            assert forall|c: int| #![trigger parent_of(c)] 0 < c < queue@.len() && c != parent implies queue@[c]
                <= queue@[parent_of(c)] by {
                if c == i {
                } else if parent_of(c) == parent {
                    assert(before[c] <= before[parent as int]);
                } else if parent_of(c) == i {
                    assert(before[c] <= before[parent_of(i as int)]);
                } else {
                    assert(before[c] <= before[parent_of(c)]);
                }
            }
            if parent > 0 {
                assert forall|c: int| #![trigger parent_of(c)]
                    0 < c < queue@.len() && parent_of(c) == parent implies queue@[c]
                    <= queue@[parent_of(parent as int)] by {
                    assert(before[parent as int] <= before[parent_of(parent as int)]);
                    if c != i {
                        assert(before[c] <= before[parent as int]);
                    }
                }
            }
        }
        i = parent;
    }
    proof {
        assert forall|c: int| #![trigger parent_of(c)] 0 < c < queue@.len() implies queue@[c] <= queue@[parent_of(
            c,
        )] by {
        }
    }
}

impl BiheapPriorityQueue {
    /// The keys as the heap lays them out: the children of the key at `i`
    /// are at `2i + 1` and `2i + 2`.
    pub closed spec fn view(&self) -> Seq<i32> {
        self.0@
    }

    /// The keys form a max-heap.
    pub open spec fn wf(&self) -> bool {
        is_max_heap(self@)
    }

    /// An empty queue.
    pub fn new() -> (queue: BiheapPriorityQueue)
        ensures
            queue@ == Seq::<i32>::empty(),
            queue.wf(),
    {
        BiheapPriorityQueue(vec![])
    }

    /// The greatest key, without taking it. Fails with `HEAP_UNDERFLOW` on
    /// an empty queue.
    pub fn maximum(&self) -> (res: Result<&i32, &'static str>)
        requires
            self.wf(),
        ensures
            self@.len() == 0 ==> res == Err::<&i32, &'static str>(HEAP_UNDERFLOW),
            self@.len() > 0 ==> res == Ok::<&i32, &'static str>(&self@[0]) && is_greatest(
                self@,
                self@[0],
            ),
    {
        if self.0.len() < 1 {
            return Err(HEAP_UNDERFLOW);
        }
        proof {
            assert forall|k: int| 0 <= k < self@.len() implies #[trigger] self@[k] <= self@[0] by {
                lemma_root_on_top(self@, k);
            }
        }
        Ok(&self.0[0])
    }

    /// Takes the greatest key out. Fails with `HEAP_UNDERFLOW` on an empty
    /// queue.
    pub fn extract_max(&mut self) -> (res: Result<i32, &'static str>)
        requires
            old(self).wf(),
        ensures
            final(self).wf(),
            old(self)@.len() == 0 ==> res == Err::<i32, &'static str>(HEAP_UNDERFLOW) && final(self)@ == old(self)@,
            old(self)@.len() > 0 ==> res == Ok::<i32, &'static str>(old(self)@[0]) && is_greatest(
                old(self)@,
                old(self)@[0],
            ) && final(self)@.to_multiset() == old(self)@.to_multiset().remove(old(self)@[0])
                && final(self)@.len() == old(self)@.len() - 1,
    {
        let ghost input = self.0@;
        let heap_size: usize = self.0.len();
        if heap_size < 1 {
            return Err(HEAP_UNDERFLOW);
        }
        proof {
            assert forall|k: int| 0 <= k < input.len() implies #[trigger] input[k] <= input[0] by {
                lemma_root_on_top(input, k);
            }
        }
        if heap_size > 1 {
            swap_entries(&mut self.0, 0, heap_size - 1);
        }
        let ghost turned = self.0@;
        let result = self.0.pop().unwrap();
        proof {
            broadcast use group_to_multiset_ensures;

            lemma_swapped_multiset(input, 0, heap_size - 1);
            assert(turned =~= swapped(input, 0, heap_size - 1));
            assert(self.0@ =~= turned.remove(heap_size - 1));
            assert(self.0@.to_multiset() =~= input.to_multiset().remove(input[0]));
        }
        if heap_size > 1 {
            proof {
                assert forall|c: int| #![trigger parent_of(c)]
                    0 < c < self.0@.len() && parent_of(c) != 0 implies self.0@[c]
                    <= self.0@[parent_of(c)] by {
                    assert(input[c] <= input[parent_of(c)]);
                }
            }
            max_heapify(&mut self.0, 0);
        }
        Ok(result)
    }

    /// Raises the key at `i` to `key` and lets it rise to its place. Fails
    /// with `KEY_DECREASE`, changing nothing, when `key` is smaller than
    /// the key it would replace.
    pub fn increase_key(&mut self, i: usize, key: i32) -> (res: Result<(), &'static str>)
        requires
            old(self).wf(),
            i < old(self)@.len(),
        ensures
            final(self).wf(),
            key < old(self)@[i as int] ==> res == Err::<(), &'static str>(KEY_DECREASE) && final(self)@ == old(self)@,
            key >= old(self)@[i as int] ==> res is Ok && final(self)@.len() == old(self)@.len()
                && final(self)@.to_multiset() == old(self)@.to_multiset().remove(
                old(self)@[i as int],
            ).insert(key),
    {
        let ghost input = self.0@;
        if key < self.0[i] {
            return Err(KEY_DECREASE);
        }
        self.0[i] = key;
        proof {
            broadcast use group_to_multiset_ensures;
            broadcast use vstd::seq_lib::to_multiset_update;

            assert(self.0@ == input.update(i as int, key));
            assert(self.0@.to_multiset() =~= input.to_multiset().remove(input[i as int]).insert(
                key,
            )) by {
                assert(input.contains(input[i as int]));
                assert(input.to_multiset().count(input[i as int]) > 0);
            }
            assert forall|c: int| #![trigger parent_of(c)] 0 < c < self.0@.len() && c != i implies self.0@[c]
                <= self.0@[parent_of(c)] by {
                assert(input[c] <= input[parent_of(c)]);
            }
            if i > 0 {
                assert forall|c: int| #![trigger parent_of(c)]
                    0 < c < self.0@.len() && parent_of(c) == i implies self.0@[c]
                    <= self.0@[parent_of(i as int)] by {
                    assert(input[c] <= input[i as int]);
                    assert(input[i as int] <= input[parent_of(i as int)]);
                }
            }
        }
        bubble_up(&mut self.0, i);
        Ok(())
    }

    /// Puts a key in: behind the last, from where it rises to its place.
    pub fn insert(&mut self, key: i32)
        requires
            old(self).wf(),
        ensures
            final(self).wf(),
            final(self)@.len() == old(self)@.len() + 1,
            final(self)@.to_multiset() == old(self)@.to_multiset().insert(key),
    {
        let ghost input = self.0@;
        let size: usize = self.0.len();
        self.0.push(key);
        proof {
            broadcast use group_to_multiset_ensures;

            assert forall|c: int| #![trigger parent_of(c)] 0 < c < self.0@.len() && c != size implies self.0@[c]
                <= self.0@[parent_of(c)] by {
                assert(input[c] <= input[parent_of(c)]);
            }
        }
        bubble_up(&mut self.0, size);
    }
}

} // verus!
