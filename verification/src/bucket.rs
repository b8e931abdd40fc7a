//! Bucket sort: the elements are spread over as many buckets as there are
//! elements, each bucket an ordered singly-linked list, and the buckets are
//! emptied one after the other.
//!
//! A key is given as the pair of the bucket it falls into and an integer
//! that orders as the key does.

use vstd::prelude::*;
use vstd::relations::sorted_by;
use vstd::seq_lib::group_to_multiset_ensures;
use vstd::multiset::Multiset;
use crate::order::{keeps_ties, tied_with};
use crate::sequences::{
    lemma_all_rearranged, lemma_filter_keeps_none, lemma_filters_agree, lemma_rearranged_length,
    lemma_short_rearranged,
};

verus! {

/// The failure of a sort whose input holds a key outside the domain.
pub const KEY_OUT_OF_DOMAIN: &'static str = "元素值溢出";

struct Node<T> {
    key: u64,
    elem: T,
    next: Option<Box<Node<T>>>,
}

/// An ordered list of keyed elements: keys ascend from the head, and of
/// two elements with the same key the one inserted first comes first.
pub struct Bucket<T> {
    head: Option<Box<Node<T>>>,
}

/// What is left of a bucket that is being emptied from its head.
pub struct BucketIter<T>(Bucket<T>);

spec fn entries<T>(link: Option<Box<Node<T>>>) -> Seq<(u64, T)>
    decreases link,
{
    match link {
        None => Seq::empty(),
        Some(node) => seq![(node.key, node.elem)] + entries(node.next),
    }
}

/// The place of the first entry whose key is greater than `key`; the
/// length, if there is none.
pub open spec fn first_greater<T>(s: Seq<(u64, T)>, key: u64) -> int
    decreases s.len(),
{
    if s.len() == 0 || s[0].0 > key {
        0
    } else {
        1 + first_greater(s.drop_first(), key)
    }
}

/// The keys ascend.
pub open spec fn keys_ascend<T>(s: Seq<(u64, T)>) -> bool {
    forall|i: int, j: int| 0 <= i < j < s.len() ==> (#[trigger] s[i]).0 <= (#[trigger] s[j]).0
}

/// The elements without their keys.
pub open spec fn elems<T>(s: Seq<(u64, T)>) -> Seq<T> {
    s.map_values(|entry: (u64, T)| entry.1)
}

/// Everything before the first greater key is not greater; in a bucket
/// whose keys ascend, everything from there on is.
pub proof fn lemma_first_greater<T>(s: Seq<(u64, T)>, key: u64)
    ensures
        0 <= first_greater(s, key) <= s.len(),
        forall|m: int| 0 <= m < first_greater(s, key) ==> (#[trigger] s[m]).0 <= key,
        first_greater(s, key) < s.len() ==> s[first_greater(s, key)].0 > key,
        keys_ascend(s) ==> forall|m: int|
            first_greater(s, key) <= m < s.len() ==> (#[trigger] s[m]).0 > key,
    decreases s.len(),
{
    if s.len() == 0 || s[0].0 > key {
    } else {
        let rest = s.drop_first();
        lemma_first_greater(rest, key);
        let p = first_greater(s, key);
        assert forall|m: int| 0 <= m < p implies (#[trigger] s[m]).0 <= key by {
            if m > 0 {
                assert(rest[m - 1] == s[m]);
            }
        }
        if p < s.len() {
            assert(rest[p - 1] == s[p]);
        }
        if keys_ascend(s) {
            assert forall|m: int| p <= m < s.len() implies (#[trigger] s[m]).0 > key by {
                assert(s[p].0 <= s[m].0 || m == p);
            }
        }
    }
}

/// Inserting behind the entries that are not greater keeps the keys ascending.
pub proof fn lemma_insert_keeps_ascending<T>(s: Seq<(u64, T)>, key: u64, elem: T)
    requires
        keys_ascend(s),
    ensures
        keys_ascend(s.insert(first_greater(s, key), (key, elem))),
{
    lemma_first_greater(s, key);
    let p = first_greater(s, key);
    let t = s.insert(p, (key, elem));
    assert forall|i: int, j: int| 0 <= i < j < t.len() implies (#[trigger] t[i]).0 <= (
    #[trigger] t[j]).0 by {
        if j < p {
            assert(t[i] == s[i] && t[j] == s[j]);
        } else if j == p {
            assert(t[i] == s[i]);
        } else if i < p {
            assert(t[i] == s[i] && t[j] == s[j - 1]);
        } else if i == p {
            assert(t[j] == s[j - 1]);
        } else {
            assert(t[i] == s[i - 1] && t[j] == s[j - 1]);
        }
    }
}

/// Walks down the list to the first node whose key is greater and links
/// the new node in front of it.
fn insert_behind<T>(head: &mut Option<Box<Node<T>>>, key: u64, elem: T)
    ensures
        entries(*final(head)) == entries(*old(head)).insert(
            first_greater(entries(*old(head)), key),
            (key, elem),
        ),
{
    let mut cur = head;
    let ghost mut passed: Seq<(u64, T)> = Seq::empty();
    assert(passed + entries(*cur) =~= entries(*cur));
    loop
        invariant
            entries(*old(head)) == passed + entries(*cur),
            entries(*final(head)) == passed + entries(*final(cur)),
            first_greater(entries(*old(head)), key) == passed.len() + first_greater(
                entries(*cur),
                key,
            ),
        ensures
            first_greater(entries(*cur), key) == 0,
        decreases entries(*cur).len(),
    {
        let advance = match cur {
            Some(node) => node.key <= key,
            None => false,
        };
        if !advance {
            break ;
        }
        let ghost node = (*cur)->Some_0;
        let ghost before = passed;
        proof {
            passed = passed.push((node.key, node.elem));
            assert(entries(*cur).drop_first() =~= entries(node.next));
            assert(before + entries(*cur) =~= passed + entries(node.next));
        }
        cur = &mut cur.as_mut().unwrap().next;
        proof {
            assert(forall|rest: Seq<(u64, T)>|
                before + (seq![(node.key, node.elem)] + rest) =~= passed + rest);
        }
    }
    let rest = cur.take();
    *cur = Some(Box::new(Node { key, elem, next: rest }));
    proof {
        assert(passed + (seq![(key, elem)] + entries(rest)) =~= (passed + entries(rest)).insert(
            passed.len() as int,
            (key, elem),
        ));
    }
}

/// Unlinks the nodes one after the other, so that none is released inside
/// the release of another.
fn release<T>(head: &mut Option<Box<Node<T>>>)
    ensures
        *final(head) is None,
    opens_invariants none
    no_unwind
{
    let mut cur: Option<Box<Node<T>>> = None;
    core::mem::swap(head, &mut cur);
    loop
        invariant
            *head is None,
        decreases entries(cur).len(),
    {
        match cur {
            None => {
                break ;
            },
            Some(node) => {
                let Node { key: _, elem: _, next } = *node;
                cur = next;
            },
        }
    }
}

/// A bucket that goes out of use is taken apart node by node, however long
/// its chain is.
impl<T> Drop for Bucket<T> {
    fn drop(&mut self)
        opens_invariants none
        no_unwind
    {
        release(&mut self.head);
    }
}

impl<T> Bucket<T> {
    /// The entries from the head on, each with its key.
    pub closed spec fn view(&self) -> Seq<(u64, T)> {
        entries(self.head)
    }

    /// An empty bucket.
    pub fn new() -> (bucket: Bucket<T>)
        ensures
            bucket@ == Seq::<(u64, T)>::empty(),
    {
        Bucket { head: None }
    }

    /// Inserts in front of the first entry whose key is greater, by a
    /// linear scan from the head.
    pub fn insert(&mut self, key: u64, elem: T)
        ensures
            final(self)@ == old(self)@.insert(first_greater(old(self)@, key), (key, elem)),
    {
        insert_behind(&mut self.head, key, elem);
    }

    /// Takes the bucket apart node by node, without recursion.
    pub fn clear(&mut self)
        ensures
            final(self)@ == Seq::<(u64, T)>::empty(),
    {
        release(&mut self.head);
    }

    /// Hands the bucket over to be emptied from its head.
    pub fn into_iter(self) -> (iter: BucketIter<T>)
        ensures
            iter@ == self@,
    {
        BucketIter(self)
    }
}

impl<T> BucketIter<T> {
    /// The entries still to come, each with its key.
    pub closed spec fn view(&self) -> Seq<(u64, T)> {
        self.0@
    }

    /// Takes the element at the head, if there is one.
    pub fn next(&mut self) -> (item: Option<T>)
        ensures
            old(self)@.len() == 0 ==> item is None && final(self)@ == old(self)@,
            old(self)@.len() > 0 ==> item == Some(old(self)@[0].1) && final(self)@ == old(
                self,
            )@.drop_first(),
    {
        match self.0.head.take() {
            None => None,
            Some(node) => {
                let Node { key: _, elem, next } = *node;
                assert(entries(old(self).0.head).drop_first() =~= entries(next));
                self.0.head = next;
                Some(elem)
            },
        }
    }
}

/// `place` is the function that the classifier computes: whenever
/// `place_of(&e)` returns, its result is `place(e)`, the bucket of `e` and
/// the integer that stands for its key, or `None` for a key outside the
/// domain.
pub open spec fn places<T, F: Fn(&T) -> Option<(usize, u64)>>(
    place_of: F,
    place: spec_fn(T) -> Option<(usize, u64)>,
) -> bool {
    forall|e: T, p: Option<(usize, u64)>| #[trigger] place_of.ensures((&e,), p) ==> p == place(e)
}

/// The classifier has given `e` one of the first `buckets` buckets.
spec fn placed_inside<T, F: Fn(&T) -> Option<(usize, u64)>>(
    place_of: F,
    e: T,
    buckets: int,
) -> bool {
    exists|p: (usize, u64)| #[trigger] place_of.ensures((&e,), Some(p)) && p.0 < buckets
}

/// The bucket of `e`; -1 for a key outside the domain.
pub open spec fn slot_of<T>(place: spec_fn(T) -> Option<(usize, u64)>, e: T) -> int {
    match place(e) {
        Some(p) => p.0 as int,
        None => -1,
    }
}

/// The order in which a bucket sort leaves its output: by bucket, and
/// inside a bucket by key.
pub open spec fn by_place<T>(place: spec_fn(T) -> Option<(usize, u64)>) -> spec_fn(T, T) -> bool {
    |a: T, b: T|
        match (place(a), place(b)) {
            (Some(pa), Some(pb)) => pa.0 < pb.0 || (pa.0 == pb.0 && pa.1 <= pb.1),
            _ => false,
        }
}

/// Bucket `b` holds what belongs to it of the elements seen so far: with
/// their keys, ascending, ties in the order in which they were seen.
spec fn bucket_holds<T>(
    place: spec_fn(T) -> Option<(usize, u64)>,
    seen: Seq<T>,
    s: Seq<(u64, T)>,
    b: int,
) -> bool {
    &&& forall|m: int| 0 <= m < s.len() ==> place((#[trigger] s[m]).1) == Some((b as usize, s[m].0))
    &&& keys_ascend(s)
    &&& forall|x: T|
        slot_of(place, x) == b ==> #[trigger] elems(s).filter(tied_with(by_place(place), x))
            == seen.filter(tied_with(by_place(place), x))
}

/// Every bucket holds what belongs to it of the first `done` items.
spec fn filled<T>(
    place: spec_fn(T) -> Option<(usize, u64)>,
    items: Seq<T>,
    buckets: Seq<Bucket<T>>,
    done: int,
) -> bool {
    forall|b: int|
        0 <= b < buckets.len() ==> bucket_holds(place, items.take(done), (#[trigger] buckets[b])@, b)
}

proof fn lemma_bucket_takes<T>(
    place: spec_fn(T) -> Option<(usize, u64)>,
    seen: Seq<T>,
    s: Seq<(u64, T)>,
    b: int,
    key: u64,
    e: T,
)
    requires
        0 <= b <= usize::MAX,
        bucket_holds(place, seen, s, b),
        place(e) == Some((b as usize, key)),
    ensures
        bucket_holds(place, seen.push(e), s.insert(first_greater(s, key), (key, e)), b),
{
    broadcast use Seq::filter_distributes_over_add;
    broadcast use Seq::lemma_filter_push;

    lemma_first_greater(s, key);
    lemma_insert_keeps_ascending(s, key, e);
    let p = first_greater(s, key);
    let t = s.insert(p, (key, e));
    let rel = by_place(place);
    assert forall|m: int| 0 <= m < t.len() implies place((#[trigger] t[m]).1) == Some(
        (b as usize, t[m].0),
    ) by {
        if m < p {
            assert(t[m] == s[m]);
        } else if m > p {
            assert(t[m] == s[m - 1]);
        }
    }
    assert forall|x: T| slot_of(place, x) == b implies #[trigger] elems(t).filter(tied_with(rel, x))
        == seen.push(e).filter(tied_with(rel, x)) by {
        let pred = tied_with(rel, x);
        let front = elems(s.subrange(0, p));
        let back = elems(s.subrange(p, s.len() as int));
        assert(elems(s) =~= front + back);
        assert(elems(t) =~= front.push(e) + back);
        assert(elems(s).filter(pred) == seen.filter(pred));
        if pred(e) {
            assert forall|m: int| 0 <= m < back.len() implies !pred(#[trigger] back[m]) by {
                assert(back[m] == s[p + m].1);
                assert(s[p + m].0 > key);
            }
            lemma_filter_keeps_none(back, pred);
            assert(front.filter(pred).push(e) + Seq::<T>::empty() =~= (front.filter(pred)
                + Seq::<T>::empty()).push(e));
        }
    }
}

proof fn lemma_bucket_skips<T>(
    place: spec_fn(T) -> Option<(usize, u64)>,
    seen: Seq<T>,
    s: Seq<(u64, T)>,
    b: int,
    e: T,
)
    requires
        bucket_holds(place, seen, s, b),
        slot_of(place, e) != b,
    ensures
        bucket_holds(place, seen.push(e), s, b),
{
    broadcast use Seq::lemma_filter_push;

    assert forall|x: T| slot_of(place, x) == b implies #[trigger] elems(s).filter(
        tied_with(by_place(place), x),
    ) == seen.push(e).filter(tied_with(by_place(place), x)) by {
        assert(elems(s).filter(tied_with(by_place(place), x)) == seen.filter(
            tied_with(by_place(place), x),
        ));
    }
}

/// What the buckets from `from` on hold together.
spec fn total_from<T>(buckets: Seq<Bucket<T>>, from: int) -> Multiset<T>
    decreases buckets.len() - from,
{
    if from < 0 || from >= buckets.len() {
        Multiset::empty()
    } else {
        elems(buckets[from]@).to_multiset().add(total_from(buckets, from + 1))
    }
}

proof fn lemma_total_gains<T>(buckets: Seq<Bucket<T>>, from: int, b: int, grown: Bucket<T>, e: T)
    requires
        0 <= from <= b < buckets.len(),
        elems(grown@).to_multiset() == elems(buckets[b]@).to_multiset().insert(e),
    ensures
        total_from(buckets.update(b, grown), from) == total_from(buckets, from).insert(e),
    decreases b - from,
{
    let next = buckets.update(b, grown);
    if from < b {
        lemma_total_gains(buckets, from + 1, b, grown, e);
        assert(total_from(next, from) =~= total_from(buckets, from).insert(e));
    } else {
        lemma_total_same(buckets, next, b + 1);
        assert(total_from(next, from) =~= total_from(buckets, from).insert(e));
    }
}

proof fn lemma_total_same<T>(a: Seq<Bucket<T>>, b: Seq<Bucket<T>>, from: int)
    requires
        a.len() == b.len(),
        0 <= from,
        forall|m: int| from <= m < a.len() ==> a[m] == b[m],
    ensures
        total_from(a, from) == total_from(b, from),
    decreases a.len() - from,
{
    if from < a.len() {
        lemma_total_same(a, b, from + 1);
    }
}

proof fn lemma_total_of_empty<T>(buckets: Seq<Bucket<T>>, from: int)
    requires
        0 <= from,
        forall|m: int| from <= m < buckets.len() ==> (#[trigger] buckets[m])@.len() == 0,
    ensures
        total_from(buckets, from) == Multiset::<T>::empty(),
    decreases buckets.len() - from,
{
    broadcast use group_to_multiset_ensures;

    if from < buckets.len() {
        lemma_total_of_empty(buckets, from + 1);
        assert(elems(buckets[from]@).to_multiset().len() == 0);
        assert(total_from(buckets, from) =~= Multiset::<T>::empty());
    }
}

/// What emptying the buckets before bucket `b` has put out: their
/// elements in the order of their places, ties as the input had them.
spec fn drained<T>(
    place: spec_fn(T) -> Option<(usize, u64)>,
    items: Seq<T>,
    out: Seq<T>,
    b: int,
) -> bool {
    &&& forall|m: int| 0 <= m < out.len() ==> 0 <= slot_of(place, #[trigger] out[m]) < b
    &&& sorted_by(out, by_place(place))
    &&& forall|x: T| #[trigger]
        out.filter(tied_with(by_place(place), x)) == if 0 <= slot_of(place, x) < b {
            items.filter(tied_with(by_place(place), x))
        } else {
            Seq::<T>::empty()
        }
}

proof fn lemma_drained_nothing<T>(place: spec_fn(T) -> Option<(usize, u64)>, items: Seq<T>)
    ensures
        drained(place, items, Seq::<T>::empty(), 0),
{
    reveal(Seq::filter);
}

proof fn lemma_drain_step<T>(
    place: spec_fn(T) -> Option<(usize, u64)>,
    items: Seq<T>,
    out: Seq<T>,
    s: Seq<(u64, T)>,
    b: int,
)
    requires
        0 <= b <= usize::MAX,
        drained(place, items, out, b),
        bucket_holds(place, items, s, b),
    ensures
        drained(place, items, out + elems(s), b + 1),
{
    broadcast use Seq::filter_distributes_over_add;

    let rel = by_place(place);
    let more = elems(s);
    let all = out + more;
    assert forall|m: int| 0 <= m < more.len() implies place(#[trigger] more[m]) == Some(
        (b as usize, s[m].0),
    ) by {
        assert(more[m] == s[m].1);
    }
    assert forall|i: int, j: int| 0 <= i < j < all.len() implies #[trigger] rel(all[i], all[j]) by {
        if j < out.len() {
            assert(rel(out[i], out[j]));
        } else if i < out.len() {
            assert(0 <= slot_of(place, out[i]) < b);
            assert(place(more[j - out.len()]) == Some((b as usize, s[j - out.len()].0)));
        } else {
            assert(place(more[i - out.len()]) == Some((b as usize, s[i - out.len()].0)));
            assert(place(more[j - out.len()]) == Some((b as usize, s[j - out.len()].0)));
            assert(s[i - out.len()].0 <= s[j - out.len()].0);
        }
    }
    assert forall|m: int| 0 <= m < all.len() implies 0 <= slot_of(place, #[trigger] all[m]) < b
        + 1 by {
        if m >= out.len() {
            assert(place(more[m - out.len()]) == Some((b as usize, s[m - out.len()].0)));
        } else {
            assert(all[m] == out[m]);
        }
    }
    assert forall|x: T| #[trigger]
        all.filter(tied_with(rel, x)) == if 0 <= slot_of(place, x) < b + 1 {
            items.filter(tied_with(rel, x))
        } else {
            Seq::<T>::empty()
        } by {
        let pred = tied_with(rel, x);
        assert(all.filter(pred) == out.filter(pred) + more.filter(pred));
        if slot_of(place, x) == b {
            assert(more.filter(pred) == items.filter(pred));
            assert(out.filter(pred) + more.filter(pred) =~= more.filter(pred));
        } else {
            assert forall|m: int| 0 <= m < more.len() implies !pred(#[trigger] more[m]) by {
                assert(place(more[m]) == Some((b as usize, s[m].0)));
            }
            lemma_filter_keeps_none(more, pred);
            assert(out.filter(pred) + Seq::<T>::empty() =~= out.filter(pred));
        }
    }
}

proof fn lemma_drained_all<T>(
    place: spec_fn(T) -> Option<(usize, u64)>,
    items: Seq<T>,
    out: Seq<T>,
    buckets: int,
)
    requires
        drained(place, items, out, buckets),
        forall|m: int| 0 <= m < items.len() ==> 0 <= slot_of(place, #[trigger] items[m]) < buckets,
    ensures
        sorted_by(out, by_place(place)),
        keeps_ties(by_place(place), items, out),
{
    let rel = by_place(place);
    assert forall|x: T| #[trigger] out.filter(tied_with(rel, x)) == items.filter(tied_with(rel, x)) by {
        let pred = tied_with(rel, x);
        if !(0 <= slot_of(place, x) < buckets) {
            assert forall|m: int| 0 <= m < items.len() implies !pred(#[trigger] items[m]) by {
                assert(0 <= slot_of(place, items[m]) < buckets);
            }
            lemma_filter_keeps_none(items, pred);
        }
    }
}

/// The order of the keys alone, whatever the buckets.
pub open spec fn by_key_of_place<T>(place: spec_fn(T) -> Option<(usize, u64)>) -> spec_fn(
    T,
    T,
) -> bool {
    |a: T, b: T|
        match (place(a), place(b)) {
            (Some(pa), Some(pb)) => pa.1 <= pb.1,
            _ => false,
        }
}

/// A greater key never falls into an earlier bucket.
pub open spec fn buckets_follow_keys<T>(place: spec_fn(T) -> Option<(usize, u64)>) -> bool {
    forall|a: T, b: T|
        #![trigger place(a), place(b)]
        place(a) is Some && place(b) is Some && place(a)->Some_0.1 <= place(b)->Some_0.1
            ==> place(a)->Some_0.0 <= place(b)->Some_0.0
}

/// Where the buckets follow the keys, the order of the places is the order
/// of the keys: what a bucket sort puts out is sorted by key, and elements
/// of one key stand in their input order.
pub proof fn lemma_sorted_by_key<T>(
    place: spec_fn(T) -> Option<(usize, u64)>,
    input: Seq<T>,
    out: Seq<T>,
)
    requires
        buckets_follow_keys(place),
        input.to_multiset() == out.to_multiset(),
        forall|m: int| 0 <= m < input.len() ==> place(#[trigger] input[m]) is Some,
        sorted_by(out, by_place(place)),
        keeps_ties(by_place(place), input, out),
    ensures
        sorted_by(out, by_key_of_place(place)),
        keeps_ties(by_key_of_place(place), input, out),
{
    let placed = |e: T| place(e) is Some;
    lemma_all_rearranged(input, out, placed);
    assert forall|i: int, j: int| 0 <= i < j < out.len() implies #[trigger] by_key_of_place(place)(
        out[i],
        out[j],
    ) by {
        assert(by_place(place)(out[i], out[j]));
    }
    assert forall|x: T| #[trigger]
        out.filter(tied_with(by_key_of_place(place), x)) == input.filter(
            tied_with(by_key_of_place(place), x),
        ) by {
        let p = tied_with(by_key_of_place(place), x);
        let q = tied_with(by_place(place), x);
        assert forall|m: int| 0 <= m < out.len() implies p(#[trigger] out[m]) == q(out[m]) by {
            assert(placed(out[m]));
        }
        assert forall|m: int| 0 <= m < input.len() implies p(#[trigger] input[m]) == q(input[m]) by {
            assert(placed(input[m]));
        }
        lemma_filters_agree(out, p, q);
        lemma_filters_agree(input, p, q);
        assert(out.filter(q) == input.filter(q));
    }
}

/// Sorts by place: by bucket, and inside each bucket by key, elements of
/// one bucket and one key in their input order. There are as many
/// buckets as elements. Fails with `KEY_OUT_OF_DOMAIN` when the classifier
/// gives an element no place, or a bucket that does not exist.
pub fn bucket_sort<T, F>(arr: Vec<T>, place_of: F) -> (res: Result<Vec<T>, &'static str>) where
    F: Fn(&T) -> Option<(usize, u64)>,

    requires
        forall|i: int| 0 <= i < arr@.len() ==> #[trigger] place_of.requires((&arr@[i],)),
    ensures
        res matches Ok(out) ==> out@.to_multiset() == arr@.to_multiset() && out@.len() == arr@.len()
            && (arr@.len() <= 1 ==> out@ == arr@),
        res matches Err(message) ==> message == KEY_OUT_OF_DOMAIN,
        forall|place: spec_fn(T) -> Option<(usize, u64)>| #[trigger]
            places(place_of, place) ==> (res is Err <==> exists|i: int|
                0 <= i < arr@.len() && !(0 <= #[trigger] slot_of(place, arr@[i]) < arr@.len())),
        forall|place: spec_fn(T) -> Option<(usize, u64)>| #[trigger]
            places(place_of, place) ==> (res matches Ok(out) ==> sorted_by(out@, by_place(place))
                && keeps_ties(by_place(place), arr@, out@)),
{
    let ghost items = arr@;
    let n: usize = arr.len();
    let mut buckets: Vec<Bucket<T>> = Vec::with_capacity(n);
    let mut made: usize = 0;
    while made < n
        invariant
            made <= n,
            buckets@.len() == made,
            forall|m: int| 0 <= m < made ==> (#[trigger] buckets@[m])@.len() == 0,
        decreases n - made,
    {
        buckets.push(Bucket::new());
        made += 1;
    }
    proof {
        broadcast use group_to_multiset_ensures;

        lemma_total_of_empty(buckets@, 0);
        assert(items.take(0) =~= Seq::<T>::empty());
        assert(items.take(0).to_multiset().len() == 0);
        assert(total_from(buckets@, 0) =~= items.take(0).to_multiset());
        assert forall|place: spec_fn(T) -> Option<(usize, u64)>| #[trigger]
            places(place_of, place) implies filled(place, items, buckets@, 0) by {
            reveal(Seq::filter);
            assert forall|b: int| 0 <= b < buckets@.len() implies bucket_holds(
                place,
                items.take(0),
                (#[trigger] buckets@[b])@,
                b,
            ) by {
                assert(elems(buckets@[b]@) =~= Seq::<T>::empty());
            }
        }
    }
    for e in it: arr
        invariant
            it.seq() == items,
            n == items.len(),
            buckets@.len() == n,
            forall|i: int| 0 <= i < items.len() ==> #[trigger] place_of.requires((&items[i],)),
            total_from(buckets@, 0) == items.take(it.index() as int).to_multiset(),
            forall|i: int|
                0 <= i < it.index() ==> #[trigger] placed_inside(place_of, items[i], n as int),
            forall|place: spec_fn(T) -> Option<(usize, u64)>| #[trigger]
                places(place_of, place) ==> filled(place, items, buckets@, it.index() as int),
    {
        let ghost done = it.index() as int;
        let ghost before = buckets@;
        assert(e == items[done]);
        let slot: usize;
        let key: u64;
        match place_of(&e) {
            Some(found) => {
                slot = found.0;
                key = found.1;
            },
            None => {
                slot = n;
                key = 0;
            },
        }
        if slot >= n {
            proof {
                assert forall|place: spec_fn(T) -> Option<(usize, u64)>| #[trigger]
                    places(place_of, place) implies exists|i: int|
                    0 <= i < items.len() && !(0 <= #[trigger] slot_of(place, items[i])
                        < items.len()) by {
                    assert(!(0 <= slot_of(place, items[done]) < items.len()));
                }
            }
            return Err(KEY_OUT_OF_DOMAIN);
        }
        buckets[slot].insert(key, e);
        proof {
            broadcast use group_to_multiset_ensures;

            let grown = buckets@[slot as int];
            let s = before[slot as int]@;
            let p = first_greater(s, key);
            lemma_first_greater(s, key);
            assert(buckets@ =~= before.update(slot as int, grown));
            assert(elems(grown@) =~= elems(s).insert(p, e));
            lemma_total_gains(before, 0, slot as int, grown, e);
            assert(items.take(done + 1) =~= items.take(done).push(e));
            assert(place_of.ensures((&items[done],), Some((slot, key))));
            assert(placed_inside(place_of, items[done], n as int));
            assert forall|place: spec_fn(T) -> Option<(usize, u64)>| #[trigger]
                places(place_of, place) implies filled(place, items, buckets@, done + 1) by {
                assert(filled(place, items, before, done));
                assert(place(e) == Some((slot, key)));
                assert forall|b: int| 0 <= b < buckets@.len() implies bucket_holds(
                    place,
                    items.take(done + 1),
                    (#[trigger] buckets@[b])@,
                    b,
                ) by {
                    assert(bucket_holds(place, items.take(done), before[b]@, b));
                    if b == slot {
                        lemma_bucket_takes(place, items.take(done), s, b, key, e);
                    } else {
                        lemma_bucket_skips(place, items.take(done), before[b]@, b, e);
                    }
                }
            }
        }
    }
    let ghost full = buckets@;
    let mut out: Vec<T> = Vec::with_capacity(n);
    proof {
        assert(items.take(n as int) =~= items);
        assert(total_from(full, 0).add(out@.to_multiset()) =~= items.to_multiset()) by {
            broadcast use group_to_multiset_ensures;

            assert(out@.to_multiset().len() == 0);
        }
        assert forall|place: spec_fn(T) -> Option<(usize, u64)>| #[trigger]
            places(place_of, place) implies drained(place, items, out@, 0) by {
            lemma_drained_nothing(place, items);
        }
    }
    for bucket in it: buckets
        invariant
            it.seq() == full,
            full.len() == n,
            n == items.len(),
            total_from(full, it.index() as int).add(out@.to_multiset()) == items.to_multiset(),
            forall|place: spec_fn(T) -> Option<(usize, u64)>| #[trigger]
                places(place_of, place) ==> filled(place, items, full, n as int) && drained(
                    place,
                    items,
                    out@,
                    it.index() as int,
                ),
    {
        let ghost b = it.index() as int;
        let ghost start = out@;
        let ghost content = bucket@;
        assert(bucket == full[b]);
        let mut rest = bucket.into_iter();
        loop
            invariant
                content.len() >= rest@.len(),
                rest@ == content.skip(content.len() - rest@.len()),
                out@ == start + elems(content.take(content.len() - rest@.len())),
            ensures
                out@ == start + elems(content),
            decreases rest@.len(),
        {
            let ghost taken = content.len() - rest@.len();
            match rest.next() {
                Some(e) => {
                    out.push(e);
                    proof {
                        assert(content.skip(taken)[0] == content[taken]);
                        assert(content.skip(taken).drop_first() =~= content.skip(taken + 1));
                        assert(content.take(taken + 1) =~= content.take(taken).push(content[taken]));
                        assert(elems(content.take(taken + 1)) =~= elems(content.take(taken)).push(e));
                    }
                },
                None => {
                    proof {
                        assert(content.take(content.len() as int) =~= content);
                    }
                    break ;
                },
            }
        }
        proof {
            broadcast use vstd::seq_lib::lemma_multiset_commutative;

            assert(total_from(full, b + 1).add(out@.to_multiset()) =~= items.to_multiset());
            assert forall|place: spec_fn(T) -> Option<(usize, u64)>| #[trigger]
                places(place_of, place) implies drained(place, items, out@, b + 1) by {
                assert(filled(place, items, full, n as int));
                assert(items.take(n as int) =~= items);
                assert(bucket_holds(place, items.take(n as int), full[b]@, b));
                lemma_drain_step(place, items, start, content, b);
            }
        }
    }
    proof {
        assert(out@.to_multiset() =~= items.to_multiset());
        lemma_rearranged_length(items, out@);
        if items.len() <= 1 {
            lemma_short_rearranged(items, out@);
        }
        assert forall|place: spec_fn(T) -> Option<(usize, u64)>| #[trigger]
            places(place_of, place) implies sorted_by(out@, by_place(place)) && keeps_ties(
            by_place(place),
            items,
            out@,
        ) && !(exists|i: int|
            0 <= i < items.len() && !(0 <= #[trigger] slot_of(place, items[i]) < items.len())) by {
            assert forall|m: int| 0 <= m < items.len() implies 0 <= slot_of(
                place,
                #[trigger] items[m],
            ) < n by {
                assert(placed_inside(place_of, items[m], n as int));
                let p = choose|p: (usize, u64)|
                    #[trigger] place_of.ensures((&items[m],), Some(p)) && p.0 < n;
                assert(place(items[m]) == Some(p));
            }
            lemma_drained_all(place, items, out@, n as int);
        }
    }
    Ok(out)
}

} // verus!
