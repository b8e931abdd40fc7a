//! The contract that every comparison sorter meets.

use vstd::prelude::*;
use vstd::relations::sorted_by;
use crate::order::{answers_all, decides, not_after, orders, strict_weak_order};

verus! {

/// A sorter wraps the sequence it works on and rearranges it in place.
///
/// `compare(prev, next)` says whether `prev` may stand directly before
/// `next`; with `|a, b| a > b` the outcome is descending.
pub trait CompareSorter {
    type Element;

    /// The sequence that the sorter holds, front to back. A sorter that
    /// does not say what it holds is taken to hold nothing.
    open spec fn elements(&self) -> Seq<Self::Element> {
        Seq::empty()
    }

    /// Rearranges the sequence. No entry is lost or repeated, whatever
    /// `compare` answers. Where `compare` decides a relation that orders the
    /// entries, that relation afterwards holds of every entry and every
    /// later one. Where it decides a strict order such as `<`, under which
    /// repeated keys are ordered neither way, no later entry has to stand
    /// before an earlier one afterwards.
    fn sort_by<F: Fn(&Self::Element, &Self::Element) -> bool>(&mut self, compare: F)
        requires
            answers_all(compare),
        ensures
            final(self).elements().to_multiset() == old(self).elements().to_multiset(),
            final(self).elements().len() == old(self).elements().len(),
            forall|rel: spec_fn(Self::Element, Self::Element) -> bool|
                #[trigger] decides(compare, rel) && orders(rel, old(self).elements()) ==> sorted_by(
                    final(self).elements(),
                    rel,
                ),
            forall|rel: spec_fn(Self::Element, Self::Element) -> bool|
                #[trigger] decides(compare, rel) && strict_weak_order(rel) ==> sorted_by(
                    final(self).elements(),
                    not_after(rel),
                ),
            old(self).elements().len() <= 1 ==> final(self).elements() == old(self).elements(),
    ;
}

} // verus!
