//! Sorting over owned elements that need not be copyable, comparable or
//! default-constructible, with contracts that say what each sorter does.
//!
//! - Comparison sorts rearrange a borrowed sequence in place according to a
//!   comparator: [`InsertionSorter`] (binary insertion, stable),
//!   [`MergeSorter`] (stable), [`QuickSorter`] and [`BiheapSorter`]. All of
//!   them implement [`CompareSorter`]; [`order`] holds the vocabulary of
//!   their contracts.
//! - Key-bounded sorts consume a sequence and return a new one, or fail on
//!   a key out of bounds: [`counting_sort`], [`radix_sort`] on top of it,
//!   and [`bucket_sort`] with its ordered [`Bucket`]s.
//! - [`BiheapPriorityQueue`] is a max-priority queue of integers, and
//!   [`find_maximum_subarray`] finds the run of greatest sum.
//!
//! Elements are only ever moved: entries change places by swapping, or
//! pass through slots that are filled and emptied exactly once ([`slots`]).

pub mod bucket;
pub mod counting;
pub mod heap;
pub mod insertion;
pub mod merge;
pub mod order;
pub mod priority_queue;
pub mod quick;
pub mod radix;
pub mod sequences;
pub mod slots;
pub mod sorter;
pub mod subarray;

pub use bucket::{bucket_sort, Bucket, BucketIter};
pub use counting::counting_sort;
pub use heap::BiheapSorter;
pub use insertion::InsertionSorter;
pub use merge::MergeSorter;
pub use priority_queue::BiheapPriorityQueue;
pub use quick::QuickSorter;
pub use radix::radix_sort;
pub use sorter::CompareSorter;
pub use subarray::find_maximum_subarray;
