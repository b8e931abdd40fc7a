//! The contiguous run of greatest sum, found by divide and conquer: it lies
//! in the left half, in the right half, or across the middle.

use vstd::prelude::*;

verus! {

/// The sum of the entries in `from..to`.
pub open spec fn range_sum(s: Seq<i32>, from: int, to: int) -> int
    decreases to - from,
{
    if from >= to {
        0
    } else {
        range_sum(s, from, to - 1) + s[to - 1]
    }
}

/// A range is the sum of its two parts.
pub proof fn lemma_range_sum_split(s: Seq<i32>, from: int, mid: int, to: int)
    requires
        from <= mid <= to,
    ensures
        range_sum(s, from, to) == range_sum(s, from, mid) + range_sum(s, mid, to),
    decreases to - mid,
{
    if mid < to {
        lemma_range_sum_split(s, from, mid, to - 1);
    }
}

/// No run inside `low..high` sums to more than the run `first..=last`,
/// whose sum is `sum`.
pub open spec fn is_maximum_run(s: Seq<i32>, low: int, high: int, first: int, last: int, sum: int) -> bool {
    &&& low <= first <= last < high
    &&& sum == range_sum(s, first, last + 1)
    &&& forall|a: int, b: int| low <= a <= b < high ==> #[trigger] range_sum(s, a, b + 1) <= sum
}

/// Every run inside `low..high` has a sum that the machine integer holds.
pub open spec fn sums_fit(s: Seq<i32>, low: int, high: int) -> bool {
    forall|a: int, b: int|
        low <= a <= b <= high ==> i32::MIN <= #[trigger] range_sum(s, a, b) <= i32::MAX
}

/// The run of greatest sum among those that hold both the entry before
/// `mid` and the entry at `mid`.
pub fn find_max_crossing_subarray(vec: &Vec<i32>, low: usize, mid: usize, high: usize) -> (res: (
    usize,
    usize,
    i32,
))
    requires
        low < mid < high <= vec@.len(),
        sums_fit(vec@, low as int, high as int),
    ensures
        low <= res.0 < mid <= res.1 < high,
        res.2 == range_sum(vec@, res.0 as int, res.1 + 1),
        forall|a: int, b: int|
            low <= a < mid <= b < high ==> #[trigger] range_sum(vec@, a, b + 1) <= res.2,
{
    let ghost s = vec@;
    let mut left_sum: i32 = i32::MIN;
    let mut sum: i32 = 0;
    let mut max_left: usize = mid - 1;
    let mut i: usize = mid;
    while i > low
        invariant
            low <= i <= mid < high <= s.len(),
            s == vec@,
            sums_fit(s, low as int, high as int),
            sum == range_sum(s, i as int, mid as int),
            max_left < mid,
            i < mid ==> i <= max_left,
            i == mid ==> left_sum == i32::MIN && max_left == mid - 1,
            i < mid ==> left_sum == range_sum(s, max_left as int, mid as int),
            forall|a: int| i <= a < mid ==> #[trigger] range_sum(s, a, mid as int) <= left_sum,
        decreases i,
    {
        i -= 1;
        proof {
            lemma_range_sum_split(s, i as int, i + 1, mid as int);
            assert(range_sum(s, i as int, i + 1) == s[i as int]) by {
                assert(range_sum(s, i as int, i as int) == 0);
            }
            assert(i32::MIN <= range_sum(s, i as int, mid as int) <= i32::MAX);
        }
        sum = sum + vec[i];
        if sum > left_sum {
            left_sum = sum;
            max_left = i;
        }
    }
    let mut right_sum: i32 = i32::MIN;
    sum = 0;
    let mut max_right: usize = mid;
    let mut j: usize = mid;
    while j < high
        invariant
            low < mid <= j <= high <= s.len(),
            s == vec@,
            sums_fit(s, low as int, high as int),
            sum == range_sum(s, mid as int, j as int),
            mid <= max_right < high,
            j == mid ==> right_sum == i32::MIN && max_right == mid,
            j > mid ==> max_right < j && right_sum == range_sum(s, mid as int, max_right + 1),
            forall|b: int| mid <= b < j ==> #[trigger] range_sum(s, mid as int, b + 1) <= right_sum,
        decreases high - j,
    {
        proof {
            assert(i32::MIN <= range_sum(s, mid as int, j + 1) <= i32::MAX);
        }
        sum = sum + vec[j];
        if sum >= right_sum {
            right_sum = sum;
            max_right = j;
        }
        j += 1;
    }
    proof {
        lemma_range_sum_split(s, max_left as int, mid as int, max_right + 1);
        assert(i32::MIN <= range_sum(s, max_left as int, max_right + 1) <= i32::MAX);
        assert forall|a: int, b: int| low <= a < mid <= b < high implies #[trigger] range_sum(
            s,
            a,
            b + 1,
        ) <= left_sum + right_sum by {
            lemma_range_sum_split(s, a, mid as int, b + 1);
            assert(range_sum(s, a, mid as int) <= left_sum);
            assert(range_sum(s, mid as int, b + 1) <= right_sum);
        }
    }
    (max_left, max_right, left_sum + right_sum)
}

/// The run of greatest sum inside `low..high`, as its first place, its last
/// place and its sum. An empty vector gives `(0, 0, 0)`; a range of at most
/// one place gives the entry at `low`.
pub fn find_maximum_subarray(vec: &Vec<i32>, low: usize, high: usize) -> (res: (usize, usize, i32))
    requires
        vec@.len() > 0 ==> low <= high && low < vec@.len() && (high - low > 1 ==> high
            <= vec@.len() && sums_fit(vec@, low as int, high as int)),
    ensures
        vec@.len() == 0 ==> res == (0usize, 0usize, 0i32),
        vec@.len() > 0 && high - low <= 1 ==> res == (low, low, vec@[low as int]),
        vec@.len() > 0 && low < high <= vec@.len() ==> is_maximum_run(
            vec@,
            low as int,
            high as int,
            res.0 as int,
            res.1 as int,
            res.2 as int,
        ),
    decreases high - low,
{
    let ghost s = vec@;
    if vec.len() == 0 {
        (0, 0, 0)
    } else if high - low <= 1 {
        proof {
            assert(range_sum(s, low as int, low + 1) == s[low as int]) by {
                assert(range_sum(s, low as int, low as int) == 0);
            }
            if low < high {
                assert forall|a: int, b: int| low <= a <= b < high implies #[trigger] range_sum(
                    s,
                    a,
                    b + 1,
                ) <= s[low as int] by {
                }
            }
        }
        (low, low, vec[low])
    } else {
        let mid: usize = high - (high - low) / 2;
        proof {
            assert forall|a: int, b: int| low <= a <= b <= mid implies i32::MIN
                <= #[trigger] range_sum(s, a, b) <= i32::MAX by {
            }
            assert forall|a: int, b: int| mid <= a <= b <= high implies i32::MIN
                <= #[trigger] range_sum(s, a, b) <= i32::MAX by {
            }
        }
        let (left_low, left_high, left_sum) = find_maximum_subarray(vec, low, mid);
        let (right_low, right_high, right_sum) = find_maximum_subarray(vec, mid, high);
        let (cross_low, cross_high, cross_sum) = find_max_crossing_subarray(vec, low, mid, high);
        proof {
            assert forall|a: int, b: int| low <= a <= b < high implies #[trigger] range_sum(
                s,
                a,
                b + 1,
            ) <= left_sum || range_sum(s, a, b + 1) <= right_sum || range_sum(s, a, b + 1)
                <= cross_sum by {
            }
        }
        if left_sum >= right_sum && left_sum >= cross_sum {
            (left_low, left_high, left_sum)
        } else if right_sum >= left_sum && right_sum >= cross_sum {
            (right_low, right_high, right_sum)
        } else {
            (cross_low, cross_high, cross_sum)
        }
    }
}

} // verus!
