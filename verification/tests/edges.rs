use algorithms::heap::{build_max_heap, max_heapify};
use algorithms::insertion::insertion_point;
use algorithms::merge::{merge, merge_sort};
use algorithms::quick::{partition, quick_sort};
use algorithms::radix::checked_power;
use algorithms::slots::{swap_entries, unwrap_all, wrap_all};
use algorithms::{
    counting_sort, radix_sort, BiheapSorter, CompareSorter, InsertionSorter, MergeSorter,
    QuickSorter,
};

// A fixed sequence with many repeated keys; the second component tells
// equal keys apart.
fn scrambled(len: usize) -> Vec<(u32, usize)> {
    let mut state: u32 = 12345;
    (0..len)
        .map(|i| {
            state = state.wrapping_mul(1103515245).wrapping_add(12345);
            ((state >> 16) % 17, i)
        })
        .collect()
}

fn by_key_stable(v: &[(u32, usize)]) -> Vec<(u32, usize)> {
    let mut expected = v.to_vec();
    expected.sort_by_key(|e| e.0);
    expected
}

fn same_entries(a: &[(u32, usize)], b: &[(u32, usize)]) -> bool {
    let mut a = a.to_vec();
    let mut b = b.to_vec();
    a.sort();
    b.sort();
    a == b
}

fn in_order(v: &[(u32, usize)]) -> bool {
    v.windows(2).all(|w| w[0].0 <= w[1].0)
}

#[test]
fn every_sorter_leaves_nothing_and_one_alone() {
    let mut empty: Vec<i32> = vec![];
    InsertionSorter(&mut empty).sort_by(|a, b| a <= b);
    MergeSorter(&mut empty).sort_by(|a, b| a <= b);
    QuickSorter(&mut empty).sort_by(|a, b| a <= b);
    BiheapSorter(&mut empty).sort_by(|a, b| a <= b);
    assert_eq!(empty, vec![]);
    assert_eq!(counting_sort(vec![], 0, |e: &usize| *e), Ok(vec![]));
    assert_eq!(radix_sort(vec![], 10, 3), Ok(vec![]));

    let mut one = vec![7];
    InsertionSorter(&mut one).sort_by(|a, b| a <= b);
    MergeSorter(&mut one).sort_by(|a, b| a <= b);
    QuickSorter(&mut one).sort_by(|a, b| a <= b);
    BiheapSorter(&mut one).sort_by(|a, b| a <= b);
    assert_eq!(one, vec![7]);
    assert_eq!(counting_sort(vec![7], 8, |e: &usize| *e), Ok(vec![7]));
    assert_eq!(radix_sort(vec![7], 10, 1), Ok(vec![7]));
}

#[test]
fn every_sorter_rearranges_and_orders() {
    for len in [2, 3, 10, 64, 257] {
        let input = scrambled(len);

        let mut v = input.clone();
        InsertionSorter(&mut v).sort_by(|a, b| a.0 <= b.0);
        assert_eq!(v, by_key_stable(&input));

        let mut v = input.clone();
        MergeSorter(&mut v).sort_by(|a, b| a.0 <= b.0);
        assert_eq!(v, by_key_stable(&input));

        let mut v = input.clone();
        QuickSorter(&mut v).sort_by(|a, b| a.0 <= b.0);
        assert!(in_order(&v) && same_entries(&v, &input));

        let mut v = input.clone();
        BiheapSorter(&mut v).sort_by(|a, b| a.0 <= b.0);
        assert!(in_order(&v) && same_entries(&v, &input));

        let v = counting_sort(input.clone(), 17, |e| e.0 as usize).unwrap();
        assert_eq!(v, by_key_stable(&input));
    }
}

#[test]
fn a_comparator_that_is_no_order_loses_nothing() {
    let input = scrambled(50);
    let odd = |a: &(u32, usize), b: &(u32, usize)| (a.0 + b.0 + a.1 as u32) % 3 == 0;

    let mut v = input.clone();
    InsertionSorter(&mut v).sort_by(odd);
    assert!(same_entries(&v, &input));
    let mut v = input.clone();
    MergeSorter(&mut v).sort_by(odd);
    assert!(same_entries(&v, &input));
    let mut v = input.clone();
    QuickSorter(&mut v).sort_by(odd);
    assert!(same_entries(&v, &input));
    let mut v = input.clone();
    BiheapSorter(&mut v).sort_by(odd);
    assert!(same_entries(&v, &input));
}

#[test]
fn sorting_what_is_sorted_changes_nothing() {
    let sorted = by_key_stable(&scrambled(100));

    let mut v = sorted.clone();
    InsertionSorter(&mut v).sort_by(|a, b| a.0 <= b.0);
    assert_eq!(v, sorted);
    let mut v = sorted.clone();
    MergeSorter(&mut v).sort_by(|a, b| a.0 <= b.0);
    assert_eq!(v, sorted);
    let mut v = sorted.clone();
    QuickSorter(&mut v).sort_by(|a, b| a.0 <= b.0);
    assert_eq!(v, sorted);

    // heap sort promises this only where no two different entries are tied
    let mut distinct: Vec<u32> = (0..100).map(|i| i * 3).collect();
    let expected = distinct.clone();
    BiheapSorter(&mut distinct).sort_by(|a, b| a <= b);
    assert_eq!(distinct, expected);
}

#[test]
fn heap_sort_may_reorder_ties() {
    let mut v = vec![(0, 'a'), (0, 'b'), (0, 'c'), (0, 'd')];
    BiheapSorter(&mut v).sort_by(|a, b| a.0 <= b.0);
    assert_eq!(v, vec![(0, 'b'), (0, 'd'), (0, 'a'), (0, 'c')]);
}

#[test]
fn insertion_point_is_behind_the_entries_that_fit() {
    let v = vec![1, 3, 3, 5, 9, 0, 0];
    let le = |a: &i32, b: &i32| a <= b;
    let lt = |a: &i32, b: &i32| a < b;
    assert_eq!(insertion_point(&v, 5, &3, &le), 3);
    assert_eq!(insertion_point(&v, 5, &3, &lt), 1);
    assert_eq!(insertion_point(&v, 5, &0, &le), 0);
    assert_eq!(insertion_point(&v, 5, &10, &le), 5);
    assert_eq!(insertion_point(&v, 0, &10, &le), 0);
}

#[test]
fn merge_prefers_the_left_run_on_ties() {
    let left = vec![(1, 'l'), (3, 'l'), (5, 'l')];
    let right = vec![(1, 'r'), (2, 'r'), (5, 'r'), (6, 'r')];
    let le = |a: &(i32, char), b: &(i32, char)| a.0 <= b.0;
    assert_eq!(
        merge(left, right, &le),
        vec![(1, 'l'), (1, 'r'), (2, 'r'), (3, 'l'), (5, 'l'), (5, 'r'), (6, 'r')]
    );
    let lt = |a: &(i32, char), b: &(i32, char)| a.0 < b.0;
    assert_eq!(
        merge(vec![(1, 'l')], vec![(1, 'r')], &lt),
        vec![(1, 'r'), (1, 'l')]
    );
    assert_eq!(merge(vec![], vec![4, 5], &|a: &i32, b: &i32| a <= b), vec![4, 5]);
    assert_eq!(merge(vec![4, 5], vec![], &|a: &i32, b: &i32| a <= b), vec![4, 5]);
}

#[test]
fn merge_sort_empties_the_slots_it_sorts() {
    let mut source = vec![Some(9), Some(4), Some(7), Some(1), Some(8)];
    let sorted = merge_sort(&mut source, &|a: &i32, b: &i32| a <= b, 1, 4);
    assert_eq!(sorted, vec![1, 4, 7]);
    assert_eq!(source, vec![Some(9), None, None, None, Some(8)]);
}

#[test]
fn partition_splits_around_the_last_entry() {
    let mut v = vec![22, 43, 145, 1, 9];
    let divider = partition(&mut v, &|a: &i32, b: &i32| a < b, 0, 5);
    assert_eq!(divider, 1);
    assert_eq!(v, vec![1, 9, 145, 22, 43]);
}

#[test]
fn quick_sort_stays_inside_its_range() {
    let mut v = vec![9, 8, 7, 6, 5, 4, 3];
    quick_sort(&mut v, &|a: &i32, b: &i32| a <= b, 2, 5);
    assert_eq!(v, vec![9, 8, 5, 6, 7, 4, 3]);
    quick_sort(&mut v, &|a: &i32, b: &i32| a <= b, 3, 3);
    assert_eq!(v, vec![9, 8, 5, 6, 7, 4, 3]);
}

#[test]
fn max_heapify_lets_a_small_root_sink() {
    let mut v = vec![1, 9, 8, 4, 7, 6, 5];
    max_heapify(&mut v, &|a: &i32, b: &i32| a < b, 0, 7);
    assert_eq!(v, vec![9, 7, 8, 4, 1, 6, 5]);
    // entries from the heap size on are out of sight
    let mut v = vec![1, 9, 8];
    max_heapify(&mut v, &|a: &i32, b: &i32| a < b, 0, 2);
    assert_eq!(v, vec![9, 1, 8]);
}

#[test]
fn build_max_heap_puts_every_parent_above_its_children() {
    let mut v = vec![4, 1, 3, 2, 16, 9, 10, 14, 8, 7];
    build_max_heap(&mut v, &|a: &i32, b: &i32| a < b);
    assert_eq!(v, vec![16, 14, 10, 8, 7, 9, 3, 2, 4, 1]);
}

#[test]
fn swap_entries_exchanges_two_places() {
    let mut v = vec!['a', 'b', 'c', 'd'];
    swap_entries(&mut v, 0, 3);
    assert_eq!(v, vec!['d', 'b', 'c', 'a']);
    swap_entries(&mut v, 2, 1);
    assert_eq!(v, vec!['d', 'c', 'b', 'a']);
    swap_entries(&mut v, 1, 1);
    assert_eq!(v, vec!['d', 'c', 'b', 'a']);
}

#[test]
fn slots_wrap_and_unwrap_in_order() {
    let slots = wrap_all(vec![String::from("x"), String::from("y")]);
    assert_eq!(slots, vec![Some(String::from("x")), Some(String::from("y"))]);
    assert_eq!(unwrap_all(slots), vec![String::from("x"), String::from("y")]);
}

#[test]
fn counting_sort_checks_the_bound() {
    assert_eq!(counting_sort(vec![9usize, 0, 9], 10, |e| *e), Ok(vec![0, 9, 9]));
    assert_eq!(counting_sort(vec![9usize, 0, 10], 10, |e| *e), Err("元素值溢出"));
    assert_eq!(counting_sort(vec![0usize], 0, |e| *e), Err("元素值溢出"));
}

#[test]
fn radix_sort_checks_the_digits() {
    assert_eq!(radix_sort(vec![22, 43, 145, 1, 9], 10, 3), Ok(vec![1, 9, 22, 43, 145]));
    assert_eq!(radix_sort(vec![999, 0, 1000], 10, 3), Err("Element overflow!"));
    assert_eq!(radix_sort(vec![999, 0, 998], 10, 3), Ok(vec![0, 998, 999]));
    assert_eq!(radix_sort(vec![1, 2], 10, 100), Err("Max value overflow!"));
    assert_eq!(radix_sort(vec![], 10, 100), Err("Max value overflow!"));
}

#[test]
fn radix_sort_takes_any_radix() {
    let input: Vec<usize> = scrambled(200).iter().map(|e| (e.0 as usize) * 13 + e.1).collect();
    let mut expected = input.clone();
    expected.sort();
    assert_eq!(radix_sort(input.clone(), 2, 12), Ok(expected.clone()));
    assert_eq!(radix_sort(input.clone(), 16, 3), Ok(expected.clone()));
    assert_eq!(radix_sort(input.clone(), 4096, 1), Ok(expected.clone()));
    assert_eq!(radix_sort(input, 7, 5), Ok(expected));
}

#[test]
fn radix_sort_with_a_degenerate_radix() {
    // no digits: only zero has none
    assert_eq!(radix_sort(vec![0, 0], 10, 0), Ok(vec![0, 0]));
    assert_eq!(radix_sort(vec![0, 1], 10, 0), Err("Element overflow!"));
    // radix one: every digit is zero
    assert_eq!(radix_sort(vec![0, 0], 1, 5), Ok(vec![0, 0]));
    assert_eq!(radix_sort(vec![1], 1, 5), Err("Element overflow!"));
    // radix zero: nothing has a digit
    assert_eq!(radix_sort(vec![], 0, 5), Ok(vec![]));
    assert_eq!(radix_sort(vec![0], 0, 5), Err("Element overflow!"));
    assert_eq!(radix_sort(vec![0], 0, 0), Ok(vec![0]));
}

#[test]
fn checked_power_is_exact_or_nothing() {
    assert_eq!(checked_power(10, 3), Some(1000));
    assert_eq!(checked_power(2, 10), Some(1024));
    assert_eq!(checked_power(7, 0), Some(1));
    assert_eq!(checked_power(0, 0), Some(1));
    assert_eq!(checked_power(0, 9), Some(0));
    assert_eq!(checked_power(1, u32::MAX), Some(1));
    assert_eq!(checked_power(2, usize::BITS - 1), Some(1usize << (usize::BITS - 1)));
    assert_eq!(checked_power(2, usize::BITS), None);
    assert_eq!(checked_power(usize::MAX, 2), None);
    assert_eq!(checked_power(usize::MAX, 1), Some(usize::MAX));
}

#[test]
fn a_strict_comparator_sorts_repeated_keys() {
    let mut v = vec![2, 2, 1];
    InsertionSorter(&mut v).sort_by(|a, b| a < b);
    assert_eq!(v, vec![1, 2, 2]);
    let mut v = vec![2, 2, 1];
    MergeSorter(&mut v).sort_by(|a, b| a < b);
    assert_eq!(v, vec![1, 2, 2]);
    let mut v = vec![2, 2, 1];
    QuickSorter(&mut v).sort_by(|a, b| a < b);
    assert_eq!(v, vec![1, 2, 2]);
    let mut v = vec![2, 2, 1];
    BiheapSorter(&mut v).sort_by(|a, b| a < b);
    assert_eq!(v, vec![1, 2, 2]);

    for len in [2, 3, 10, 64, 257] {
        let input = scrambled(len);
        let mut v = input.clone();
        InsertionSorter(&mut v).sort_by(|a, b| a.0 < b.0);
        assert!(in_order(&v) && same_entries(&v, &input));
        let mut v = input.clone();
        MergeSorter(&mut v).sort_by(|a, b| a.0 < b.0);
        assert!(in_order(&v) && same_entries(&v, &input));
        let mut v = input.clone();
        QuickSorter(&mut v).sort_by(|a, b| a.0 < b.0);
        assert!(in_order(&v) && same_entries(&v, &input));
        let mut v = input.clone();
        BiheapSorter(&mut v).sort_by(|a, b| a.0 < b.0);
        assert!(in_order(&v) && same_entries(&v, &input));

        let mut v = input.clone();
        InsertionSorter(&mut v).sort_by(|a, b| a.0 > b.0);
        assert!(v.windows(2).all(|w| w[0].0 >= w[1].0) && same_entries(&v, &input));
    }
}

#[test]
fn insertion_point_with_a_strict_comparator_is_in_front_of_ties() {
    let v = vec![1, 2, 2, 2, 5];
    assert_eq!(insertion_point(&v, 5, &2, &|a: &i32, b: &i32| a < b), 1);
    assert_eq!(insertion_point(&v, 5, &2, &|a: &i32, b: &i32| a <= b), 4);
}

#[test]
fn max_heapify_touches_nothing_beside_the_subtree() {
    // the subtree of the entry at 1 is the entries at 1, 3 and 4
    let mut v = vec![0, 1, 9, 8, 7, 100, 200];
    max_heapify(&mut v, &|a: &i32, b: &i32| a < b, 1, 7);
    assert_eq!(v, vec![0, 8, 9, 1, 7, 100, 200]);
    // a disorder beside the subtree does not keep the entry from sinking
    let mut v = vec![50, 1, 2, 8, 7, 100, 200];
    max_heapify(&mut v, &|a: &i32, b: &i32| a < b, 1, 7);
    assert_eq!(v, vec![50, 8, 2, 1, 7, 100, 200]);
    // repeated keys under a strict comparator
    let mut v = vec![3, 3, 3];
    max_heapify(&mut v, &|a: &i32, b: &i32| a < b, 0, 3);
    assert_eq!(v, vec![3, 3, 3]);
}
