use algorithms::{bucket_sort, Bucket, CompareSorter, InsertionSorter};
use conv::ConvUtil;

#[derive(Debug, PartialEq)]
struct Foo {
    id: f64,
    name: &'static str,
}

fn foo(id: f64, name: &'static str) -> Foo {
    Foo { id, name }
}

// The place of a key in [0, 1) among `buckets` buckets: the bucket it falls
// into, and its bits, which order as non-negative floats do.
fn place(key: f64, buckets: usize) -> Option<(usize, u64)> {
    if key >= 0.0 && key < 1.0 {
        let bucket = (key * (buckets as f64)).approx_as::<usize>().unwrap();
        let rank = if key == 0.0 { 0 } else { key.to_bits() };
        Some((bucket, rank))
    } else {
        None
    }
}

fn sort_by_fraction<T, F>(arr: Vec<T>, mapper: F) -> Result<Vec<T>, &'static str>
where
    F: Fn(&T) -> f64,
{
    let buckets = arr.len();
    bucket_sort(arr, |e| place(mapper(e), buckets))
}

#[test]
fn bucket_it_sort_ascending() {
    let v = vec![0.79, 0.13, 0.16, 0.64, 0.39, 0.2, 0.89, 0.53, 0.71, 0.42];
    let mut expected = v.clone();
    InsertionSorter(&mut expected).sort_by(|prev, next| prev <= next);
    if let Ok(result) = sort_by_fraction(v, |e| *e) {
        assert_eq!(result, expected);
    } else {
        panic!("测试失败，不应该返回错误");
    }
}

#[test]
fn bucket_it_overflow() {
    let v = vec![2, 4, 1, 7, 10];
    let result = sort_by_fraction(v, |e| *e as f64);
    assert_eq!(result, Err("元素值溢出"))
}

#[test]
fn bucket_it_struct_sort_ascending() {
    let v = vec![foo(0.9, "ZS"), foo(0.0, "LS"), foo(0.2, "WW"), foo(0.1, "ZL"), foo(0.3, "SQ")];
    if let Ok(result) = sort_by_fraction(v, |e| e.id) {
        assert_eq!(
            result,
            vec![foo(0.0, "LS"), foo(0.1, "ZL"), foo(0.2, "WW"), foo(0.3, "SQ"), foo(0.9, "ZS")]
        );
    } else {
        panic!("测试失败，不应该返回错误");
    }
}

#[test]
fn bucket_it_struct_sort_ascending_box() {
    let v = vec![
        Box::new(foo(0.9, "ZS")),
        Box::new(foo(0.0, "LS")),
        Box::new(foo(0.2, "WW")),
        Box::new(foo(0.1, "ZL")),
        Box::new(foo(0.3, "SQ")),
    ];
    if let Ok(result) = sort_by_fraction(v, |e| e.id) {
        assert_eq!(
            result,
            vec![
                Box::new(foo(0.0, "LS")),
                Box::new(foo(0.1, "ZL")),
                Box::new(foo(0.2, "WW")),
                Box::new(foo(0.3, "SQ")),
                Box::new(foo(0.9, "ZS")),
            ]
        );
    } else {
        panic!("测试失败，不应该返回错误");
    }
}

#[test]
fn bucket_sort_keeps_equal_keys_in_order() {
    let v = vec![foo(0.5, "a"), foo(0.25, "b"), foo(0.5, "c"), foo(0.25, "d"), foo(0.5, "e")];
    let result = sort_by_fraction(v, |e| e.id).unwrap();
    assert_eq!(
        result,
        vec![foo(0.25, "b"), foo(0.25, "d"), foo(0.5, "a"), foo(0.5, "c"), foo(0.5, "e")]
    );
}

#[test]
fn bucket_sort_orders_by_bucket_then_key() {
    // all in one bucket: the keys alone decide
    let v = vec![(3u64, 'a'), (1, 'b'), (2, 'c'), (1, 'd')];
    let result = bucket_sort(v, |e| Some((0, e.0))).unwrap();
    assert_eq!(result, vec![(1, 'b'), (1, 'd'), (2, 'c'), (3, 'a')]);
    // the bucket comes first, whatever the keys
    let v = vec![(1usize, 9u64), (0, 10), (1, 1), (0, 2)];
    let result = bucket_sort(v, |e| Some((e.0, e.1))).unwrap();
    assert_eq!(result, vec![(0, 2), (0, 10), (1, 1), (1, 9)]);
}

#[test]
fn bucket_sort_rejects_a_bucket_that_does_not_exist() {
    let v = vec![1u64, 2, 3];
    assert_eq!(bucket_sort(v, |e| Some((*e as usize, *e))), Err("元素值溢出"));
}

#[test]
fn bucket_sort_of_nothing_and_of_one() {
    let v: Vec<f64> = vec![];
    assert_eq!(sort_by_fraction(v, |e| *e), Ok(vec![]));
    assert_eq!(sort_by_fraction(vec![0.5], |e| *e), Ok(vec![0.5]));
}

#[test]
fn bucket_inserts_before_the_first_greater_key() {
    let mut bucket = Bucket::new();
    bucket.insert(5, "five");
    bucket.insert(1, "one");
    bucket.insert(5, "five again");
    bucket.insert(3, "three");
    bucket.insert(9, "nine");
    bucket.insert(1, "one again");
    let mut iter = bucket.into_iter();
    let mut seen = vec![];
    while let Some(elem) = iter.next() {
        seen.push(elem);
    }
    assert_eq!(
        seen,
        vec!["one", "one again", "three", "five", "five again", "nine"]
    );
    assert_eq!(iter.next(), None);
}

#[test]
fn bucket_clear_empties_a_long_chain() {
    let mut bucket = Bucket::new();
    for key in (0..200_000u64).rev() {
        bucket.insert(key, key);
    }
    bucket.clear();
    let mut iter = bucket.into_iter();
    assert_eq!(iter.next(), None);
}

#[test]
fn a_long_bucket_can_be_dropped() {
    let mut bucket = Bucket::new();
    for key in (0..300_000u64).rev() {
        bucket.insert(key, key);
    }
    drop(bucket);

    let mut bucket = Bucket::new();
    for key in (0..300_000u64).rev() {
        bucket.insert(key, key);
    }
    let mut iter = bucket.into_iter();
    assert_eq!(iter.next(), Some(0));
    drop(iter);
}

#[test]
fn bucket_sort_fails_with_full_buckets_behind_it() {
    // everything falls into the first bucket, in front of one bad element
    let mut v: Vec<u64> = (0..100_000u64).rev().collect();
    v.push(u64::MAX);
    let result = bucket_sort(v, |e| if *e == u64::MAX { None } else { Some((0, *e)) });
    assert_eq!(result, Err("元素值溢出"));
}
