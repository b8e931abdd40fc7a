use algorithms::find_maximum_subarray;

#[test]
fn it_works() {
    let vec = vec![13, -3, -25, 20, -3, -16, -23, 18, 20, -7, 12, -5, -22, 15, -4, 7];
    let result = find_maximum_subarray(&vec, 0, vec.len());
    assert_eq!(result, (7, 10, 43));
}

#[test]
fn empty_vector_gives_zeroes() {
    let vec: Vec<i32> = vec![];
    assert_eq!(find_maximum_subarray(&vec, 0, 0), (0, 0, 0));
}

#[test]
fn single_entry_is_its_own_run() {
    let vec = vec![-5];
    assert_eq!(find_maximum_subarray(&vec, 0, 1), (0, 0, -5));
}

#[test]
fn all_negative_picks_the_least_bad() {
    let vec = vec![-4, -2, -9];
    let (first, last, sum) = find_maximum_subarray(&vec, 0, vec.len());
    assert_eq!((first, last, sum), (1, 1, -2));
}

#[test]
fn inner_range_is_respected() {
    let vec = vec![100, -1, 2, 3, -10, 100];
    assert_eq!(find_maximum_subarray(&vec, 1, 5), (2, 3, 5));
}
