use algorithms::radix_sort;

#[test]
fn radix_it_sort_ascending() -> Result<(), &'static str> {
    let mut v = vec![22, 43, 145, 1, 9];
    v = radix_sort(v, 10, 3)?;
    assert_eq!(v, vec![1, 9, 22, 43, 145]);
    Ok(())
}
