use algorithms::{counting_sort, CompareSorter, InsertionSorter};

const MAX_VALUE: usize = 10;

#[derive(Debug, PartialEq, Clone)]
struct Foo {
    id: usize,
    name: &'static str,
}

fn foo(id: usize, name: &'static str) -> Foo {
    Foo { id, name }
}

#[test]
fn counting_it_sort_ascending() {
    let v = vec![2, 4, 1, 7, 9, 9, 5, 5, 2, 4, 2, 3];
    let mut expected = v.clone();
    InsertionSorter(&mut expected).sort_by(|prev, next| prev <= next);
    if let Ok(result) = counting_sort(v, MAX_VALUE, |e| *e) {
        assert_eq!(result, expected);
    } else {
        panic!("测试失败，不应该返回错误");
    }
}

#[test]
fn counting_it_overflow() {
    let v = vec![2, 4, 1, 7, 10];
    let result = counting_sort(v, MAX_VALUE, |e| *e);
    assert_eq!(result, Err("元素值溢出"))
}

#[test]
fn counting_it_struct_sort_ascending() {
    let v = vec![foo(9, "ZS"), foo(0, "LS"), foo(2, "WW"), foo(1, "ZL"), foo(3, "SQ")];
    if let Ok(result) = counting_sort(v, MAX_VALUE, |e| e.id) {
        assert_eq!(
            result,
            vec![foo(0, "LS"), foo(1, "ZL"), foo(2, "WW"), foo(3, "SQ"), foo(9, "ZS")]
        );
    } else {
        panic!("测试失败，不应该返回错误");
    }
}

#[test]
fn counting_it_struct_sort_ascending_box() {
    let v = vec![
        Box::new(foo(9, "ZS")),
        Box::new(foo(0, "LS")),
        Box::new(foo(2, "WW")),
        Box::new(foo(1, "ZL")),
        Box::new(foo(3, "SQ")),
    ];
    if let Ok(result) = counting_sort(v, MAX_VALUE, |e| e.id) {
        assert_eq!(
            result,
            vec![
                Box::new(foo(0, "LS")),
                Box::new(foo(1, "ZL")),
                Box::new(foo(2, "WW")),
                Box::new(foo(3, "SQ")),
                Box::new(foo(9, "ZS")),
            ]
        );
    } else {
        panic!("测试失败，不应该返回错误");
    }
}

#[test]
fn counting_it_struct_sort_ascending_idempotence() -> Result<(), &'static str> {
    let v = vec![
        foo(9, "ZS"),
        foo(0, "LS"),
        foo(2, "WW"),
        foo(1, "ZL"),
        foo(3, "SQ"),
        foo(0, "LS2"),
    ];
    let enumerate = |e: &Foo| e.id;

    let mut expected = v.clone();
    InsertionSorter(&mut expected).sort_by(|prev, next| prev.id <= next.id);

    let result1 = counting_sort(v, MAX_VALUE, enumerate)?;
    assert_eq!(result1, expected);
    let result2 = counting_sort(result1, MAX_VALUE, enumerate)?;
    assert_eq!(result2, expected);
    Ok(())
}
