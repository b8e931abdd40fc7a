use algorithms::{CompareSorter, QuickSorter};

#[derive(Debug, PartialEq, Clone)]
struct Foo {
    id: u32,
    name: &'static str,
}

fn foo(id: u32, name: &'static str) -> Foo {
    Foo { id, name }
}

#[test]
fn quick_it_sort_ascending() {
    let mut v = vec![22, 43, 145, 1, 9];
    QuickSorter(&mut v).sort_by(|prev, next| prev < next);
    assert_eq!(v, vec![1, 9, 22, 43, 145]);
}

#[test]
fn quick_it_sort_descending() {
    let mut v = vec![22, 43, 145, 1, 9];
    QuickSorter(&mut v).sort_by(|prev, next| prev > next);
    assert_eq!(v, vec![145, 43, 22, 9, 1]);
}

#[test]
fn quick_it_struct_sort_ascending() {
    let mut v = vec![foo(22, "ZS"), foo(43, "LS"), foo(145, "WW"), foo(1, "ZL"), foo(9, "SQ")];
    QuickSorter(&mut v).sort_by(|prev, next| prev.id < next.id);
    assert_eq!(
        v,
        vec![foo(1, "ZL"), foo(9, "SQ"), foo(22, "ZS"), foo(43, "LS"), foo(145, "WW")]
    );
}

#[test]
fn lib_it_struct_sort_ascending_box() {
    let mut v = vec![
        Box::new(foo(22, "ZS")),
        Box::new(foo(43, "LS")),
        Box::new(foo(145, "WW")),
        Box::new(foo(1, "ZL")),
        Box::new(foo(9, "SQ")),
    ];
    QuickSorter(&mut v).sort_by(|prev, next| prev.id <= next.id);
    assert_eq!(
        v,
        vec![
            Box::new(foo(1, "ZL")),
            Box::new(foo(9, "SQ")),
            Box::new(foo(22, "ZS")),
            Box::new(foo(43, "LS")),
            Box::new(foo(145, "WW")),
        ]
    );
}

#[test]
fn lib_it_struct_sort_ascending_idempotence() {
    let compare = |prev: &Foo, next: &Foo| prev.id <= next.id;
    let mut v = vec![
        foo(22, "ZS"),
        foo(43, "LS"),
        foo(145, "WW"),
        foo(1, "ZL"),
        foo(9, "SQ"),
        foo(43, "LS2"),
    ];

    QuickSorter(&mut v).sort_by(compare);
    let sorted_v = v.clone();
    QuickSorter(&mut v).sort_by(compare);

    assert_eq!(v, sorted_v);
}
