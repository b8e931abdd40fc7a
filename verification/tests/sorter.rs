use algorithms::{BiheapSorter, CompareSorter, InsertionSorter, MergeSorter, QuickSorter};

struct PlainInsertionSorter<'a, S>(&'a mut S);

impl<'a, Elem: Copy> CompareSorter for PlainInsertionSorter<'a, Vec<Elem>> {
    type Element = Elem;

    fn sort_by<F: Fn(&Elem, &Elem) -> bool>(&mut self, compare: F) {
        let vec = &mut self.0;
        let len = vec.len();

        if len < 2 {
            return;
        }

        for i in 1..vec.len() {
            let e = vec[i];
            let mut j = i;
            while j > 0 && !compare(&vec[j - 1], &e) {
                vec[j] = vec[j - 1];
                j = j - 1;
            }
            vec[j] = e;
        }
    }
}

#[test]
fn lib_it_sort_ascending() {
    let mut v = vec![22, 43, 145, 1, 9];
    PlainInsertionSorter(&mut v).sort_by(|prev, next| prev < next);
    assert_eq!(v, vec![1, 9, 22, 43, 145]);
}

fn sort_descending<S: CompareSorter<Element = i32>>(mut sorter: S) {
    sorter.sort_by(|prev, next| prev >= next);
}

#[test]
fn sorters_are_interchangeable() {
    let input = vec![3, 1, 4, 1, 5, 9, 2, 6, 5, 3, 5];
    let expected = vec![9, 6, 5, 5, 5, 4, 3, 3, 2, 1, 1];

    let mut v = input.clone();
    sort_descending(InsertionSorter(&mut v));
    assert_eq!(v, expected);
    let mut v = input.clone();
    sort_descending(MergeSorter(&mut v));
    assert_eq!(v, expected);
    let mut v = input.clone();
    sort_descending(QuickSorter(&mut v));
    assert_eq!(v, expected);
    let mut v = input.clone();
    sort_descending(BiheapSorter(&mut v));
    assert_eq!(v, expected);
    let mut v = input.clone();
    sort_descending(PlainInsertionSorter(&mut v));
    assert_eq!(v, expected);
}
