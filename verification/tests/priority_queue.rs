use algorithms::BiheapPriorityQueue;

#[test]
fn lib_it_works() {
    let queue = BiheapPriorityQueue::new();
    assert_eq!(queue.maximum(), Err("heap underflow"));
}

#[test]
fn empty_queue_underflows() {
    let mut queue = BiheapPriorityQueue::new();
    assert_eq!(queue.extract_max(), Err("heap underflow"));
    assert_eq!(queue.maximum(), Err("heap underflow"));
}

#[test]
fn keys_come_out_in_descending_order() {
    let mut queue = BiheapPriorityQueue::new();
    for key in [22, 43, 145, 1, 9, 43, -7] {
        queue.insert(key);
    }
    assert_eq!(queue.maximum(), Ok(&145));
    let mut taken = vec![];
    while let Ok(key) = queue.extract_max() {
        taken.push(key);
    }
    assert_eq!(taken, vec![145, 43, 43, 22, 9, 1, -7]);
    assert_eq!(queue.extract_max(), Err("heap underflow"));
}

#[test]
fn increase_key_raises_a_key() {
    let mut queue = BiheapPriorityQueue::new();
    for key in [5, 3, 4, 1] {
        queue.insert(key);
    }
    assert_eq!(queue.increase_key(3, 10), Ok(()));
    assert_eq!(queue.extract_max(), Ok(10));
    assert_eq!(queue.extract_max(), Ok(5));
    assert_eq!(queue.extract_max(), Ok(4));
    assert_eq!(queue.extract_max(), Ok(3));
    assert_eq!(queue.extract_max(), Err("heap underflow"));
}

#[test]
fn increase_key_refuses_a_smaller_key() {
    let mut queue = BiheapPriorityQueue::new();
    queue.insert(5);
    queue.insert(3);
    assert_eq!(
        queue.increase_key(0, 4),
        Err("New key is smaller than current key")
    );
    assert_eq!(queue.extract_max(), Ok(5));
    assert_eq!(queue.extract_max(), Ok(3));
}

#[test]
fn increase_key_accepts_the_same_key() {
    let mut queue = BiheapPriorityQueue::new();
    queue.insert(5);
    assert_eq!(queue.increase_key(0, 5), Ok(()));
    assert_eq!(queue.maximum(), Ok(&5));
}
