use feed::heap::{entry_before, MaxHeap};

#[test]
fn empty_heap_yields_nothing() {
    let mut heap = MaxHeap::new();
    assert_eq!(heap.len(), 0);
    assert_eq!(heap.pop(), None);
    assert_eq!(heap.len(), 0);
}

#[test]
fn heap_yields_entries_from_greatest_to_least() {
    let mut heap = MaxHeap::new();
    let entries = vec![
        (5, 1, 0),
        (9, 2, 1),
        (5, 1, 3),
        (1, 7, 2),
        (9, 1, 0),
        (5, 3, 0),
        (0, 0, 0),
        (9, 2, 0),
    ];
    for e in entries.iter() {
        heap.push(*e);
    }
    assert_eq!(heap.len(), 8);
    let mut out = Vec::new();
    while let Some(e) = heap.pop() {
        out.push(e);
    }
    assert_eq!(
        out,
        vec![
            (9, 2, 1),
            (9, 2, 0),
            (9, 1, 0),
            (5, 3, 0),
            (5, 1, 3),
            (5, 1, 0),
            (1, 7, 2),
            (0, 0, 0),
        ]
    );
    assert_eq!(heap.len(), 0);
}

#[test]
fn heap_keeps_equal_entries() {
    let mut heap = MaxHeap::new();
    heap.push((3, 3, 3));
    heap.push((3, 3, 3));
    heap.push((4, 0, 0));
    assert_eq!(heap.pop(), Some((4, 0, 0)));
    assert_eq!(heap.pop(), Some((3, 3, 3)));
    assert_eq!(heap.pop(), Some((3, 3, 3)));
    assert_eq!(heap.pop(), None);
}

#[test]
fn heap_sorts_many_entries() {
    let mut heap = MaxHeap::new();
    let mut expected = Vec::new();
    let mut x: usize = 12345;
    for i in 0..1000usize {
        x = (x * 1103515245 + 12345) % 2147483648;
        let e = (x % 97, x % 13, i % 5);
        heap.push(e);
        expected.push(e);
        if i % 4 == 3 {
            expected.sort();
            assert_eq!(heap.pop(), expected.pop());
        }
    }
    expected.sort();
    expected.reverse();
    let mut out = Vec::new();
    while let Some(e) = heap.pop() {
        out.push(e);
    }
    assert_eq!(out, expected);
}

#[test]
fn entries_go_by_timestamp_then_id_then_source() {
    assert!(entry_before(&(1, 9, 9), &(2, 0, 0)));
    assert!(entry_before(&(1, 1, 9), &(1, 2, 0)));
    assert!(entry_before(&(1, 1, 1), &(1, 1, 2)));
    assert!(!entry_before(&(1, 1, 1), &(1, 1, 1)));
    assert!(!entry_before(&(2, 0, 0), &(1, 9, 9)));
}
