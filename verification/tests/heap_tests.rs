use jps::MinHeap;

#[test]
fn pop_returns_minimum_priority() {
    let mut h: MinHeap<&str> = MinHeap::new();
    h.push("mid", 5);
    h.push("low", 1);
    h.push("high", 9);
    assert_eq!(h.pop(), Some("low"));
    assert_eq!(h.pop(), Some("mid"));
    assert_eq!(h.pop(), Some("high"));
    assert_eq!(h.pop(), None);
}

#[test]
fn equal_priorities_all_come_out() {
    let mut h: MinHeap<u32> = MinHeap::new();
    h.push(10, 3);
    h.push(20, 3);
    h.push(30, 3);
    let mut seen = vec![];
    while let Some(v) = h.pop() {
        seen.push(v);
    }
    seen.sort();
    assert_eq!(seen, vec![10, 20, 30]);
}

#[test]
fn multiple_entries_for_one_node() {
    let mut h: MinHeap<u8> = MinHeap::new();
    h.push(7, 4);
    h.push(7, 2);
    assert_eq!(h.len(), 2);
    assert_eq!(h.pop(), Some(7));
    assert_eq!(h.pop(), Some(7));
    assert_eq!(h.pop(), None);
}
