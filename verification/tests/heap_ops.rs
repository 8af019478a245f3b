use graph_core::heap::HeapData;

#[test]
fn min_heap_orders_ascending() {
    let mut h = HeapData::new(true);
    assert!(h.is_empty());
    assert!(h.heapify(vec![4, 10, 3, 5, 1]));
    assert_eq!(h.get(), vec![1, 3, 4, 5, 10]);
    assert!(h.push(2));
    assert_eq!(h.get(), vec![1, 2, 3, 4, 5, 10]);
    assert_eq!(h.peek(), Some(1));
    assert!(h.pop());
    assert_eq!(h.get(), vec![2, 3, 4, 5, 10]);
    assert_eq!(h.size(), 5);
}

#[test]
fn max_heap_pops_largest() {
    let mut h = HeapData::new(false);
    h.heapify(vec![4, 10, 3, 5, 1]);
    assert_eq!(h.peek(), Some(10));
    assert!(h.pop());
    assert_eq!(h.get(), vec![1, 3, 4, 5]);
    assert!(h.push(12));
    assert_eq!(h.peek(), Some(12));
}

#[test]
fn lookup_by_index_and_value() {
    let mut h = HeapData::new(true);
    h.heapify(vec![4, 10, 3, 5, 1]);
    assert_eq!(h.get_index(&3), Some(1));
    assert_eq!(h.get_index(&100), None);
    assert_eq!(h.get_value(0), Some(1));
    assert_eq!(h.get_value(4), Some(10));
    assert_eq!(h.get_value(5), None);
}

#[test]
fn duplicates_are_kept() {
    let mut h = HeapData::new(true);
    h.push(7);
    h.push(7);
    h.push(2);
    assert_eq!(h.get(), vec![2, 7, 7]);
    assert_eq!(h.get_index(&7), Some(1));
}

#[test]
fn clear_empties_the_queue() {
    let mut h = HeapData::new(true);
    h.heapify(vec![9, 8]);
    assert!(h.clear());
    assert!(h.is_empty());
    assert_eq!(h.size(), 0);
    assert_eq!(h.peek(), None);
    // popping an empty queue is a no-op that still reports success
    assert!(h.pop());
    assert!(h.is_empty());
}

#[test]
fn negative_values_sort_before_positive() {
    let mut h = HeapData::new(true);
    h.heapify(vec![0, -5, 5]);
    assert_eq!(h.get(), vec![-5, 0, 5]);
    assert_eq!(h.peek(), Some(-5));
}
