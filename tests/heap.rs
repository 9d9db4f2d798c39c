use algos::heap::Heap;

#[test]
fn heap_basics() {
    let mut heap = Heap::new();
    heap.insert(1);
    assert_eq!(heap.peek(), Some(1));
    heap.insert(4);
    heap.insert(2);
    heap.insert(5);
    heap.insert(3);
    assert_eq!(heap.peek(), Some(1));
    assert_eq!(heap.pop(), Some(1));
    assert_eq!(heap.peek(), Some(2));
    assert_eq!(heap.peek(), Some(2));
    assert_eq!(heap.pop(), Some(2));
    assert_eq!(heap.pop(), Some(3));
    assert_eq!(heap.pop(), Some(4));
    assert_eq!(heap.pop(), Some(5));
    assert_eq!(heap.pop(), None);
    assert_eq!(heap.pop(), None);
}

#[test]
fn tie_list() {
    let mut heap = Heap::new();
    assert_eq!(heap.pop(), None);
    assert_eq!(heap.peek(), None);
    heap.insert(1);
    assert_eq!(heap.peek(), Some(1));
    heap.insert(1);
    heap.insert(1);
    heap.insert(1);
    assert_eq!(heap.peek(), Some(1));
    assert_eq!(heap.pop(), Some(1));
    assert_eq!(heap.peek(), Some(1));
    assert_eq!(heap.peek(), Some(1));
    assert_eq!(heap.pop(), Some(1));
    assert_eq!(heap.pop(), Some(1));
    assert_eq!(heap.pop(), Some(1));
    assert_eq!(heap.pop(), None);
    assert_eq!(heap.pop(), None);
}

#[test]
fn heap_large_pops_in_order() {
    let mut heap = Heap::new();
    for v in [1, 4, 2, 2, 8, 6, 2, 2, 8, 5, 2, 8, 5, 3, 8] {
        heap.insert(v);
    }
    assert_eq!(heap.len(), 15);
    let expected = [1, 2, 2, 2, 2, 2, 3, 4, 5, 5, 6, 8, 8, 8, 8];
    for e in expected {
        assert_eq!(heap.pop(), Some(e));
    }
    assert_eq!(heap.pop(), None);
    assert!(heap.is_empty());
}

#[test]
fn heap_keeps_parent_below_children() {
    let mut heap = Heap::new();
    for v in [9, 3, 7, 1, 8, 2, 6, 5, 4, 0] {
        heap.insert(v);
    }
    heap.pop();
    heap.insert(11);
    heap.pop();
    let a = heap.into_vec();
    for i in 0..a.len() {
        for c in [2 * i + 1, 2 * i + 2] {
            if c < a.len() {
                assert!(a[i] <= a[c]);
            }
        }
    }
}

#[test]
fn empty_heap_is_empty_repeatedly() {
    let mut heap: Heap<u64> = Heap::new();
    assert!(heap.is_empty());
    assert_eq!(heap.len(), 0);
    assert_eq!(heap.peek(), None);
    assert_eq!(heap.pop(), None);
    assert_eq!(heap.peek(), None);
    assert_eq!(heap.pop(), None);
}

#[test]
fn heap_peek_matches_pop() {
    let mut heap: Heap<i64> = Heap::new();
    heap.insert(-5);
    heap.insert(7);
    heap.insert(-9);
    assert_eq!(heap.len(), 3);
    assert_eq!(heap.peek(), Some(-9));
    assert_eq!(heap.pop(), Some(-9));
    assert_eq!(heap.peek(), Some(-5));
    assert_eq!(heap.len(), 2);
}
