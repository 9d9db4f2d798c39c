use algos::bst::Bst;

#[test]
fn basic() {
    let mut bst: Bst<i32> = Bst::new();
    bst.insert(3);
    bst.insert(1);
    bst.insert(7);
    bst.insert(2);
    bst.insert(-2);
    println!("{:?}", bst);
    assert_eq!(bst.contains(1), true);
    assert_eq!(bst.contains(2), true);
    assert_eq!(bst.contains(100), false);
}

#[test]
fn delete() {
    let mut bst: Bst<i32> = Bst::new();
    bst.insert(3);
    bst.insert(1);
    bst.insert(7);
    bst.insert(2);
    bst.insert(-2);
    assert_eq!(bst.delete(2), Some(2));
    assert_eq!(bst.delete(2), None);
    assert_eq!(bst.delete(7), Some(7));
    assert_eq!(bst.contains(7), false);
    bst.delete(1);
    assert_eq!(bst.contains(1), false);
    assert_eq!(bst.contains(3), true);
}

#[test]
fn minmax() {
    let mut bst: Bst<i32> = Bst::new();
    bst.insert(3);
    bst.insert(1);
    bst.insert(7);
    bst.insert(2);
    bst.insert(-2);
    assert_eq!(bst.max(), Some(&7));
    assert_eq!(bst.min(), Some(&-2));
    assert_eq!(bst.delete(2), Some(2));
    assert_eq!(bst.contains(2), false);
    bst.delete(7);
    assert_eq!(bst.contains(7), false);
    assert_eq!(bst.max(), Some(&3));
    bst.delete(1);
    assert_eq!(bst.contains(1), false);
    assert_eq!(bst.contains(3), true);
    assert_eq!(bst.min(), Some(&-2));
}

#[test]
fn height() {
    let mut bst: Bst<i32> = Bst::new();
    bst.insert(1);
    bst.insert(2);
    bst.insert(3);
    bst.insert(4);
    bst.insert(5);
    assert_eq!(bst.max_height(), 5);
    assert_eq!(bst.min_height(), 1);
    assert_eq!(bst.delete(2), Some(2));
    assert_eq!(bst.max_height(), 4);
    assert_eq!(bst.is_balanced(), false);

    let mut bst1: Bst<i32> = Bst::new();
    assert_eq!(bst1.max_height(), 0);
    bst1.insert(3);
    assert_eq!(bst1.max_height(), 1);
    bst1.insert(2);
    bst1.insert(1);
    assert_eq!(bst1.max_height(), 3);
    bst1.insert(4);
    bst1.insert(5);
    assert_eq!(bst1.max_height(), 3);
    assert_eq!(bst1.is_balanced(), true);

    let mut bst2: Bst<i32> = Bst::new();
    bst2.insert(3);
    bst2.insert(2);
    bst2.insert(5);
    bst2.insert(4);
    bst2.insert(6);
    assert_eq!(bst2.max_height(), 3);
    assert_eq!(bst2.min_height(), 2);
    assert_eq!(bst2.is_balanced(), true);
    bst2.insert(7);
    assert_eq!(bst2.max_height(), 4);
    assert_eq!(bst2.min_height(), 2);
    assert_eq!(bst2.is_balanced(), false);
}

#[test]
fn into_linked_list() {
    let mut bst: Bst<i32> = Bst::new();
    bst.insert(3);
    bst.insert(2);
    bst.insert(1);
    bst.insert(4);
    bst.insert(5);
    bst.into_linked_list();
    println!("{:?}", bst);
    assert_eq!(bst.max_height(), 5);
}

#[test]
fn delete_node_with_two_children_keeps_the_rest() {
    let mut bst: Bst<i32> = Bst::new();
    for v in [5, 2, 8, 1, 3, 7, 9, 6] {
        bst.insert(v);
    }
    assert_eq!(bst.delete(5), Some(5));
    for v in [2, 8, 1, 3, 7, 9, 6] {
        assert!(bst.contains(v));
    }
    assert!(!bst.contains(5));
    assert_eq!(bst.min(), Some(&1));
    assert_eq!(bst.max(), Some(&9));
    assert_eq!(bst.delete(8), Some(8));
    assert!(bst.contains(9) && bst.contains(7) && bst.contains(6));
}

#[test]
fn duplicate_insert_and_empty_tree() {
    let mut bst: Bst<u64> = Bst::new();
    assert_eq!(bst.min(), None);
    assert_eq!(bst.max(), None);
    assert_eq!(bst.min_height(), 0);
    assert!(bst.is_balanced());
    bst.insert(4);
    bst.insert(4);
    assert_eq!(bst.max_height(), 1);
    assert_eq!(bst.delete(4), Some(4));
    assert_eq!(bst.delete(4), None);
    bst.rebalance();
    assert_eq!(bst.max_height(), 0);
}

#[test]
fn chain_keeps_items_in_order() {
    let mut bst: Bst<i32> = Bst::new();
    for v in [4, 2, 6, 1, 3, 5, 7] {
        bst.insert(v);
    }
    assert_eq!(bst.max_height(), 3);
    bst.into_linked_list();
    assert_eq!(bst.max_height(), 7);
    assert_eq!(bst.min_height(), 1);
    for v in 1..8 {
        assert!(bst.contains(v));
    }
    assert_eq!(bst.min(), Some(&1));
    assert_eq!(bst.max(), Some(&7));
}
