use algos::sorter::{HeapSorter, MergeSorter, QuickSorter, Sorter};

#[test]
fn heap_sort() {
    let mut sorter = HeapSorter::new(vec![0, 1, 2, 3, 4]);
    sorter.sort();
    sorter.0.iter().enumerate().for_each(|(idx, val)| assert_eq!(idx, *val));

    let mut sorter = HeapSorter::new(vec![4, 1, 3, 0, 2]);
    sorter.sort();
    sorter.0.iter().enumerate().for_each(|(idx, val)| assert_eq!(idx, *val));

    let mut sorter = HeapSorter::new(vec![0, 0, 0, 0, 0]);
    sorter.sort();
    sorter.0.iter().for_each(|val| assert_eq!(0, *val));
}

#[test]
fn merge_sort() {
    let mut sorter = MergeSorter::new(vec![1, 0]);
    sorter.sort();
    sorter.0.iter().enumerate().for_each(|(idx, val)| assert_eq!(idx, *val));

    let mut sorter = MergeSorter::new(vec![4, 1, 3, 0, 2]);
    sorter.sort();
    sorter.0.iter().enumerate().for_each(|(idx, val)| assert_eq!(idx, *val));

    let mut sorter = MergeSorter::new(vec![9, 4, 1, 8, 5, 3, 6, 0, 10, 11, 2, 7]);
    sorter.sort();
    sorter.0.iter().enumerate().for_each(|(idx, val)| assert_eq!(idx, *val));
}

#[test]
fn quick_sort() {
    let mut sorter = QuickSorter::new(vec![1, 0]);
    sorter.sort();
    sorter.0.iter().enumerate().for_each(|(idx, val)| assert_eq!(idx, *val));

    let mut sorter = QuickSorter::new(vec![4, 1, 3, 0, 2]);
    sorter.sort();
    sorter.0.iter().enumerate().for_each(|(idx, val)| assert_eq!(idx, *val));

    let mut sorter = QuickSorter::new(vec![9, 4, 1, 8, 5, 3, 6, 0, 10, 11, 2, 7]);
    sorter.sort();
    sorter.0.iter().enumerate().for_each(|(idx, val)| assert_eq!(idx, *val));
}

#[test]
fn sorters_keep_duplicates_and_negatives() {
    let input = vec![3, -1, 3, 0, -7, 3, 2];
    let expected = vec![-7, -1, 0, 2, 3, 3, 3];
    let mut h = HeapSorter::new(input.clone());
    h.sort();
    assert_eq!(h.get(), expected);
    let mut m = MergeSorter::new(input.clone());
    m.sort();
    assert_eq!(m.get(), expected);
    let mut q = QuickSorter::new(input);
    q.sort();
    assert_eq!(q.get(), expected);
}

#[test]
fn sorters_handle_empty_and_single() {
    let mut h: HeapSorter<u32> = HeapSorter::new(vec![]);
    h.sort();
    assert!(h.get().is_empty());
    let mut m = MergeSorter::new(vec![5u32]);
    m.sort();
    assert_eq!(m.get(), vec![5u32]);
    let mut q: QuickSorter<u32> = QuickSorter::new(vec![]);
    q.sort();
    assert!(q.get().is_empty());
}

#[test]
fn quick_sort_pivot_not_smallest_first() {
    let mut q = QuickSorter::new(vec![1, 3, 2]);
    q.sort();
    assert_eq!(q.get(), vec![1, 2, 3]);
}
