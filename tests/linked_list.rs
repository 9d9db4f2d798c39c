use algos::linked_list::LinkedList;

#[test]
fn linked_list_basics() {
    let mut l = LinkedList::new();
    assert_eq!(l.pop(), None);
    l.push(0);
    l.push(1);
    l.push(2);
    assert_eq!(l.pop(), Some(2));
    assert_eq!(l.pop(), Some(1));
    assert_eq!(l.pop(), Some(0));
    assert_eq!(l.pop(), None);
}

#[test]
fn indexing() {
    let mut l = LinkedList::new();
    l.push(3);
    l.push(2);
    l.push(1);
    l.push(0);
    assert_eq!(l.get_index(0), Some(0));

    assert_eq!(l.get(l.get_index(2).unwrap()), &2);

    assert_eq!(l.get_index(3), Some(3));
    l.delete(3);
    assert_eq!(l.get_index(3), None);

    assert_eq!(l.get_index(2), Some(2));
    l.delete(2);
    assert_eq!(l.get_index(2), None);

    assert_eq!(l.get(1), &1);
}

#[test]
fn insert() {
    let mut l = LinkedList::new();
    l.push(3);
    l.push(1);
    l.push(0);
    l.insert(2, 2);
    assert_eq!(l.get_index(2), Some(2));
}

#[test]
fn delete_removes_every_copy() {
    let mut l = LinkedList::new();
    l.push(5);
    l.push(7);
    l.push(5);
    l.push(5);
    l.delete(5);
    assert_eq!(l.get_index(5), None);
    assert_eq!(l.get(0), &7);
    assert_eq!(l.pop(), Some(7));
    assert_eq!(l.pop(), None);
}

#[test]
fn insert_past_end_appends() {
    let mut l = LinkedList::new();
    l.push(1);
    l.insert(10, 9);
    assert_eq!(l.get(1), &9);
    l.insert(0, 4);
    assert_eq!(l.get(0), &4);
    assert_eq!(l.get_index(9), Some(2));
}
