use algos::union_find::UnionFind;

#[test]
fn union_find_basics() {
    let mut uf = UnionFind::new(5);
    assert_eq!(uf.len(), 5);
    assert_eq!(uf.len(), 5);
    assert_eq!(uf.set_count(), 5);
    uf.union(0, 3);
    assert_eq!(uf.find(3), 0);
    assert_eq!(uf.find(0), 0);
    assert_eq!(uf.size(0), 2);
    assert_eq!(uf.size(3), 2);
    assert_eq!(uf.size(1), 1);
    uf.union(1, 0);
    assert_eq!(uf.find(1), 0);
    assert_eq!(uf.find(3), 0);
    assert_eq!(uf.find(0), 0);
    assert_eq!(uf.size(1), 3);
    uf.union(4, 2);
    assert_eq!(uf.find(2), 4);
    assert_eq!(uf.find(4), 4);
    assert_eq!(uf.size(4), 2);
    assert_eq!(uf.size(4), 2);
    assert_eq!(uf.find(0), 0);
    assert_eq!(uf.find(3), 0);
    assert_eq!(uf.find(1), 0);
    uf.union(2, 1);
    assert_eq!(uf.size(0), 5);
    assert_eq!(uf.size(1), 5);
    assert_eq!(uf.size(2), 5);
    assert_eq!(uf.size(3), 5);
    assert_eq!(uf.size(4), 5);
}

#[test]
fn singleton_set_finds_itself() {
    let mut uf = UnionFind::new(1);
    assert_eq!(uf.find(0), 0);
    assert_eq!(uf.size(0), 1);
    uf.union(0, 0);
    assert_eq!(uf.find(0), 0);
    assert_eq!(uf.size(0), 1);
    assert_eq!(uf.set_count(), 1);
}

#[test]
fn find_is_idempotent_and_union_joins() {
    let mut uf = UnionFind::new(6);
    uf.union(0, 1);
    uf.union(2, 3);
    uf.union(1, 3);
    uf.union(4, 5);
    for x in 0..6 {
        assert_eq!(uf.find(uf.find(x)), uf.find(x));
    }
    assert_eq!(uf.find(0), uf.find(3));
    assert_ne!(uf.find(0), uf.find(4));
    assert_eq!(uf.size(2), 4);
    assert_eq!(uf.size(5), 2);
    assert_eq!(uf.set_count(), 2);
}

#[test]
fn union_in_one_set_changes_nothing() {
    let mut uf = UnionFind::new(3);
    uf.union(0, 1);
    uf.union(1, 0);
    assert_eq!(uf.size(0), 2);
    assert_eq!(uf.set_count(), 2);
    assert_eq!(uf.size(2), 1);
}

#[test]
fn union_puts_smaller_under_larger() {
    let mut uf = UnionFind::new(4);
    uf.union(1, 2);
    uf.union(3, 1);
    assert_eq!(uf.find(3), 1);
    assert_eq!(uf.size(3), 3);
}
