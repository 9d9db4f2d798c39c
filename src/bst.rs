use vstd::prelude::*;

use crate::sorter::Sortable;

verus! {

broadcast use vstd::map_lib::group_map_union;

#[derive(Debug)]
struct Node<T> {
    item: T,
    left: Option<Box<Node<T>>>,
    right: Option<Box<Node<T>>>,
}

/// The items under `link`, keyed by rank.
spec fn items_of<T: Sortable>(link: Option<Box<Node<T>>>) -> Map<int, T>
    decreases link,
{
    match link {
        None => Map::empty(),
        Some(node) => items_of(node.left).union_prefer_right(items_of(node.right)).insert(
            node.item.rank(),
            node.item,
        ),
    }
}

/// Left subtrees hold only lower ranks and right subtrees only higher ones.
spec fn ordered<T: Sortable>(link: Option<Box<Node<T>>>) -> bool
    decreases link,
{
    match link {
        None => true,
        Some(node) => {
            &&& ordered(node.left)
            &&& ordered(node.right)
            &&& forall|k: int| #[trigger] items_of(node.left).contains_key(k) ==> k < node.item.rank()
            &&& forall|k: int| #[trigger] items_of(node.right).contains_key(k) ==> node.item.rank() < k
        },
    }
}

spec fn count<T>(link: Option<Box<Node<T>>>) -> nat
    decreases link,
{
    match link {
        None => 0,
        Some(node) => 1 + count(node.left) + count(node.right),
    }
}

/// Edges on the longest way down from the node at `link`.
spec fn deepest<T>(link: Option<Box<Node<T>>>) -> nat
    decreases link,
{
    match link {
        None => 0,
        Some(node) => match (node.left, node.right) {
            (None, None) => 0,
            (Some(l), None) => 1 + deepest(Some(l)),
            (None, Some(r)) => 1 + deepest(Some(r)),
            (Some(l), Some(r)) => 1 + vstd::math::max(
                deepest(Some(l)) as int,
                deepest(Some(r)) as int,
            ) as nat,
        },
    }
}

/// Edges on the shortest way down from the node at `link` to a node that
/// lacks a child.
spec fn shallowest<T>(link: Option<Box<Node<T>>>) -> nat
    decreases link,
{
    match link {
        None => 0,
        Some(node) => match (node.left, node.right) {
            (Some(l), Some(r)) => 1 + vstd::math::min(
                shallowest(Some(l)) as int,
                shallowest(Some(r)) as int,
            ) as nat,
            _ => 0,
        },
    }
}

/// No node has a left child.
spec fn is_chain<T>(link: Option<Box<Node<T>>>) -> bool
    decreases link,
{
    match link {
        None => true,
        Some(node) => node.left.is_none() && is_chain(node.right),
    }
}

proof fn lemma_empty<T: Sortable>()
    ensures
        items_of(None::<Box<Node<T>>>) == Map::<int, T>::empty(),
        count(None::<Box<Node<T>>>) == 0,
        ordered(None::<Box<Node<T>>>),
        is_chain(None::<Box<Node<T>>>),
{
    assert(items_of(None::<Box<Node<T>>>) =~= Map::<int, T>::empty());
}

proof fn lemma_join<T>(l: Map<int, T>, r: Map<int, T>, tail: Map<int, T>, x: int, item: T)
    requires
        forall|k: int| #[trigger] l.contains_key(k) ==> k < x,
        forall|k: int| #[trigger] r.contains_key(k) ==> x < k,
        forall|k: int| #[trigger] tail.contains_key(k) ==> x < k,
    ensures
        l.union_prefer_right(r.union_prefer_right(tail).insert(x, item)) == l.union_prefer_right(r).insert(
            x,
            item,
        ).union_prefer_right(tail),
{
    assert(l.union_prefer_right(r.union_prefer_right(tail).insert(x, item)) =~= l.union_prefer_right(r).insert(
        x,
        item,
    ).union_prefer_right(tail));
}

proof fn lemma_heights<T>(link: Option<Box<Node<T>>>)
    ensures
        shallowest(link) <= deepest(link),
        link.is_some() ==> deepest(link) < count(link),
    decreases link,
{
    if let Some(node) = link {
        lemma_heights(node.left);
        lemma_heights(node.right);
    }
}

proof fn lemma_keyed_by_rank<T: Sortable>(link: Option<Box<Node<T>>>)
    ensures
        forall|k: int| #[trigger] items_of(link).contains_key(k) ==> items_of(link)[k].rank() == k,
    decreases link,
{
    lemma_empty::<T>();
    if let Some(node) = link {
        lemma_keyed_by_rank(node.left);
        lemma_keyed_by_rank(node.right);
        let l = items_of(node.left);
        let r = items_of(node.right);
        assert forall|k: int| #[trigger] items_of(link).contains_key(k) implies items_of(link)[k].rank() == k by {
            if k != node.item.rank() {
                if r.contains_key(k) {
                    assert(l.union_prefer_right(r)[k] == r[k]);
                } else {
                    assert(l.contains_key(k));
                    assert(l.union_prefer_right(r)[k] == l[k]);
                }
            }
        }
    }
}

proof fn lemma_items_finite<T: Sortable>(link: Option<Box<Node<T>>>)
    ensures
        items_of(link).dom().finite(),
    decreases link,
{
    if let Some(node) = link {
        lemma_items_finite(node.left);
        lemma_items_finite(node.right);
    }
}

fn deepest_of<T>(node: &Box<Node<T>>) -> (r: usize)
    requires
        count(Some(*node)) <= usize::MAX,
    ensures
        r == deepest(Some(*node)),
    decreases count(Some(*node)),
{
    proof {
        lemma_heights(node.left);
        lemma_heights(node.right);
    }
    match (&node.left, &node.right) {
        (None, None) => 0,
        (Some(l), None) => 1 + deepest_of(l),
        (None, Some(r)) => 1 + deepest_of(r),
        (Some(l), Some(r)) => {
            let a = deepest_of(l);
            let b = deepest_of(r);
            1 + if a >= b {
                a
            } else {
                b
            }
        },
    }
}

fn shallowest_of<T>(node: &Box<Node<T>>) -> (r: usize)
    requires
        count(Some(*node)) <= usize::MAX,
    ensures
        r == shallowest(Some(*node)),
    decreases count(Some(*node)),
{
    proof {
        lemma_heights(Some(*node));
        lemma_heights(node.left);
        lemma_heights(node.right);
    }
    match (&node.left, &node.right) {
        (Some(l), Some(r)) => {
            let a = shallowest_of(l);
            let b = shallowest_of(r);
            1 + if a <= b {
                a
            } else {
                b
            }
        },
        _ => 0,
    }
}

fn insert_into<T: Sortable>(link: Option<Box<Node<T>>>, item: T) -> (r: Option<Box<Node<T>>>)
    requires
        ordered(link),
    ensures
        ordered(r),
        items_of(link).contains_key(item.rank()) ==> items_of(r) == items_of(link),
        !items_of(link).contains_key(item.rank()) ==> items_of(r) == items_of(link).insert(
            item.rank(),
            item,
        ),
        count(r) <= count(link) + 1,
    decreases link,
{
    match link {
        None => {
            let r = Some(Box::new(Node { item, left: None, right: None }));
            proof {
                lemma_empty::<T>();
                assert(items_of(r) =~= Map::empty().insert(item.rank(), item));
            }
            r
        },
        Some(node) => {
            let Node { item: x, left, right } = *node;
            proof {
                lemma_items_finite(left);
                lemma_items_finite(right);
            }
            if !x.precedes(&item) {
                let l = insert_into(left, item);
                let r = Some(Box::new(Node { item: x, left: l, right }));
                proof {
                    if items_of(left).contains_key(item.rank()) {
                        assert(items_of(r) =~= items_of(Some(node)));
                    } else {
                        assert(!items_of(right).contains_key(item.rank()));
                        assert(items_of(r) =~= items_of(Some(node)).insert(item.rank(), item));
                    }
                }
                r
            } else if !item.precedes(&x) {
                let rt = insert_into(right, item);
                let r = Some(Box::new(Node { item: x, left, right: rt }));
                proof {
                    if items_of(right).contains_key(item.rank()) {
                        assert(items_of(r) =~= items_of(Some(node)));
                    } else {
                        assert(!items_of(left).contains_key(item.rank()));
                        assert(items_of(r) =~= items_of(Some(node)).insert(item.rank(), item));
                    }
                }
                r
            } else {
                let r = Some(Box::new(Node { item: x, left, right }));
                proof {
                    assert(items_of(r) =~= items_of(Some(node)));
                }
                r
            }
        },
    }
}

fn contains_in<T: Sortable>(link: &Option<Box<Node<T>>>, item: &T) -> (r: bool)
    requires
        ordered(*link),
    ensures
        r == items_of(*link).contains_key(item.rank()),
    decreases *link,
{
    match link {
        None => false,
        Some(node) => {
            if !node.item.precedes(item) {
                proof {
                    if items_of(node.right).contains_key(item.rank()) {
                        assert(node.item.rank() < item.rank());
                    }
                }
                contains_in(&node.left, item)
            } else if !item.precedes(&node.item) {
                proof {
                    if items_of(node.left).contains_key(item.rank()) {
                        assert(item.rank() < node.item.rank());
                    }
                }
                contains_in(&node.right, item)
            } else {
                true
            }
        },
    }
}

/// Removes the lowest-ranked item under a non-empty `link`, returning it with
/// what remains.
fn take_min<T: Sortable>(node: Box<Node<T>>) -> (r: (T, Option<Box<Node<T>>>))
    requires
        ordered(Some(node)),
    ensures
        ordered(r.1),
        items_of(Some(node)).contains_key(r.0.rank()),
        items_of(Some(node))[r.0.rank()] == r.0,
        forall|k: int| #[trigger] items_of(Some(node)).contains_key(k) ==> r.0.rank() <= k,
        items_of(r.1) == items_of(Some(node)).remove(r.0.rank()),
        count(r.1) < count(Some(node)),
    decreases count(Some(node)),
{
    let ghost whole = items_of(Some(node));
    let Node { item, left, right } = *node;
    match left {
        None => {
            proof {
                lemma_empty::<T>();
                assert(!items_of(right).contains_key(item.rank()));
                assert(items_of(right) =~= whole.remove(item.rank()));
            }
            (item, right)
        },
        Some(l) => {
            let (m, rest) = take_min(l);
            let r = Some(Box::new(Node { item, left: rest, right }));
            proof {
                assert(items_of(Some(l)).contains_key(m.rank()));
                assert(m.rank() < item.rank());
                assert forall|k: int| #[trigger] whole.contains_key(k) implies m.rank() <= k by {
                    if items_of(right).contains_key(k) {
                        assert(item.rank() < k);
                    }
                }
                assert(!items_of(right).contains_key(m.rank()));
                assert(items_of(r) =~= whole.remove(m.rank()));
            }
            (m, r)
        },
    }
}

fn delete_from<T: Sortable>(link: Option<Box<Node<T>>>, item: &T) -> (r: (Option<T>, Option<Box<Node<T>>>))
    requires
        ordered(link),
    ensures
        ordered(r.1),
        items_of(link).contains_key(item.rank()) ==> r.0 == Some(items_of(link)[item.rank()]),
        !items_of(link).contains_key(item.rank()) ==> r.0.is_none(),
        items_of(r.1) == items_of(link).remove(item.rank()),
        count(r.1) <= count(link),
    decreases link,
{
    match link {
        None => {
            proof {
                assert(items_of(link).remove(item.rank()) =~= items_of(link));
            }
            (None, None)
        },
        Some(node) => {
            let ghost whole = items_of(Some(node));
            let Node { item: x, left, right } = *node;
            if !x.precedes(item) {
                let (found, l) = delete_from(left, item);
                let r = Some(Box::new(Node { item: x, left: l, right }));
                proof {
                    assert(!items_of(right).contains_key(item.rank()));
                    assert(items_of(r) =~= whole.remove(item.rank()));
                }
                (found, r)
            } else if !item.precedes(&x) {
                let (found, rt) = delete_from(right, item);
                let r = Some(Box::new(Node { item: x, left, right: rt }));
                proof {
                    assert(!items_of(left).contains_key(item.rank()));
                    assert(items_of(r) =~= whole.remove(item.rank()));
                }
                (found, r)
            } else {
                proof {
                    assert(!items_of(left).contains_key(x.rank()));
                    assert(!items_of(right).contains_key(x.rank()));
                }
                match right {
                    None => {
                        proof {
                            assert(items_of(left) =~= whole.remove(item.rank()));
                        }
                        (Some(x), left)
                    },
                    Some(rn) => {
                        let (m, rest) = take_min(rn);
                        let r = Some(Box::new(Node { item: m, left, right: rest }));
                        proof {
                            assert(x.rank() < m.rank());
                            assert forall|k: int| #[trigger] items_of(left).contains_key(k) implies k < m.rank() by {
                                assert(k < x.rank());
                            }
                            assert(items_of(r) =~= whole.remove(item.rank()));
                        }
                        (Some(x), r)
                    },
                }
            }
        },
    }
}

/// The items of `link` in order, as a chain of right children, followed by
/// the chain `tail`.
fn chain_onto<T: Sortable>(link: Option<Box<Node<T>>>, tail: Option<Box<Node<T>>>) -> (r: Option<Box<Node<T>>>)
    requires
        ordered(link),
        ordered(tail),
        is_chain(tail),
        forall|a: int, b: int| #[trigger] items_of(link).contains_key(a) && #[trigger] items_of(tail).contains_key(b) ==> a < b,
    ensures
        ordered(r),
        is_chain(r),
        items_of(r) == items_of(link).union_prefer_right(items_of(tail)),
        count(r) == count(link) + count(tail),
    decreases link,
{
    proof {
        lemma_empty::<T>();
    }
    match link {
        None => {
            proof {
                assert(items_of(link).union_prefer_right(items_of(tail)) =~= items_of(tail));
            }
            tail
        },
        Some(node) => {
            let ghost whole = items_of(Some(node));
            let ghost tl = items_of(tail);
            let Node { item, left, right } = *node;
            let ghost lm = items_of(left);
            let ghost rm = items_of(right);
            proof {
                assert(whole == lm.union_prefer_right(rm).insert(item.rank(), item));
                assert(whole.contains_key(item.rank()));
                assert forall|a: int, b: int| #[trigger] rm.contains_key(a) && #[trigger] tl.contains_key(b) implies a < b by {
                    assert(whole.contains_key(a));
                }
                assert forall|b: int| #[trigger] tl.contains_key(b) implies item.rank() < b by {
                    assert(whole.contains_key(item.rank()));
                }
            }
            let after = chain_onto(right, tail);
            let joined = Some(Box::new(Node { item, left: None, right: after }));
            proof {
                assert(items_of(after) == rm.union_prefer_right(tl));
                assert forall|k: int| #[trigger] items_of(after).contains_key(k) implies item.rank() < k by {
                    if tl.contains_key(k) {
                    } else {
                        assert(rm.contains_key(k));
                    }
                }
                assert(items_of(joined) == Map::<int, T>::empty().union_prefer_right(items_of(after)).insert(item.rank(), item));
                assert(Map::<int, T>::empty().union_prefer_right(items_of(after)) =~= items_of(after));
                assert(ordered(joined));
                assert forall|a: int, b: int| #[trigger] lm.contains_key(a) && #[trigger] items_of(joined).contains_key(b) implies a < b by {
                    assert(whole.contains_key(a));
                    if b != item.rank() && !tl.contains_key(b) {
                        assert(rm.contains_key(b));
                    }
                }
                lemma_join(lm, rm, tl, item.rank(), item);
            }
            chain_onto(left, joined)
        },
    }
}

/// A binary search tree that keeps one item per rank.
#[derive(Debug)]
pub struct Bst<T> {
    root: Option<Box<Node<T>>>,
}

impl<T: Sortable> View for Bst<T> {
    type V = Map<int, T>;

    closed spec fn view(&self) -> Map<int, T> {
        items_of(self.root)
    }
}

/// Each item is stored under its own rank.
pub proof fn lemma_items_keyed_by_rank<T: Sortable>(t: &Bst<T>)
    ensures
        forall|k: int| #[trigger] t@.contains_key(k) ==> t@[k].rank() == k,
{
    lemma_keyed_by_rank(t.root);
}

impl<T: Sortable> Bst<T> {
    pub closed spec fn wf(&self) -> bool {
        ordered(self.root) && count(self.root) < usize::MAX
    }

    /// Number of items.
    pub closed spec fn size(&self) -> nat {
        count(self.root)
    }

    /// Nodes on the longest way down from the root.
    pub closed spec fn max_height_spec(&self) -> nat {
        match self.root {
            None => 0,
            Some(_) => 1 + deepest(self.root),
        }
    }

    /// Nodes on the shortest way down from the root to a node that lacks a
    /// child.
    pub closed spec fn min_height_spec(&self) -> nat {
        match self.root {
            None => 0,
            Some(_) => 1 + shallowest(self.root),
        }
    }

    pub fn new() -> (r: Self)
        ensures
            r.wf(),
            r@ == Map::<int, T>::empty(),
            r.size() == 0,
    {
        Bst { root: None }
    }

    /// Adds `item` unless an item of the same rank is already there.
    pub fn insert(&mut self, item: T)
        requires
            old(self).wf(),
            old(self).size() + 1 < usize::MAX,
        ensures
            final(self).wf(),
            final(self).size() <= old(self).size() + 1,
            old(self)@.contains_key(item.rank()) ==> final(self)@ == old(self)@,
            !old(self)@.contains_key(item.rank()) ==> final(self)@ == old(self)@.insert(item.rank(), item),
    {
        let root = self.root.take();
        self.root = insert_into(root, item);
    }

    /// Removes and returns the item of the same rank as `item`, if any.
    pub fn delete(&mut self, item: T) -> (r: Option<T>)
        requires
            old(self).wf(),
        ensures
            final(self).wf(),
            final(self).size() <= old(self).size(),
            old(self)@.contains_key(item.rank()) ==> r == Some(old(self)@[item.rank()]),
            !old(self)@.contains_key(item.rank()) ==> r.is_none(),
            r.is_some() ==> r.unwrap().rank() == item.rank(),
            final(self)@ == old(self)@.remove(item.rank()),
    {
        proof {
            lemma_keyed_by_rank(self.root);
        }
        let root = self.root.take();
        let (found, rest) = delete_from(root, &item);
        self.root = rest;
        found
    }

    /// Whether an item of the same rank as `item` is there.
    pub fn contains(&self, item: T) -> (r: bool)
        requires
            self.wf(),
        ensures
            r == self@.contains_key(item.rank()),
    {
        contains_in(&self.root, &item)
    }

    /// Rearranges the tree into a chain of right children, in order.
    pub fn into_linked_list(&mut self)
        requires
            old(self).wf(),
        ensures
            final(self).wf(),
            final(self)@ == old(self)@,
            final(self).size() == old(self).size(),
            final(self).max_height_spec() == old(self).size(),
    {
        let root = self.root.take();
        let r = chain_onto(root, None);
        proof {
            assert(items_of(root).union_prefer_right(items_of(None::<Box<Node<T>>>)) =~= items_of(root));
            lemma_chain_height(r);
        }
        self.root = r;
    }

    /// Leaves the tree as it is.
    pub fn rebalance(&mut self)
        ensures
            *final(self) == *old(self),
    {
    }

    /// Nodes on the longest way down from the root; 0 for an empty tree.
    pub fn max_height(&self) -> (r: usize)
        requires
            self.wf(),
        ensures
            r == self.max_height_spec(),
    {
        match &self.root {
            Some(node) => {
                proof {
                    lemma_heights(self.root);
                }
                1 + deepest_of(node)
            },
            None => 0,
        }
    }

    /// Nodes on the shortest way down from the root to a node that lacks a
    /// child; 0 for an empty tree.
    pub fn min_height(&self) -> (r: usize)
        requires
            self.wf(),
        ensures
            r == self.min_height_spec(),
    {
        match &self.root {
            Some(node) => {
                proof {
                    lemma_heights(self.root);
                }
                1 + shallowest_of(node)
            },
            None => 0,
        }
    }

    /// The longest and shortest ways down differ by at most one.
    pub fn is_balanced(&self) -> (r: bool)
        requires
            self.wf(),
        ensures
            r == (self.max_height_spec() <= self.min_height_spec() + 1),
    {
        match &self.root {
            Some(node) => {
                proof {
                    lemma_heights(self.root);
                }
                deepest_of(node) - shallowest_of(node) <= 1
            },
            None => true,
        }
    }

    /// The lowest-ranked item; `None` for an empty tree.
    pub fn min(&self) -> (r: Option<&T>)
        requires
            self.wf(),
        ensures
            r.is_none() <==> self@.dom().len() == 0,
            r.is_some() ==> {
                let x = *r.unwrap();
                &&& self@.contains_key(x.rank())
                &&& self@[x.rank()] == x
                &&& forall|k: int| #[trigger] self@.contains_key(k) ==> x.rank() <= k
            },
    {
        proof {
            lemma_items_finite(self.root);
        }
        match &self.root {
            None => {
                proof {
                    assert(self@.dom() =~= Set::empty());
                }
                None
            },
            Some(node) => {
                proof {
                    assert(self@.contains_key(node.item.rank()));
                }
                Some(leftmost(node))
            },
        }
    }

    /// The highest-ranked item; `None` for an empty tree.
    pub fn max(&self) -> (r: Option<&T>)
        requires
            self.wf(),
        ensures
            r.is_none() <==> self@.dom().len() == 0,
            r.is_some() ==> {
                let x = *r.unwrap();
                &&& self@.contains_key(x.rank())
                &&& self@[x.rank()] == x
                &&& forall|k: int| #[trigger] self@.contains_key(k) ==> k <= x.rank()
            },
    {
        proof {
            lemma_items_finite(self.root);
        }
        match &self.root {
            None => {
                proof {
                    assert(self@.dom() =~= Set::empty());
                }
                None
            },
            Some(node) => {
                proof {
                    assert(self@.contains_key(node.item.rank()));
                }
                Some(rightmost(node))
            },
        }
    }
}

proof fn lemma_chain_height<T: Sortable>(link: Option<Box<Node<T>>>)
    requires
        is_chain(link),
    ensures
        link.is_some() ==> deepest(link) + 1 == count(link),
        link.is_none() ==> count(link) == 0,
    decreases link,
{
    lemma_empty::<T>();
    if let Some(node) = link {
        lemma_chain_height(node.right);
    }
}

fn leftmost<T: Sortable>(node: &Box<Node<T>>) -> (r: &T)
    requires
        ordered(Some(*node)),
    ensures
        items_of(Some(*node)).contains_key(r.rank()),
        items_of(Some(*node))[r.rank()] == *r,
        forall|k: int| #[trigger] items_of(Some(*node)).contains_key(k) ==> r.rank() <= k,
    decreases count(Some(*node)),
{
    match &node.left {
        None => {
            proof {
                lemma_empty::<T>();
                assert forall|k: int| #[trigger] items_of(Some(*node)).contains_key(k) implies node.item.rank() <= k by {
                    if items_of(node.right).contains_key(k) {
                        assert(node.item.rank() < k);
                    }
                }
            }
            &node.item
        },
        Some(l) => {
            let r = leftmost(l);
            proof {
                assert(r.rank() < node.item.rank());
                assert(!items_of(node.right).contains_key(r.rank()));
                assert forall|k: int| #[trigger] items_of(Some(*node)).contains_key(k) implies r.rank() <= k by {
                    if items_of(node.right).contains_key(k) {
                        assert(node.item.rank() < k);
                    }
                }
            }
            r
        },
    }
}

fn rightmost<T: Sortable>(node: &Box<Node<T>>) -> (r: &T)
    requires
        ordered(Some(*node)),
    ensures
        items_of(Some(*node)).contains_key(r.rank()),
        items_of(Some(*node))[r.rank()] == *r,
        forall|k: int| #[trigger] items_of(Some(*node)).contains_key(k) ==> k <= r.rank(),
    decreases count(Some(*node)),
{
    match &node.right {
        None => {
            proof {
                lemma_empty::<T>();
                assert forall|k: int| #[trigger] items_of(Some(*node)).contains_key(k) implies k <= node.item.rank() by {
                    if items_of(node.left).contains_key(k) {
                        assert(k < node.item.rank());
                    }
                }
            }
            &node.item
        },
        Some(rn) => {
            let r = rightmost(rn);
            proof {
                assert(node.item.rank() < r.rank());
                assert forall|k: int| #[trigger] items_of(Some(*node)).contains_key(k) implies k <= r.rank() by {
                    if items_of(node.left).contains_key(k) {
                        assert(k < node.item.rank());
                    }
                }
            }
            r
        },
    }
}

} // verus!
