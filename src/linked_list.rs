use vstd::prelude::*;

use crate::sorter::Sortable;

verus! {

struct Node<T> {
    item: T,
    next: Option<Box<Node<T>>>,
}

/// The items of the chain starting at `link`, front first.
spec fn items_of<T>(link: Option<Box<Node<T>>>) -> Seq<T>
    decreases link,
{
    match link {
        None => Seq::empty(),
        Some(node) => seq![node.item].add(items_of(node.next)),
    }
}

/// `x` and `y` have the same rank.
pub open spec fn same_rank<T: Sortable>(x: T, y: T) -> bool {
    x.rank() == y.rank()
}

/// `s` with every element of the same rank as `item` left out.
pub open spec fn without<T: Sortable>(s: Seq<T>, item: T) -> Seq<T>
    decreases s.len(),
{
    if s.len() == 0 {
        s
    } else if same_rank(s[0], item) {
        without(s.drop_first(), item)
    } else {
        seq![s[0]].add(without(s.drop_first(), item))
    }
}

/// The first position in `s` holding an element of the same rank as `item`.
pub open spec fn first_index<T: Sortable>(s: Seq<T>, item: T) -> Option<int>
    decreases s.len(),
{
    if s.len() == 0 {
        None
    } else if same_rank(s[0], item) {
        Some(0)
    } else {
        match first_index(s.drop_first(), item) {
            None => None,
            Some(i) => Some(i + 1),
        }
    }
}

/// A singly linked list; items are pushed and popped at the front.
pub struct LinkedList<T> {
    head: Option<Box<Node<T>>>,
}

impl<T> View for LinkedList<T> {
    type V = Seq<T>;

    closed spec fn view(&self) -> Seq<T> {
        items_of(self.head)
    }
}

fn get_in<T>(link: &Option<Box<Node<T>>>, idx: usize) -> (r: &T)
    requires
        idx < items_of(*link).len(),
    ensures
        *r == items_of(*link)[idx as int],
    decreases idx,
{
    let node = link.as_ref().unwrap();
    if idx == 0 {
        &node.item
    } else {
        get_in(&node.next, idx - 1)
    }
}

fn index_in<T: Sortable>(link: &Option<Box<Node<T>>>, item: &T) -> (r: Option<usize>)
    requires
        items_of(*link).len() <= usize::MAX,
    ensures
        r.is_none() <==> first_index(items_of(*link), *item).is_none(),
        r.is_some() ==> first_index(items_of(*link), *item) == Some(r.unwrap() as int),
        r.is_some() ==> r.unwrap() < items_of(*link).len(),
    decreases *link,
{
    match link {
        None => None,
        Some(node) => {
            proof {
                assert(items_of(*link).drop_first() =~= items_of(node.next));
            }
            if node.item.precedes(item) && item.precedes(&node.item) {
                Some(0)
            } else {
                match index_in(&node.next, item) {
                    None => None,
                    Some(i) => Some(i + 1),
                }
            }
        },
    }
}

fn delete_in<T: Sortable>(link: Option<Box<Node<T>>>, item: &T) -> (r: Option<Box<Node<T>>>)
    ensures
        items_of(r) == without(items_of(link), *item),
    decreases link,
{
    match link {
        None => None,
        Some(node) => {
            let ghost s = items_of(Some(node));
            let Node { item: x, next } = *node;
            proof {
                assert(s.drop_first() =~= items_of(next));
            }
            let rest = delete_in(next, item);
            if x.precedes(item) && item.precedes(&x) {
                rest
            } else {
                let r = Some(Box::new(Node { item: x, next: rest }));
                proof {
                    assert(items_of(r) =~= seq![x].add(items_of(rest)));
                }
                r
            }
        },
    }
}

fn insert_in<T>(link: Option<Box<Node<T>>>, idx: usize, item: T) -> (r: Option<Box<Node<T>>>)
    ensures
        idx <= items_of(link).len() ==> items_of(r) == items_of(link).insert(idx as int, item),
        idx > items_of(link).len() ==> items_of(r) == items_of(link).push(item),
    decreases link,
{
    if idx == 0 {
        let r = Some(Box::new(Node { item, next: link }));
        proof {
            assert(items_of(r) =~= items_of(link).insert(0, item));
        }
        return r;
    }
    match link {
        None => {
            let r = Some(Box::new(Node { item, next: None }));
            proof {
                assert(items_of(r) =~= items_of(link).push(item));
            }
            r
        },
        Some(node) => {
            let ghost s = items_of(Some(node));
            let Node { item: x, next } = *node;
            proof {
                assert(s.drop_first() =~= items_of(next));
            }
            let rest = insert_in(next, idx - 1, item);
            let r = Some(Box::new(Node { item: x, next: rest }));
            proof {
                if idx <= s.len() {
                    assert(items_of(r) =~= s.insert(idx as int, item));
                } else {
                    assert(items_of(r) =~= s.push(item));
                }
            }
            r
        },
    }
}

impl<T: Sortable> LinkedList<T> {
    pub fn new() -> (r: Self)
        ensures
            r@ == Seq::<T>::empty(),
    {
        LinkedList { head: None }
    }

    /// The item at position `idx`, counting from the front.
    pub fn get(&self, idx: usize) -> (r: &T)
        requires
            idx < self@.len(),
        ensures
            *r == self@[idx as int],
    {
        get_in(&self.head, idx)
    }

    /// The position of the first item of the same rank as `item`.
    pub fn get_index(&self, item: T) -> (r: Option<usize>)
        requires
            self@.len() <= usize::MAX,
        ensures
            r.is_none() <==> first_index(self@, item).is_none(),
            r.is_some() ==> first_index(self@, item) == Some(r.unwrap() as int),
    {
        index_in(&self.head, &item)
    }

    /// Removes every item of the same rank as `item`.
    pub fn delete(&mut self, item: T)
        ensures
            final(self)@ == without(old(self)@, item),
    {
        let head = self.head.take();
        self.head = delete_in(head, &item);
    }

    /// Removes and returns the front item; `None` when the list is empty.
    pub fn pop(&mut self) -> (r: Option<T>)
        ensures
            old(self)@.len() == 0 ==> r.is_none() && final(self)@ == old(self)@,
            old(self)@.len() > 0 ==> r == Some(old(self)@[0]) && final(self)@ == old(self)@.drop_first(),
    {
        match self.head.take() {
            Some(node) => {
                let ghost s = items_of(Some(node));
                let Node { item, next } = *node;
                self.head = next;
                proof {
                    assert(s.drop_first() =~= self@);
                }
                Some(item)
            },
            None => None,
        }
    }

    /// Puts `item` at the front.
    pub fn push(&mut self, item: T)
        ensures
            final(self)@ == seq![item].add(old(self)@),
    {
        let tail = self.head.take();
        self.head = Some(Box::new(Node { item, next: tail }));
    }

    /// Puts `item` at position `idx`, or at the end when the list is shorter.
    pub fn insert(&mut self, idx: usize, item: T)
        ensures
            idx <= old(self)@.len() ==> final(self)@ == old(self)@.insert(idx as int, item),
            idx > old(self)@.len() ==> final(self)@ == old(self)@.push(item),
    {
        let head = self.head.take();
        self.head = insert_in(head, idx, item);
    }
}

} // verus!
