use vstd::multiset::Multiset;
use vstd::prelude::*;

use crate::sorter::Sortable;

verus! {

broadcast use vstd::seq_lib::group_to_multiset_ensures;

/// Every element ranks no lower than the element at its parent position
/// `(i - 1) / 2`.
pub open spec fn heap_ordered<T: Sortable>(s: Seq<T>) -> bool {
    forall|i: int| 0 < i < s.len() ==> s[(i - 1) / 2].rank() <= #[trigger] s[i].rank()
}

/// `x` ranks no higher than any element of `m`.
pub open spec fn is_least<T: Sortable>(x: T, m: Multiset<T>) -> bool {
    forall|y: T| m.contains(y) ==> x.rank() <= y.rank()
}

/// All pairs are ordered except the one between `k` and its parent; the parent
/// of `k` is also no higher than the children of `k`.
spec fn ordered_above<T: Sortable>(s: Seq<T>, k: int) -> bool {
    &&& forall|i: int| 0 < i < s.len() && i != k ==> s[(i - 1) / 2].rank() <= #[trigger] s[i].rank()
    &&& k > 0 ==> forall|c: int|
        0 < c < s.len() && (c - 1) / 2 == k ==> s[(k - 1) / 2].rank() <= #[trigger] s[c].rank()
}

/// All pairs are ordered except those between `k` and its children; the parent
/// of `k` is also no higher than the children of `k`.
spec fn ordered_below<T: Sortable>(s: Seq<T>, k: int) -> bool {
    &&& forall|i: int|
        0 < i < s.len() && (i - 1) / 2 != k ==> s[(i - 1) / 2].rank() <= #[trigger] s[i].rank()
    &&& k > 0 ==> forall|c: int|
        0 < c < s.len() && (c - 1) / 2 == k ==> s[(k - 1) / 2].rank() <= #[trigger] s[c].rank()
}

/// In a heap-ordered sequence the first element ranks no higher than any other.
pub proof fn lemma_root_is_least<T: Sortable>(s: Seq<T>, i: int)
    requires
        heap_ordered(s),
        0 <= i < s.len(),
    ensures
        s[0].rank() <= s[i].rank(),
    decreases i,
{
    if i > 0 {
        lemma_root_is_least(s, (i - 1) / 2);
    }
}

/// In a heap-ordered sequence every element at an inner position `i` ranks no
/// higher than its children at `2i + 1` and `2i + 2`.
pub proof fn lemma_parent_below_children<T: Sortable>(s: Seq<T>, i: int)
    requires
        heap_ordered(s),
        0 <= i,
    ensures
        2 * i + 1 < s.len() ==> s[i].rank() <= s[2 * i + 1].rank(),
        2 * i + 2 < s.len() ==> s[i].rank() <= s[2 * i + 2].rank(),
{
    if 2 * i + 1 < s.len() {
        assert((2 * i + 1 - 1) / 2 == i);
        assert(s[(2 * i + 1 - 1) / 2].rank() <= s[2 * i + 1].rank());
    }
    if 2 * i + 2 < s.len() {
        assert((2 * i + 2 - 1) / 2 == i);
        assert(s[(2 * i + 2 - 1) / 2].rank() <= s[2 * i + 2].rank());
    }
}

proof fn lemma_least_of_heap<T: Sortable>(s: Seq<T>)
    requires
        heap_ordered(s),
        s.len() > 0,
    ensures
        is_least(s[0], s.to_multiset()),
{
    assert forall|y: T| s.to_multiset().contains(y) implies s[0].rank() <= y.rank() by {
        assert(s.contains(y));
        let i = choose|i: int| 0 <= i < s.len() && s[i] == y;
        lemma_root_is_least(s, i);
    }
}

/// Exchanging two elements keeps what a sequence holds.
pub proof fn lemma_swap_keeps_items<T>(s: Seq<T>, i: int, j: int)
    requires
        0 <= i < s.len(),
        0 <= j < s.len(),
    ensures
        s.update(i, s[j]).update(j, s[i]).to_multiset() == s.to_multiset(),
{
    let t = s.update(i, s[j]);
    assert(t.to_multiset() == s.to_multiset().insert(s[j]).remove(s[i]));
    assert(t.update(j, s[i]).to_multiset() == t.to_multiset().insert(s[i]).remove(t[j]));
    if i == j {
        assert(s.update(i, s[j]).update(j, s[i]) =~= s);
    } else {
        assert(t[j] == s[j]);
        assert(s.to_multiset().insert(s[j]).remove(s[i]).insert(s[i]).remove(s[j])
            =~= s.to_multiset());
    }
}

proof fn lemma_sift_up_step<T: Sortable>(s: Seq<T>, p: int, cur: int)
    requires
        0 < cur < s.len(),
        p == (cur - 1) / 2,
        ordered_above(s, cur),
        s[cur].rank() < s[p].rank(),
    ensures
        ordered_above(s.update(p, s[cur]).update(cur, s[p]), p),
{
    let t = s.update(p, s[cur]).update(cur, s[p]);
    assert forall|i: int| 0 < i < t.len() && i != p implies t[(i - 1) / 2].rank()
        <= #[trigger] t[i].rank() by {
        if i == cur {
        } else if (i - 1) / 2 == cur {
        } else if (i - 1) / 2 == p {
            assert(s[(i - 1) / 2].rank() <= s[i].rank());
        } else {
            assert(s[(i - 1) / 2].rank() <= s[i].rank());
        }
    }
    if p > 0 {
        assert(s[(p - 1) / 2].rank() <= s[p].rank());
        assert forall|c: int| 0 < c < t.len() && (c - 1) / 2 == p implies t[(p - 1) / 2].rank()
            <= #[trigger] t[c].rank() by {
            if c != cur {
                assert(s[(c - 1) / 2].rank() <= s[c].rank());
            }
        }
    }
}

proof fn lemma_sift_down_step<T: Sortable>(s: Seq<T>, cur: int, least: int)
    requires
        0 <= cur < least < s.len(),
        least == 2 * cur + 1 || least == 2 * cur + 2,
        ordered_below(s, cur),
        forall|c: int| 0 < c < s.len() && (c - 1) / 2 == cur ==> s[least].rank() <= #[trigger] s[c].rank(),
        s[least].rank() < s[cur].rank(),
    ensures
        ordered_below(s.update(cur, s[least]).update(least, s[cur]), least),
{
    let t = s.update(cur, s[least]).update(least, s[cur]);
    assert((least - 1) / 2 == cur);
    assert forall|i: int| 0 < i < t.len() && (i - 1) / 2 != least implies t[(i - 1) / 2].rank()
        <= #[trigger] t[i].rank() by {
        if i == least {
        } else if (i - 1) / 2 == cur {
            assert(s[least].rank() <= s[i].rank());
        } else if i == cur {
            assert(s[(cur - 1) / 2].rank() <= s[least].rank());
        } else {
            assert(s[(i - 1) / 2].rank() <= s[i].rank());
        }
    }
    assert forall|c: int| 0 < c < t.len() && (c - 1) / 2 == least implies t[(least - 1) / 2].rank()
        <= #[trigger] t[c].rank() by {
        assert(s[(c - 1) / 2].rank() <= s[c].rank());
    }
}

/// A binary min-heap kept in a dense array: the element at position `i` ranks
/// no higher than its children at `2i + 1` and `2i + 2`.
pub struct Heap<T: Sortable> {
    data: Vec<T>,
}

impl<T: Sortable> View for Heap<T> {
    type V = Seq<T>;

    closed spec fn view(&self) -> Seq<T> {
        self.data@
    }
}

impl<T: Sortable> Heap<T> {
    pub open spec fn wf(&self) -> bool {
        heap_ordered(self@)
    }

    /// What the heap holds, regardless of position.
    pub open spec fn items(&self) -> Multiset<T> {
        self@.to_multiset()
    }

    pub fn new() -> (r: Self)
        ensures
            r.wf(),
            r@.len() == 0,
            r.items() =~= Multiset::empty(),
    {
        Heap { data: Vec::new() }
    }

    fn parent(&self, idx: usize) -> (r: Option<usize>)
        requires
            idx < self@.len(),
        ensures
            idx == 0 ==> r.is_none(),
            idx > 0 ==> r == Some(((idx - 1) / 2) as usize),
    {
        if idx == 0 {
            None
        } else {
            Some((idx - 1) / 2)
        }
    }

    fn child(&self, idx: usize) -> (r: Option<usize>)
        requires
            idx < self@.len(),
        ensures
            2 * idx + 1 >= self@.len() ==> r.is_none(),
            2 * idx + 1 < self@.len() ==> r == Some((2 * idx + 1) as usize),
    {
        if idx >= self.data.len() / 2 {
            None
        } else {
            Some(idx * 2 + 1)
        }
    }

    fn swap(&mut self, i: usize, j: usize)
        requires
            i < old(self)@.len(),
            j < old(self)@.len(),
        ensures
            final(self)@ == old(self)@.update(i as int, old(self)@[j as int]).update(
                j as int,
                old(self)@[i as int],
            ),
            final(self).items() == old(self).items(),
    {
        proof {
            lemma_swap_keeps_items(self@, i as int, j as int);
        }
        let a = self.data[i];
        let b = self.data[j];
        self.data.set(i, b);
        self.data.set(j, a);
    }

    /// Inserts `value`, then moves it towards the root while its parent ranks
    /// higher.
    pub fn insert(&mut self, value: T)
        requires
            old(self).wf(),
        ensures
            final(self).wf(),
            final(self).items() == old(self).items().insert(value),
            final(self)@.len() == old(self)@.len() + 1,
    {
        self.data.push(value);
        let idx = self.data.len() - 1;
        proof {
            assert forall|c: int|
                0 < c < self@.len() && (c - 1) / 2 == idx implies self@[(idx - 1) / 2].rank()
                <= #[trigger] self@[c].rank() by {}
        }
        self.bubble(idx);
    }

    fn bubble(&mut self, idx: usize)
        requires
            idx < old(self)@.len(),
            ordered_above(old(self)@, idx as int),
        ensures
            final(self).wf(),
            final(self).items() == old(self).items(),
            final(self)@.len() == old(self)@.len(),
    {
        let mut cur = idx;
        loop
            invariant
                cur < self@.len(),
                ordered_above(self@, cur as int),
                self.items() == old(self).items(),
                self@.len() == old(self)@.len(),
            decreases cur,
        {
            let p = match self.parent(cur) {
                None => return ,
                Some(p) => p,
            };
            if self.data[cur].precedes(&self.data[p]) && !self.data[p].precedes(&self.data[cur]) {
                let ghost s = self@;
                self.swap(p, cur);
                proof {
                    lemma_sift_up_step(s, p as int, cur as int);
                }
                cur = p;
            } else {
                return ;
            }
        }
    }

    /// Removes and returns the element at the root, which ranks no higher than
    /// any other; `None` when the heap is empty.
    pub fn pop(&mut self) -> (r: Option<T>)
        requires
            old(self).wf(),
        ensures
            final(self).wf(),
            old(self)@.len() == 0 ==> r.is_none() && final(self)@ == old(self)@ && old(self).items()
                =~= Multiset::empty(),
            old(self)@.len() > 0 ==> {
                &&& r == Some(old(self)@[0])
                &&& old(self).items().contains(old(self)@[0])
                &&& is_least(old(self)@[0], old(self).items())
                &&& final(self).items() == old(self).items().remove(old(self)@[0])
                &&& final(self)@.len() == old(self)@.len() - 1
            },
    {
        if self.data.len() == 0 {
            proof {
                assert(self@.to_multiset().len() == 0);
            }
            None
        } else {
            proof {
                lemma_least_of_heap(self@);
                assert(self@.contains(self@[0]));
            }
            let popped = self.data[0];
            self.heapify();
            Some(popped)
        }
    }

    /// The element at the root, which ranks no higher than any other; `None`
    /// when the heap is empty.
    pub fn peek(&self) -> (r: Option<T>)
        requires
            self.wf(),
        ensures
            self@.len() == 0 ==> r.is_none(),
            self@.len() > 0 ==> r == Some(self@[0]) && is_least(self@[0], self.items()),
    {
        if self.data.len() == 0 {
            None
        } else {
            proof {
                lemma_least_of_heap(self@);
            }
            Some(self.data[0])
        }
    }

    pub fn len(&self) -> (r: usize)
        ensures
            r == self@.len(),
    {
        self.data.len()
    }

    pub fn is_empty(&self) -> (r: bool)
        ensures
            r == (self@.len() == 0),
    {
        self.data.len() == 0
    }

    /// The underlying array, in heap order.
    pub fn into_vec(self) -> (r: Vec<T>)
        ensures
            r@ == self@,
    {
        self.data
    }

    /// Removes the root: the last element takes its place and moves down,
    /// swapping with its lower-ranked child, until both children rank no lower.
    fn heapify(&mut self)
        requires
            old(self).wf(),
            old(self)@.len() > 0,
        ensures
            final(self).wf(),
            final(self).items() == old(self).items().remove(old(self)@[0]),
            final(self)@.len() == old(self)@.len() - 1,
    {
        let ghost s0 = self@;
        let last = self.data.pop().unwrap();
        proof {
            assert(s0 =~= self@.push(last));
            assert(s0.to_multiset() == self@.to_multiset().insert(last));
        }
        if self.data.len() == 0 {
            proof {
                assert(self@.to_multiset() =~= s0.to_multiset().remove(s0[0]));
            }
            return ;
        }
        let ghost s1 = self@;
        self.data.set(0, last);
        proof {
            assert(self@.to_multiset() == s1.to_multiset().insert(last).remove(s1[0]));
            assert(s1[0] == s0[0]);
            assert(self@.to_multiset() =~= s0.to_multiset().remove(s0[0]));
            assert forall|i: int|
                0 < i < self@.len() && (i - 1) / 2 != 0 implies self@[(i - 1) / 2].rank()
                <= #[trigger] self@[i].rank() by {
                assert(s0[(i - 1) / 2].rank() <= s0[i].rank());
            }
        }
        let ghost m = self.items();
        assert(s0 == old(self)@);
        let mut cur: usize = 0;
        loop
            invariant
                cur < self@.len(),
                ordered_below(self@, cur as int),
                self.items() == m,
                m == old(self).items().remove(old(self)@[0]),
                self@.len() == old(self)@.len() - 1,
            decreases self@.len() - cur,
        {
            let left = match self.child(cur) {
                None => {
                    proof {
                        assert forall|i: int| 0 < i < self@.len() implies self@[(i - 1) / 2].rank()
                            <= #[trigger] self@[i].rank() by {
                            if (i - 1) / 2 == cur {
                                assert(i >= 2 * cur + 1);
                            }
                        }
                    }
                    return ;
                },
                Some(left) => left,
            };
            let len = self.data.len();
            let mut least = left;
            if left + 1 < len && !self.data[left].precedes(&self.data[left + 1]) {
                least = left + 1;
            }
            assert(least == 2 * cur + 1 || least == 2 * cur + 2);
            assert((least - 1) / 2 == cur);
            assert forall|c: int| 0 < c < self@.len() && (c - 1) / 2 == cur implies self@[least as int].rank()
                <= #[trigger] self@[c].rank() by {
                assert(c == 2 * cur + 1 || c == 2 * cur + 2);
            }
            if self.data[cur].precedes(&self.data[least]) {
                proof {
                    assert forall|i: int| 0 < i < self@.len() implies self@[(i - 1) / 2].rank()
                        <= #[trigger] self@[i].rank() by {
                        if (i - 1) / 2 == cur {
                            assert(i == 2 * cur + 1 || i == 2 * cur + 2);
                        }
                    }
                }
                return ;
            }
            let ghost s = self@;
            self.swap(cur, least);
            proof {
                lemma_sift_down_step(s, cur as int, least as int);
            }
            cur = least;
        }
    }
}

/// Two successive removals from a heap come out in non-decreasing rank: the
/// first is least among all items, the second least among what remained.
pub proof fn lemma_pops_non_decreasing<T: Sortable>(items: Multiset<T>, first: T, second: T)
    requires
        is_least(first, items),
        items.contains(first),
        items.remove(first).contains(second),
    ensures
        first.rank() <= second.rank(),
{
    assert(items.contains(second));
}

} // verus!
