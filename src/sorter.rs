use vstd::multiset::Multiset;
use vstd::prelude::*;

use crate::heap::{is_least, lemma_swap_keeps_items, Heap};

verus! {

broadcast use {
    vstd::seq_lib::group_to_multiset_ensures,
    vstd::seq_lib::lemma_multiset_commutative,
    vstd::multiset::group_multiset_properties,
};

/// The elements of `s` come in non-decreasing rank.
pub open spec fn is_sorted<T: Sortable>(s: Seq<T>) -> bool {
    forall|i: int, j: int| 0 <= i < j < s.len() ==> #[trigger] s[i].rank() <= #[trigger] s[j].rank()
}

/// Values that can be ordered by an integer rank.
///
/// Two values compare by their ranks alone: `a.precedes(&b)` holds exactly
/// when `a` ranks no higher than `b`.
pub trait Sortable: Copy + Sized {
    spec fn rank(&self) -> int;

    fn precedes(&self, other: &Self) -> (r: bool)
        ensures
            r == (self.rank() <= other.rank()),
    ;
}

impl Sortable for i32 {
    open spec fn rank(&self) -> int {
        *self as int
    }

    fn precedes(&self, other: &Self) -> (r: bool) {
        *self <= *other
    }
}

impl Sortable for i64 {
    open spec fn rank(&self) -> int {
        *self as int
    }

    fn precedes(&self, other: &Self) -> (r: bool) {
        *self <= *other
    }
}

impl Sortable for u32 {
    open spec fn rank(&self) -> int {
        *self as int
    }

    fn precedes(&self, other: &Self) -> (r: bool) {
        *self <= *other
    }
}

impl Sortable for u64 {
    open spec fn rank(&self) -> int {
        *self as int
    }

    fn precedes(&self, other: &Self) -> (r: bool) {
        *self <= *other
    }
}

impl Sortable for usize {
    open spec fn rank(&self) -> int {
        *self as int
    }

    fn precedes(&self, other: &Self) -> (r: bool) {
        *self <= *other
    }
}

/// Something that holds a sequence of elements and can put it in order.
pub trait Sorter<T: Sortable>: Sized {
    spec fn elements(&self) -> Seq<T>;

    /// Reorders the elements into non-decreasing rank, keeping each of them.
    fn sort(&mut self)
        ensures
            is_sorted(final(self).elements()),
            final(self).elements().to_multiset() == old(self).elements().to_multiset(),
    ;
}

/// Sorts by passing every element through a binary heap.
pub struct HeapSorter<T: Sortable>(pub Vec<T>);

/// Sorts by splitting in halves and merging the sorted halves.
pub struct MergeSorter<T: Sortable>(pub Vec<T>);

/// Sorts by partitioning around a pivot.
pub struct QuickSorter<T: Sortable>(pub Vec<T>);

impl<T: Sortable> QuickSorter<T> {
    pub fn new(elements: Vec<T>) -> (r: Self)
        ensures
            r.0@ == elements@,
    {
        QuickSorter(elements)
    }

    pub fn get(self) -> (r: Vec<T>)
        ensures
            r@ == self.0@,
    {
        self.0
    }
}

impl<T: Sortable> MergeSorter<T> {
    pub fn new(elements: Vec<T>) -> (r: Self)
        ensures
            r.0@ == elements@,
    {
        MergeSorter(elements)
    }

    pub fn get(self) -> (r: Vec<T>)
        ensures
            r@ == self.0@,
    {
        self.0
    }
}

impl<T: Sortable> HeapSorter<T> {
    pub fn new(elements: Vec<T>) -> (r: Self)
        ensures
            r.0@ == elements@,
    {
        HeapSorter(elements)
    }

    pub fn get(self) -> (r: Vec<T>)
        ensures
            r@ == self.0@,
    {
        self.0
    }
}

/// Pops everything out of `h`, least first.
fn drain_heap<T: Sortable>(h: &mut Heap<T>) -> (r: Vec<T>)
    requires
        old(h).wf(),
    ensures
        is_sorted(r@),
        r@.to_multiset() == old(h).items(),
{
    let mut v: Vec<T> = Vec::new();
    loop
        invariant
            h.wf(),
            is_sorted(v@),
            v@.to_multiset().add(h.items()) == old(h).items(),
            forall|i: int, y: T| 0 <= i < v@.len() && #[trigger] h.items().contains(y) ==> #[trigger] v@[i].rank() <= y.rank(),
        decreases h@.len(),
    {
        let ghost before = h.items();
        match h.pop() {
            None => {
                proof {
                    assert(h.items() =~= Multiset::empty());
                    assert(v@.to_multiset().add(h.items()) =~= v@.to_multiset());
                }
                return v;
            },
            Some(e) => {
                let ghost old_v = v@;
                v.push(e);
                proof {
                    assert(before.contains(e));
                    assert(v@.to_multiset() == old_v.to_multiset().insert(e));
                    assert(v@.to_multiset().add(h.items()) =~= old_v.to_multiset().add(before));
                    assert forall|i: int, j: int| 0 <= i < j < v@.len() implies #[trigger] v@[i].rank() <= #[trigger] v@[j].rank() by {
                        if j == old_v.len() {
                            assert(old_v[i].rank() <= e.rank());
                        }
                    }
                    assert forall|i: int, y: T| 0 <= i < v@.len() && #[trigger] h.items().contains(y) implies #[trigger] v@[i].rank() <= y.rank() by {
                        assert(before.contains(y));
                    }
                }
            },
        }
    }
}

/// Puts every element of `v` into a new heap.
fn heap_of<T: Sortable>(v: &Vec<T>) -> (r: Heap<T>)
    ensures
        r.wf(),
        r.items() == v@.to_multiset(),
{
    let mut h: Heap<T> = Heap::new();
    let mut i: usize = 0;
    while i < v.len()
        invariant
            i <= v@.len(),
            h.wf(),
            h.items() == v@.subrange(0, i as int).to_multiset(),
        decreases v@.len() - i,
    {
        h.insert(v[i]);
        proof {
            assert(v@.subrange(0, i + 1) =~= v@.subrange(0, i as int).push(v@[i as int]));
        }
        i += 1;
    }
    proof {
        assert(v@.subrange(0, i as int) =~= v@);
    }
    h
}

impl<T: Sortable> Sorter<T> for HeapSorter<T> {
    open spec fn elements(&self) -> Seq<T> {
        self.0@
    }

    fn sort(&mut self) {
        let mut h = heap_of(&self.0);
        self.0 = drain_heap(&mut h);
    }
}

/// Merges two halves by drawing, from two heaps holding them, whichever
/// least element ranks lower.
fn merge<T: Sortable>(left: &Vec<T>, right: &Vec<T>) -> (r: Vec<T>)
    ensures
        is_sorted(r@),
        r@.to_multiset() == left@.to_multiset().add(right@.to_multiset()),
{
    let mut queue1 = heap_of(left);
    let mut queue2 = heap_of(right);
    let mut out: Vec<T> = Vec::new();
    let ghost total = left@.to_multiset().add(right@.to_multiset());
    loop
        invariant
            queue1.wf(),
            queue2.wf(),
            is_sorted(out@),
            out@.to_multiset().add(queue1.items()).add(queue2.items()) == total,
            total == left@.to_multiset().add(right@.to_multiset()),
            forall|i: int, y: T|
                0 <= i < out@.len() && #[trigger] queue1.items().contains(y) ==> #[trigger] out@[i].rank() <= y.rank(),
            forall|i: int, y: T|
                0 <= i < out@.len() && #[trigger] queue2.items().contains(y) ==> #[trigger] out@[i].rank() <= y.rank(),
        decreases queue1@.len() + queue2@.len(),
    {
        let ghost items1 = queue1.items();
        let ghost items2 = queue2.items();
        let take_first = match (queue1.peek(), queue2.peek()) {
            (None, None) => {
                proof {
                    assert(queue1.items() =~= Multiset::empty());
                    assert(queue2.items() =~= Multiset::empty());
                    assert(out@.to_multiset().add(queue1.items()).add(queue2.items()) =~= out@.to_multiset());
                }
                return out;
            },
            (None, Some(_)) => false,
            (Some(_), None) => true,
            (Some(l), Some(r)) => l.precedes(&r),
        };
        let ghost old_out = out@;
        assert(forall|i: int, y: T| 0 <= i < old_out.len() && #[trigger] items1.contains(y) ==> #[trigger] old_out[i].rank() <= y.rank());
        assert(forall|i: int, y: T| 0 <= i < old_out.len() && #[trigger] items2.contains(y) ==> #[trigger] old_out[i].rank() <= y.rank());
        let e = if take_first {
            queue1.pop().unwrap()
        } else {
            queue2.pop().unwrap()
        };
        out.push(e);
        proof {
            assert(items1.contains(e) || items2.contains(e));
            assert(is_least(e, items1) && is_least(e, items2)) by {
                if take_first {
                    if items2.len() > 0 {
                        assert(queue2@.len() > 0);
                    }
                } else {
                    if items1.len() > 0 {
                        assert(queue1@.len() > 0);
                    }
                }
            }
            assert(out@.to_multiset() == old_out.to_multiset().insert(e));
            if take_first {
                assert(out@.to_multiset().add(queue1.items()).add(queue2.items()) =~= old_out.to_multiset().add(items1).add(items2));
            } else {
                assert(out@.to_multiset().add(queue1.items()).add(queue2.items()) =~= old_out.to_multiset().add(items1).add(items2));
            }
            assert forall|i: int, j: int| 0 <= i < j < out@.len() implies #[trigger] out@[i].rank() <= #[trigger] out@[j].rank() by {
                if j == old_out.len() {
                    if items1.contains(e) {
                        assert(old_out[i].rank() <= e.rank());
                    } else {
                        assert(old_out[i].rank() <= e.rank());
                    }
                }
            }
            assert forall|i: int, y: T|
                0 <= i < out@.len() && #[trigger] queue1.items().contains(y) implies #[trigger] out@[i].rank() <= y.rank() by {
                assert(items1.contains(y));
            }
            assert forall|i: int, y: T|
                0 <= i < out@.len() && #[trigger] queue2.items().contains(y) implies #[trigger] out@[i].rank() <= y.rank() by {
                assert(items2.contains(y));
            }
        }
    }
}

fn merge_sort<T: Sortable>(v: Vec<T>) -> (r: Vec<T>)
    ensures
        is_sorted(r@),
        r@.to_multiset() == v@.to_multiset(),
    decreases v@.len(),
{
    if v.len() <= 1 {
        return v;
    }
    let ghost whole = v@;
    let mut left = v;
    let middle = left.len() / 2;
    let right = left.split_off(middle);
    proof {
        assert(whole =~= left@ + right@);
    }
    let left = merge_sort(left);
    let right = merge_sort(right);
    merge(&left, &right)
}

impl<T: Sortable> Sorter<T> for MergeSorter<T> {
    open spec fn elements(&self) -> Seq<T> {
        self.0@
    }

    fn sort(&mut self) {
        let v = self.0.split_off(0);
        proof {
            assert(v@ =~= old(self).0@);
        }
        self.0 = merge_sort(v);
    }
}

fn swap<T: Sortable>(v: &mut Vec<T>, i: usize, j: usize, lo: usize, hi: usize)
    requires
        lo <= i < hi,
        lo <= j < hi,
        hi <= old(v)@.len(),
    ensures
        final(v)@ == old(v)@.update(i as int, old(v)@[j as int]).update(j as int, old(v)@[i as int]),
        final(v)@.subrange(lo as int, hi as int).to_multiset() == old(v)@.subrange(lo as int, hi as int).to_multiset(),
{
    let ghost s = v@;
    let a = v[i];
    let b = v[j];
    v.set(i, b);
    v.set(j, a);
    proof {
        let sub = s.subrange(lo as int, hi as int);
        lemma_swap_keeps_items(sub, i - lo, j - lo);
        assert(v@.subrange(lo as int, hi as int) =~= sub.update(i - lo, sub[j - lo]).update(j - lo, sub[i - lo]));
    }
}

/// Moves the last element of `lo..hi` to a position `p` such that nothing
/// before it in the range ranks higher and nothing after it ranks lower.
fn partition<T: Sortable>(v: &mut Vec<T>, lo: usize, hi: usize) -> (p: usize)
    requires
        lo < hi <= old(v)@.len(),
    ensures
        lo <= p < hi,
        final(v)@.len() == old(v)@.len(),
        forall|k: int| 0 <= k < lo || hi <= k < old(v)@.len() ==> #[trigger] final(v)@[k] == old(v)@[k],
        final(v)@.subrange(lo as int, hi as int).to_multiset() == old(v)@.subrange(lo as int, hi as int).to_multiset(),
        forall|k: int| lo <= k < p ==> #[trigger] final(v)@[k].rank() <= final(v)@[p as int].rank(),
        forall|k: int| p < k < hi ==> final(v)@[p as int].rank() <= #[trigger] final(v)@[k].rank(),
{
    let pivot = v[hi - 1];
    let mut i = lo;
    let mut j = lo;
    while j < hi - 1
        invariant
            lo <= i <= j <= hi - 1,
            hi <= v@.len(),
            v@.len() == old(v)@.len(),
            v@[hi - 1] == pivot,
            forall|k: int| 0 <= k < lo || hi <= k < old(v)@.len() ==> #[trigger] v@[k] == old(v)@[k],
            v@.subrange(lo as int, hi as int).to_multiset() == old(v)@.subrange(lo as int, hi as int).to_multiset(),
            forall|k: int| lo <= k < i ==> #[trigger] v@[k].rank() <= pivot.rank(),
            forall|k: int| i <= k < j ==> pivot.rank() < #[trigger] v@[k].rank(),
        decreases hi - 1 - j,
    {
        if v[j].precedes(&pivot) {
            swap(v, i, j, lo, hi);
            i += 1;
        }
        j += 1;
    }
    swap(v, i, hi - 1, lo, hi);
    i
}

/// Sorts the range `lo..hi` of `v` in place, leaving the rest untouched.
fn quick_sort_range<T: Sortable>(v: &mut Vec<T>, lo: usize, hi: usize)
    requires
        lo <= hi <= old(v)@.len(),
    ensures
        final(v)@.len() == old(v)@.len(),
        forall|k: int| 0 <= k < lo || hi <= k < old(v)@.len() ==> #[trigger] final(v)@[k] == old(v)@[k],
        final(v)@.subrange(lo as int, hi as int).to_multiset() == old(v)@.subrange(lo as int, hi as int).to_multiset(),
        forall|a: int, b: int| lo <= a < b < hi ==> #[trigger] final(v)@[a].rank() <= #[trigger] final(v)@[b].rank(),
    decreases hi - lo,
{
    if hi - lo <= 1 {
        return ;
    }
    let p = partition(v, lo, hi);
    let ghost s1 = v@;
    quick_sort_range(v, lo, p);
    let ghost s2 = v@;
    quick_sort_range(v, p + 1, hi);
    let ghost s3 = v@;
    proof {
        let pv = s1[p as int];
        assert(s2[p as int] == pv);
        assert(s3[p as int] == pv);
        assert forall|k: int| lo <= k < p implies #[trigger] s3[k].rank() <= pv.rank() by {
            assert(s3[k] == s2[k]);
            let x = s2[k];
            assert(s2.subrange(lo as int, p as int)[k - lo] == x);
            assert(s2.subrange(lo as int, p as int).to_multiset().contains(x));
            assert(s1.subrange(lo as int, p as int).contains(x));
            let m = choose|m: int| 0 <= m < p - lo && #[trigger] s1.subrange(lo as int, p as int)[m] == x;
            assert(s1[lo + m] == x);
        }
        assert forall|k: int| p < k < hi implies pv.rank() <= #[trigger] s3[k].rank() by {
            let x = s3[k];
            assert(s3.subrange(p + 1, hi as int)[k - p - 1] == x);
            assert(s3.subrange(p + 1, hi as int).to_multiset().contains(x));
            assert(s2.subrange(p + 1, hi as int).contains(x));
            let m = choose|m: int| 0 <= m < hi - p - 1 && #[trigger] s2.subrange(p + 1, hi as int)[m] == x;
            assert(s2[p + 1 + m] == s1[p + 1 + m]);
        }
        assert forall|a: int, b: int| lo <= a < b < hi implies #[trigger] s3[a].rank() <= #[trigger] s3[b].rank() by {
            if b < p {
                assert(s3[a] == s2[a] && s3[b] == s2[b]);
            } else if a > p {
            } else if a == p || b == p {
            } else {
                assert(s3[a].rank() <= pv.rank());
            }
        }
        let whole1 = s1.subrange(lo as int, hi as int);
        let whole3 = s3.subrange(lo as int, hi as int);
        assert(whole1 =~= s1.subrange(lo as int, p as int) + s1.subrange(p as int, hi as int));
        assert(s2.subrange(p as int, hi as int) =~= s1.subrange(p as int, hi as int));
        assert(whole3 =~= s3.subrange(lo as int, p + 1) + s3.subrange(p + 1, hi as int));
        assert(s3.subrange(lo as int, p + 1) =~= s2.subrange(lo as int, p + 1));
        assert(s2.subrange(lo as int, p + 1) =~= s2.subrange(lo as int, p as int) + s2.subrange(p as int, p + 1));
        assert(s1.subrange(p as int, hi as int) =~= s1.subrange(p as int, p + 1) + s1.subrange(p + 1, hi as int));
        assert(s2.subrange(p as int, p + 1) =~= s1.subrange(p as int, p + 1));
        assert(s2.subrange(p + 1, hi as int) =~= s1.subrange(p + 1, hi as int));
    }
}

impl<T: Sortable> Sorter<T> for QuickSorter<T> {
    open spec fn elements(&self) -> Seq<T> {
        self.0@
    }

    fn sort(&mut self) {
        let len = self.0.len();
        quick_sort_range(&mut self.0, 0, len);
        proof {
            assert(self.0@.subrange(0, len as int) =~= self.0@);
            assert(old(self).0@.subrange(0, len as int) =~= old(self).0@);
        }
    }
}

} // verus!
