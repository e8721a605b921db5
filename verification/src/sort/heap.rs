//! Binary heap over a `Vec`, ordered by a caller-supplied comparator.
//!
//! It is a max-heap with respect to the comparator: the element that
//! compares `Greater` rises to the root.  Passing a reversed comparator
//! gives a min-heap.  Shared by heapsort and by the bounded top-K sort.
use vstd::prelude::*;
use vstd::multiset::Multiset;
use core::cmp::Ordering;
use super::order::{
    int_of, lawful_cmp, outcome_fn, le_of, agrees_with, total_le, lemma_implements_agrees,
    lemma_swap_multiset, vec_swap, implements, total_preorder, drawn_from, found_in, lemma_swap_drawn, lemma_drawn_refl,
};

verus! {

broadcast use {vstd::seq_lib::group_to_multiset_ensures, vstd::multiset::group_multiset_axioms};

/// Index of the parent of position `k`.
pub open spec fn parent(k: int) -> int {
    (k - 1) / 2
}

/// Position `k` is not above its parent.
pub open spec fn below_parent<T>(le: spec_fn(T, T) -> bool, d: Seq<T>, k: int) -> bool {
    le(d[k], d[parent(k)])
}

/// The heap condition holds for every child in `d[.. n]` whose parent is at
/// `from` or later and not at `skip`.
pub open spec fn heap_from<T>(le: spec_fn(T, T) -> bool, d: Seq<T>, from: int, n: int, skip: int) -> bool {
    forall|k: int| 0 < k < n && parent(k) >= from && parent(k) != skip ==> #[trigger] below_parent(le, d, k)
}

/// Binary heap backed by a `Vec<T>`.
#[verifier::reject_recursive_types(T)]
pub struct Heap<T, F> {
    data: Vec<T>,
    cmp: F,
    le: Ghost<spec_fn(T, T) -> bool>,
}

impl<T, F> View for Heap<T, F> {
    type V = Multiset<T>;

    /// The elements held.
    closed spec fn view(&self) -> Multiset<T> {
        self.data@.to_multiset()
    }
}

/// Every element of `d[.. n]` is at most the root.
pub proof fn lemma_root_is_max<T>(le: spec_fn(T, T) -> bool, d: Seq<T>, n: int, k: int)
    requires
        total_le(le),
        0 <= k < n <= d.len(),
        heap_from(le, d, 0, n, -1),
    ensures
        le(d[k], d[0]),
    decreases k,
{
    if k > 0 {
        assert(below_parent(le, d, k));
        lemma_root_is_max(le, d, n, parent(k));
    } else {
        assert(le(d[0], d[0]) || le(d[0], d[0]));
    }
}

impl<T, F> Heap<T, F> {
    /// The "not above" relation the heap is ordered by.
    pub closed spec fn le(&self) -> spec_fn(T, T) -> bool {
        self.le@
    }

    /// The comparator answers as `le` says, `le` is a total preorder, and
    /// every element is at most its parent.
    pub closed spec fn is_heap(&self) -> bool
        where F: Fn(&T, &T) -> Ordering
    {
        &&& agrees_with(self.cmp, self.le@)
        &&& total_le(self.le@)
        &&& heap_from(self.le@, self.data@, 0, int_of(self.data.len()), -1)
    }

    /// Number of elements.
    pub fn len(&self) -> (n: usize)
        ensures
            n == self@.len(),
    {
        self.data.len()
    }

    /// `le` as an executable test, built from the comparator.
    fn le_test<'a>(cmp: &'a F, Ghost(le): Ghost<spec_fn(T, T) -> bool>) -> (g: impl Fn(&T, &T) -> bool + 'a)
        where F: Fn(&T, &T) -> Ordering, T: 'a
        requires
            agrees_with(*cmp, le),
            total_le(le),
        ensures
            computes(g, le),
    {
        move |a: &T, b: &T| -> (r: bool)
            ensures
                r == le(*a, *b),
            {
                let o = cmp(a, b);
                !matches!(o, Ordering::Greater)
            }
    }

    /// Builds a heap from an existing `Vec` in O(n).
    pub fn from_vec(data: Vec<T>, cmp: F) -> (heap: Self)
        where F: Fn(&T, &T) -> Ordering
        requires
            lawful_cmp(cmp),
        ensures
            heap.is_heap(),
            heap@ == data@.to_multiset(),
            heap.le() == le_of(outcome_fn(cmp)),
    {
        proof {
            lemma_implements_agrees(cmp, outcome_fn(cmp));
        }
        Self::from_vec_with(data, cmp, Ghost(le_of(outcome_fn(cmp))))
    }

    /// Builds a heap ordered by `le`, which `cmp` agrees with.
    pub(crate) fn from_vec_with(data: Vec<T>, cmp: F, Ghost(le): Ghost<spec_fn(T, T) -> bool>) -> (heap: Self)
        where F: Fn(&T, &T) -> Ordering
        requires
            agrees_with(cmp, le),
            total_le(le),
        ensures
            heap.is_heap(),
            heap@ == data@.to_multiset(),
            heap.le() == le,
    {
        let mut heap = Self { data, cmp, le: Ghost(le) };
        let len = heap.data.len();
        if len > 1 {
            let mut i: usize = (len - 2) / 2 + 1;
            while i > 0
                invariant
                    heap.data.len() == len,
                    len > 1,
                    i <= (len - 2) / 2 + 1,
                    heap.le@ == le,
                    agrees_with(heap.cmp, le),
                    total_le(le),
                    heap.data@.to_multiset() == data@.to_multiset(),
                    heap_from(le, heap.data@, int_of(i), int_of(len), -1),
                decreases i,
            {
                i = i - 1;
                let g = Self::le_test(&heap.cmp, Ghost(le));
                sift_down_by(&mut heap.data, i, len, &g, Ghost(le));
            }
        }
        heap
    }

    /// Adds an element. O(log n).
    pub fn push(&mut self, val: T)
        where F: Fn(&T, &T) -> Ordering
        requires
            old(self).is_heap(),
        ensures
            final(self).is_heap(),
            final(self)@ == old(self)@.insert(val),
            final(self).le() == old(self).le(),
    {
        self.data.push(val);
        let n = self.data.len();
        proof {
            let d = self.data@;
            assert forall|k: int| 0 < k < n && parent(k) >= 0 && parent(k) != -1 && k != n - 1 implies #[trigger] below_parent(self.le@, d, k) by {
                assert(below_parent(self.le@, old(self).data@, k));
            }
        }
        let g = Self::le_test(&self.cmp, Ghost(self.le@));
        sift_up_by(&mut self.data, n - 1, &g, Ghost(self.le@));
    }

    /// Removes and returns the root, a greatest element. O(log n).
    pub fn pop(&mut self) -> (r: Option<T>)
        where F: Fn(&T, &T) -> Ordering
        requires
            old(self).is_heap(),
        ensures
            final(self).is_heap(),
            final(self).le() == old(self).le(),
            old(self)@.len() == 0 <==> r is None,
            r is None ==> final(self)@ == old(self)@,
            r matches Some(x) ==> {
                &&& old(self)@.contains(x)
                &&& final(self)@ == old(self)@.remove(x)
                &&& forall|y: T| #[trigger] old(self)@.contains(y) ==> (old(self).le())(y, x)
            },
    {
        if self.data.len() == 0 {
            return None;
        }
        let ghost d0 = self.data@;
        proof {
            assert forall|y: T| #[trigger] d0.to_multiset().contains(y) implies (self.le@)(y, d0[0]) by {
                vstd::seq_lib::to_multiset_contains(d0, y);
                let k = choose|k: int| 0 <= k < d0.len() && d0[k] == y;
                lemma_root_is_max(self.le@, d0, int_of(self.data.len()), k);
            }
            lemma_swap_multiset(d0, 0, d0.len() - 1);
        }
        let last = self.data.len() - 1;
        vec_swap(&mut self.data, 0, last);
        let val = self.data.pop().unwrap();
        proof {
            let d1 = d0.update(0, d0[d0.len() - 1]).update(d0.len() - 1, d0[0]);
            assert(d1 =~= self.data@.push(val));
            assert(d1.to_multiset() == self.data@.to_multiset().insert(val));
            assert(self.data@.to_multiset() =~= d0.to_multiset().remove(val));
        }
        if self.data.len() > 0 {
            let n = self.data.len();
            proof {
                let d = self.data@;
                assert forall|k: int| 0 < k < n && parent(k) >= 0 && parent(k) != 0 implies #[trigger] below_parent(self.le@, d, k) by {
                    assert(below_parent(self.le@, d0, k));
                }
            }
            let g = Self::le_test(&self.cmp, Ghost(self.le@));
            sift_down_by(&mut self.data, 0, n, &g, Ghost(self.le@));
        }
        Some(val)
    }

    /// Sorts the heap's elements ascending by the comparator and returns them.
    /// This is heapsort: move the root to the end, shrink, sift down.
    pub fn into_sorted_vec(self) -> (v: Vec<T>)
        where F: Fn(&T, &T) -> Ordering
        requires
            self.is_heap(),
        ensures
            v@.to_multiset() == self@,
            forall|i: int, j: int| 0 <= i < j < v@.len() ==> #[trigger] (self.le())(v@[i], v@[j]),
    {
        let mut heap = self;
        let len = heap.data.len();
        if len <= 1 {
            return heap.data;
        }
        let ghost le = heap.le@;
        let mut end: usize = len - 1;
        while end > 0
            invariant
                heap.data.len() == len,
                len > 1,
                end < len,
                heap.le@ == le,
                agrees_with(heap.cmp, le),
                total_le(le),
                heap.data@.to_multiset() == self.data@.to_multiset(),
                heap_from(le, heap.data@, 0, end + 1, -1),
                forall|i: int, j: int| end < i < j < len ==> #[trigger] le(heap.data@[i], heap.data@[j]),
                forall|i: int, j: int| 0 <= i <= end < j < len ==> #[trigger] le(heap.data@[i], heap.data@[j]),
            decreases end,
        {
            let ghost d0 = heap.data@;
            proof {
                lemma_swap_multiset(d0, 0, int_of(end));
                assert forall|k: int| 0 <= k <= end implies #[trigger] le(d0[k], d0[0]) by {
                    lemma_root_is_max(le, d0, end + 1, k);
                }
            }
            vec_swap(&mut heap.data, 0, end);
            let ghost d1 = heap.data@;
            proof {
                assert forall|k: int| 0 < k < end && parent(k) >= 0 && parent(k) != 0 implies #[trigger] below_parent(le, d1, k) by {
                    assert(below_parent(le, d0, k));
                }
            }
            let g = Self::le_test(&heap.cmp, Ghost(le));
            sift_down_by(&mut heap.data, 0, end, &g, Ghost(le));
            proof {
                let d = heap.data@;
                assert forall|i: int, j: int| end - 1 < i < j < len implies #[trigger] le(d[i], d[j]) by {
                    if i == end {
                        assert(le(d0[0], d0[j]));
                    }
                }
                assert forall|i: int, j: int| 0 <= i <= end - 1 < j < len implies #[trigger] le(d[i], d[j]) by {
                    assert(found_in(d1, 0, int_of(end), d[i]));
                    let i0 = choose|i0: int| 0 <= i0 < end && d1[i0] == d[i];
                    let i1 = if i0 == 0 { int_of(end) } else { i0 };
                    assert(d1[i0] == d0[i1]);
                    if j == end {
                        assert(le(d0[i1], d0[0]));
                    } else {
                        assert(le(d0[i1], d0[j]));
                    }
                }
            }
            end = end - 1;
        }
        proof {
            let d = heap.data@;
            assert forall|i: int, j: int| 0 <= i < j < d.len() implies #[trigger] le(d[i], d[j]) by {
                if i == 0 {
                    assert(0 <= i <= end < j < len);
                }
            }
        }
        heap.data
    }
}

/// `le_fn` computes `le`, a total preorder.
pub open spec fn computes<E, G: Fn(&E, &E) -> bool>(le_fn: G, le: spec_fn(E, E) -> bool) -> bool {
    &&& forall|a: &E, b: &E| #[trigger] le_fn.requires((a, b))
    &&& forall|a: &E, b: &E, r: bool| #[trigger] le_fn.ensures((a, b), r) ==> r == le(*a, *b)
    &&& total_le(le)
}

/// Moves the element at `pos` up until it is at most its parent.
pub(crate) fn sift_up_by<E, G: Fn(&E, &E) -> bool>(data: &mut Vec<E>, pos: usize, le_fn: &G, Ghost(le): Ghost<spec_fn(E, E) -> bool>)
    requires
        pos < old(data).len(),
        computes(*le_fn, le),
        forall|k: int| 0 < k < old(data).len() && k != pos ==> #[trigger] below_parent(le, old(data)@, k),
        pos > 0 ==> forall|c: int|
            0 < c < old(data).len() && parent(c) == pos ==> le(old(data)@[c], old(data)@[parent(int_of(pos))]),
    ensures
        final(data).len() == old(data).len(),
        heap_from(le, final(data)@, 0, int_of(final(data).len()), -1),
        final(data)@.to_multiset() == old(data)@.to_multiset(),
        drawn_from(final(data)@, old(data)@, 0, int_of(old(data).len())),
{
    let n = data.len();
    let mut pos = pos;
    proof {
        lemma_drawn_refl(data@, 0, int_of(n));
    }
    loop
        invariant
            drawn_from(data@, old(data)@, 0, int_of(n)),
            pos < n,
            data.len() == n,
            computes(*le_fn, le),
            data@.to_multiset() == old(data)@.to_multiset(),
            forall|k: int| 0 < k < n && k != pos ==> #[trigger] below_parent(le, data@, k),
            pos > 0 ==> forall|c: int|
                0 < c < n && parent(c) == pos ==> le(data@[c], data@[parent(int_of(pos))]),
        ensures
            forall|k: int| 0 < k < n ==> #[trigger] below_parent(le, data@, k),
            data.len() == n,
            data@.to_multiset() == old(data)@.to_multiset(),
            drawn_from(data@, old(data)@, 0, int_of(n)),
        decreases pos,
    {
        if pos == 0 {
            break;
        }
        let par = (pos - 1) / 2;
        let stop = le_fn(&data[pos], &data[par]);
        if stop {
            proof {
                assert(below_parent(le, data@, int_of(pos)));
            }
            break;
        }
        let ghost d0 = data@;
        proof {
            lemma_swap_multiset(d0, int_of(pos), int_of(par));
            lemma_swap_drawn(d0, old(data)@, 0, int_of(n), int_of(pos), int_of(par));
        }
        vec_swap(data, pos, par);
        proof {
            let d = data@;
            // the old parent value now sits at `pos`, the moved value at `par`
            assert(le(d0[int_of(par)], d0[int_of(pos)]));
            assert forall|k: int| 0 < k < n && k != par implies #[trigger] below_parent(le, d, k) by {
                if k == pos {
                } else if parent(k) == pos {
                    assert(le(d0[k], d0[parent(int_of(pos))]));
                } else if parent(k) == par {
                    assert(below_parent(le, d0, k));
                    assert(le(d0[k], d0[int_of(par)]));
                } else {
                    assert(below_parent(le, d0, k));
                }
            }
            if par > 0 {
                assert forall|c: int| 0 < c < n && parent(c) == par implies le(d[c], d[parent(int_of(par))]) by {
                    assert(below_parent(le, d0, int_of(par)));
                    if c != pos {
                        assert(below_parent(le, d0, c));
                    }
                }
            }
        }
        pos = par;
    }
}

/// Moves the element at `pos` down within `data[.. heap_len]` until the
/// heap condition holds for every parent from `pos` on.
pub(crate) fn sift_down_by<E, G: Fn(&E, &E) -> bool>(
    data: &mut Vec<E>,
    pos: usize,
    heap_len: usize,
    le_fn: &G,
    Ghost(le): Ghost<spec_fn(E, E) -> bool>,
)
    requires
        pos < heap_len <= old(data).len(),
        computes(*le_fn, le),
        heap_from(le, old(data)@, int_of(pos), int_of(heap_len), int_of(pos)),
    ensures
        final(data).len() == old(data).len(),
        final(data)@.to_multiset() == old(data)@.to_multiset(),
        heap_from(le, final(data)@, int_of(pos), int_of(heap_len), -1),
        forall|k: int| 0 <= k < old(data).len() && !(pos <= k < heap_len) ==> final(data)@[k] == old(data)@[k],
        drawn_from(final(data)@, old(data)@, int_of(pos), int_of(heap_len)),
{
    let ghost start = int_of(pos);
    let n = heap_len;
    let mut p = pos;
    proof {
        lemma_drawn_refl(data@, start, int_of(n));
    }
    loop
        invariant
            0 <= start <= p < n <= data.len(),
            start == int_of(pos),
            data.len() == old(data).len(),
            computes(*le_fn, le),
            data@.to_multiset() == old(data)@.to_multiset(),
            heap_from(le, data@, start, int_of(n), int_of(p)),
            p > start ==> forall|c: int| 0 < c < n && parent(c) == p ==> le(data@[c], data@[parent(int_of(p))]),
            forall|k: int| 0 <= k < data.len() && !(start <= k < n) ==> data@[k] == old(data)@[k],
            drawn_from(data@, old(data)@, start, int_of(n)),
        ensures
            heap_from(le, data@, start, int_of(n), -1),
        decreases n - p,
    {
        let ghost d0 = data@;
        let child: usize;
        if n >= 3 && p < (n - 1) / 2 {
            let left = 2 * p + 1;
            let right_not_above = le_fn(&data[left + 1], &data[left]);
            child = if right_not_above { left } else { left + 1 };
            proof {
                assert(le(d0[int_of(left)], d0[int_of(left)]) || le(d0[int_of(left)], d0[int_of(left)]));
                assert(le(d0[int_of(left)], d0[int_of(child)]));
                assert(le(d0[int_of(left) + 1], d0[int_of(child)]));
            }
        } else if p < n / 2 {
            child = 2 * p + 1;
            proof {
                assert(2 * p + 2 >= n);
            }
        } else {
            proof {
                assert forall|k: int| 0 < k < n && parent(k) >= start implies #[trigger] below_parent(le, d0, k) by {
                    if parent(k) == p {
                        assert(2 * p + 1 >= n);
                    }
                }
            }
            break;
        }
        let settled = le_fn(&data[child], &data[p]);
        if settled {
            proof {
                assert forall|k: int| 0 < k < n && parent(k) >= start implies #[trigger] below_parent(le, d0, k) by {
                    if parent(k) == p {
                        assert(le(d0[k], d0[int_of(child)]));
                        assert(le(d0[int_of(child)], d0[int_of(p)]));
                    }
                }
            }
            break;
        }
        proof {
            lemma_swap_multiset(d0, int_of(p), int_of(child));
            lemma_swap_drawn(d0, old(data)@, start, int_of(n), int_of(p), int_of(child));
            assert(parent(int_of(child)) == int_of(p));
        }
        vec_swap(data, p, child);
        proof {
            let d = data@;
            assert(le(d0[int_of(p)], d0[int_of(child)]));
            assert forall|k: int| 0 < k < n && parent(k) >= start && parent(k) != child implies #[trigger] below_parent(le, d, k) by {
                if k == child {
                } else if parent(k) == p {
                    assert(le(d0[k], d0[int_of(child)]));
                } else if k == p {
                    assert(le(d0[int_of(child)], d0[parent(int_of(p))]));
                } else {
                    assert(below_parent(le, d0, k));
                }
            }
            assert forall|c: int| 0 < c < n && parent(c) == child implies le(d[c], d[parent(int_of(child))]) by {
                assert(below_parent(le, d0, c));
            }
        }
        p = child;
    }
}
} // verus!
