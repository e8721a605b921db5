//! Memory-bounded sort with spilling, and bounded top-K.
//!
//! Phase 1 fills a buffer of at most `max_memory_items` items; each full
//! buffer is sorted and set aside as a run.  Phase 2 merges the runs with
//! the k-way `MergeIterator`.  Runs stay in memory here: the point is the
//! algorithm, not the disk.
use vstd::prelude::*;
use vstd::multiset::Multiset;
use core::marker::PhantomData;
use super::heap::Heap;
use super::k_way_merge::{MergeIterator, total, all_sorted};
use super::quicksort::quicksort;
use super::order::{
    int_of, nat_int, ord_laws, le, sorted, ord_compare, ord_of, le_of, le_by, lemma_ord_compare_implements,
    lemma_implements_agrees,
};

verus! {

broadcast use {vstd::seq_lib::group_to_multiset_ensures, vstd::multiset::group_multiset_axioms};

/// Sorts with at most `max_memory_items` items in the in-memory buffer.
pub struct ExternalSorter<T> {
    max_memory_items: usize,
    _phantom: PhantomData<T>,
}

/// What a sort did.
#[derive(Debug, PartialEq, Eq, Structural)]
pub struct SortStats {
    pub total_items: usize,
    /// 1 = entirely in memory, more = spilled.
    pub num_runs: usize,
    pub spilled: bool,
}

/// Number of runs that `n` items make in buffers of `m`: ⌈n / m⌉.
pub open spec fn runs_for(n: int, m: int) -> int {
    n / m + if n % m == 0 { 0int } else { 1int }
}

/// The smaller of `n` and `k`.
pub open spec fn at_most(n: int, k: int) -> int {
    if n < k { n } else { k }
}

/// The views of the runs.
spec fn views<T>(runs: Seq<Vec<T>>) -> Seq<Seq<T>> {
    runs.map_values(|v: Vec<T>| v@)
}

proof fn lemma_total_push<T>(ss: Seq<Seq<T>>, x: Seq<T>)
    ensures
        total(ss.push(x)) == total(ss).add(x.to_multiset()),
{
    assert(ss.push(x).drop_last() =~= ss);
}

impl<T: Ord> ExternalSorter<T> {
    /// The buffer capacity.
    pub closed spec fn capacity(&self) -> nat {
        self.max_memory_items as nat
    }

    /// A sorter whose buffer holds `max_memory_items` items.  O(1).
    pub fn new(max_memory_items: usize) -> (s: Self)
        requires
            max_memory_items > 0,
        ensures
            s.capacity() == max_memory_items,
    {
        ExternalSorter { max_memory_items, _phantom: PhantomData }
    }

    /// Sorts `input`; returns the sorted items and what the sort did.
    /// Every full buffer becomes a sorted run, a last partial buffer one
    /// more; the runs are then merged.
    pub fn sort(&self, input: Vec<T>) -> (res: (Vec<T>, SortStats))
        requires
            ord_laws::<T>(),
            self.capacity() > 0,
        ensures
            res.0@.to_multiset() == input@.to_multiset(),
            sorted(res.0@),
            res.1.total_items == input@.len(),
            res.1.num_runs == runs_for(nat_int(input@.len()), nat_int(self.capacity())),
            res.1.spilled == (res.1.num_runs > 1),
    {
        let m = self.max_memory_items;
        let ghost items = input@;
        let mut pending: Vec<T> = Vec::new();
        let mut input = input;
        while input.len() > 0
            invariant
                input@ + pending@.reverse() == items,
            decreases input.len(),
        {
            let x = input.pop().unwrap();
            proof {
                assert(input@.push(x) + pending@.reverse() =~= input@ + pending@.push(x).reverse());
            }
            pending.push(x);
        }
        assert(pending@.reverse() =~= items);
        let plen = pending.len();
        assert(items.len() == plen);
        let mut runs: Vec<Vec<T>> = Vec::new();
        let mut buffer: Vec<T> = Vec::new();
        let mut total_items: usize = 0;
        while pending.len() > 0
            invariant
                ord_laws::<T>(),
                m > 0,
                items.len() <= usize::MAX,
                total_items + pending@.len() == items.len(),
                items.take(int_of(total_items)) + pending@.reverse() == items,
                total(views(runs@)).add(buffer@.to_multiset()) == items.take(int_of(total_items)).to_multiset(),
                all_sorted(views(runs@)),
                forall|r: int| 0 <= r < runs@.len() ==> #[trigger] runs@[r]@.len() > 0,
                runs@.len() * m + buffer@.len() == total_items,
                buffer@.len() < m,
            decreases pending.len(),
        {
            let ghost t0 = items.take(int_of(total_items));
            let x = pending.pop().unwrap();
            proof {
                assert(items[int_of(total_items)] == x) by {
                    assert((t0 + pending@.push(x).reverse())[int_of(total_items)] == x);
                }
                assert(items.take(int_of(total_items) + 1) =~= t0.push(x));
                assert(items.take(int_of(total_items) + 1) + pending@.reverse() =~= items) by {
                    assert(t0 + pending@.push(x).reverse() =~= t0.push(x) + pending@.reverse());
                }
            }
            buffer.push(x);
            total_items = total_items + 1;
            if buffer.len() >= m {
                let ghost r0 = runs@;
                quicksort(&mut buffer);
                let mut full: Vec<T> = Vec::new();
                std::mem::swap(&mut full, &mut buffer);
                runs.push(full);
                proof {
                    assert(views(runs@) =~= views(r0).push(full@));
                    lemma_total_push(views(r0), full@);
                    assert(r0.len() * m + m == (r0.len() + 1) * m) by (nonlinear_arith);
                }
            }
        }
        let ghost n = items.len();
        assert(items.take(int_of(total_items)) =~= items);
        if buffer.len() > 0 {
            let ghost r0 = runs@;
            quicksort(&mut buffer);
            runs.push(buffer);
            proof {
                assert(views(runs@) =~= views(r0).push(buffer@));
                lemma_total_push(views(r0), buffer@);
                vstd::arithmetic::div_mod::lemma_fundamental_div_mod_converse(nat_int(n), int_of(m), nat_int(r0.len()), nat_int(buffer@.len()));
            }
        } else {
            proof {
                vstd::arithmetic::div_mod::lemma_fundamental_div_mod_converse(nat_int(n), int_of(m), nat_int(runs@.len()), 0);
                assert(buffer@.to_multiset() =~= Multiset::empty());
                assert(total(views(runs@)).add(Multiset::empty()) =~= total(views(runs@)));
            }
        }
        let num_runs = runs.len();
        let spilled = num_runs > 1;
        if num_runs == 0 {
            proof {
                assert(items.len() == 0);
                assert(items =~= Seq::<T>::empty());
            }
            return (Vec::new(), SortStats { total_items: 0, num_runs: 0, spilled: false });
        }
        let ghost vs = views(runs@);
        let merge = MergeIterator::new(runs);
        let result = merge.into_vec();
        (result, SortStats { total_items, num_runs, spilled })
    }
}

/// The `k` smallest items of `input`, ascending.  A max-heap of at most
/// `k` items holds the best seen so far; an item smaller than its root
/// replaces the root.  O(n log k) time, O(k) space.
pub fn top_k<T: Ord>(input: Vec<T>, k: usize) -> (r: Vec<T>)
    requires
        ord_laws::<T>(),
    ensures
        sorted(r@),
        r@.len() == at_most(nat_int(input@.len()), int_of(k)),
        exists|rest: Multiset<T>| {
            &&& #[trigger] r@.to_multiset().add(rest) == input@.to_multiset()
            &&& forall|x: T, y: T| rest.contains(x) && r@.to_multiset().contains(y) ==> le(y, x)
        },
{
    proof {
        lemma_ord_compare_implements::<T>();
        lemma_implements_agrees(ord_compare::<T>, ord_of::<T>());
        super::order::lemma_ord_laws_ops::<T>();
    }
    let ghost lef = le_of(ord_of::<T>());
    let ghost items = input@;
    let mut heap = Heap::from_vec_with(Vec::new(), ord_compare, Ghost(lef));
    let mut input = input;
    let mut pending: Vec<T> = Vec::new();
    while input.len() > 0
        invariant
            input@ + pending@.reverse() == items,
        decreases input.len(),
    {
        let x = input.pop().unwrap();
        proof {
            assert(input@.push(x) + pending@.reverse() =~= input@ + pending@.push(x).reverse());
        }
        pending.push(x);
    }
    assert(pending@.reverse() =~= items);
    let plen = pending.len();
    assert(items.len() == plen);
    let ghost mut rest: Multiset<T> = Multiset::empty();
    let mut seen: usize = 0;
    assert(heap@ =~= Multiset::<T>::empty());
    while pending.len() > 0
        invariant
            ord_laws::<T>(),
            heap.is_heap(),
            heap.le() == lef,
            lef == le_of(ord_of::<T>()),
            items.len() <= usize::MAX,
            seen + pending@.len() == items.len(),
            items.take(int_of(seen)) + pending@.reverse() == items,
            heap@.add(rest) == items.take(int_of(seen)).to_multiset(),
            heap@.len() == at_most(int_of(seen), int_of(k)),
            forall|x: T, y: T| rest.contains(x) && heap@.contains(y) ==> le(y, x),
        decreases pending.len(),
    {
        let ghost t0 = items.take(int_of(seen));
        let x = pending.pop().unwrap();
        proof {
            assert(items[int_of(seen)] == x) by {
                assert((t0 + pending@.push(x).reverse())[int_of(seen)] == x);
            }
            assert(items.take(int_of(seen) + 1) =~= t0.push(x));
            assert(items.take(int_of(seen) + 1) + pending@.reverse() =~= items) by {
                assert(t0 + pending@.push(x).reverse() =~= t0.push(x) + pending@.reverse());
            }
        }
        let ghost h0 = heap@;
        proof {
            super::order::lemma_ord_laws_ops::<T>();
        }
        if heap.len() < k {
            heap.push(x);
            proof {
                vstd::seq_lib::to_multiset_len(t0);
                assert(rest.len() == 0);
                assert(heap@.add(rest) =~= h0.add(rest).insert(x));
                assert forall|a: T, b: T| rest.contains(a) && heap@.contains(b) implies le(b, a) by {
                    assert(rest.count(a) == 0);
                }
            }
        } else if k > 0 {
            let top = heap.pop().unwrap();
            let ghost h1 = heap@;
            let smaller = x < top;
            if smaller {
                heap.push(x);
                proof {
                    assert(super::order::lt_by(ord_of::<T>(), x, top));
                    assert(le_by(ord_of::<T>(), x, top));
                    assert(heap@.add(rest.insert(top)) =~= h0.add(rest).insert(x));
                    assert(le(x, top));
                    assert(h0.contains(top));
                    assert forall|a: T, b: T| rest.insert(top).contains(a) && heap@.contains(b) implies le(b, a) by {
                        lemma_le_trans::<T>();
                        if b == x {
                            if a != top {
                                assert(rest.contains(a));
                                assert(le(top, a));
                                assert(le(x, top) && le(top, a));
                            }
                        } else {
                            assert(h1.contains(b));
                            assert(h0.contains(b));
                            if a == top {
                                assert(lef(b, top));
                            } else {
                                assert(rest.contains(a));
                            }
                        }
                    }
                }
                proof {
                    rest = rest.insert(top);
                }
            } else {
                heap.push(top);
                proof {
                    assert(heap@ =~= h0);
                    assert(heap@.add(rest.insert(x)) =~= h0.add(rest).insert(x));
                    assert forall|a: T, b: T| rest.insert(x).contains(a) && heap@.contains(b) implies le(b, a) by {
                        lemma_le_trans::<T>();
                        if a == x && !rest.contains(a) {
                            assert(lef(b, top));
                            super::order::lemma_cmp_total::<T>();
                            super::order::lemma_ord_laws_ops::<T>();
                            super::order::lemma_preorder_facts(ord_of::<T>(), top, x);
                        }
                    }
                }
                proof {
                    rest = rest.insert(x);
                }
            }
        } else {
            proof {
                assert(h0.len() == 0);
                assert(heap@.add(rest.insert(x)) =~= h0.add(rest).insert(x));
                rest = rest.insert(x);
            }
        }
        seen = seen + 1;
    }
    assert(items.take(int_of(seen)) =~= items);
    let r = heap.into_sorted_vec();
    proof {
        vstd::seq_lib::to_multiset_len(r@);
        assert forall|i: int, j: int| 0 <= i < j < r@.len() implies #[trigger] le(r@[i], r@[j]) by {
            assert(lef(r@[i], r@[j]));
        }
        assert(r@.to_multiset().add(rest) == items.to_multiset());
    }
    r
}

/// `le` is transitive for a lawful `Ord`.
proof fn lemma_le_trans<T: Ord>()
    requires
        ord_laws::<T>(),
    ensures
        forall|a: T, b: T, c: T| #[trigger] le(a, b) && #[trigger] le(b, c) ==> le(a, c),
{
    super::order::lemma_cmp_total::<T>();
    let ord = ord_of::<T>();
    assert forall|a: T, b: T, c: T| #[trigger] le(a, b) && #[trigger] le(b, c) implies le(a, c) by {
        assert(le_by(ord, a, b) && le_by(ord, b, c));
    }
}

} // verus!
