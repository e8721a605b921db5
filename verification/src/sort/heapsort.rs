//! Heapsort: in place, unstable, O(n log n) in the worst case.
//!
//! Build a max-heap over the data, then repeatedly move the root to the end
//! of the shrinking heap.  Uses the shared `Heap`.
use vstd::prelude::*;
use core::cmp::Ordering;
use super::heap::Heap;
use super::order::{
    ord_laws, lemma_ord_compare_implements, ord_compare, ord_of, sorted, lawful_cmp, outcome_fn,
    sorted_by, le_of, lemma_implements_agrees, le_by,
};

verus! {

/// Heapsort by `Ord`.
pub fn heapsort<T: Ord + Clone>(arr: &mut Vec<T>)
    requires
        ord_laws::<T>(),
    ensures
        final(arr)@.len() == old(arr)@.len(),
        final(arr)@.to_multiset() == old(arr)@.to_multiset(),
        sorted(final(arr)@),
{
    proof {
        lemma_ord_compare_implements::<T>();
        lemma_implements_agrees(ord_compare::<T>, ord_of::<T>());
    }
    let mut data = Vec::new();
    std::mem::swap(arr, &mut data);
    let heap = Heap::from_vec_with(data, ord_compare, Ghost(le_of(ord_of::<T>())));
    *arr = heap.into_sorted_vec();
    proof {
        vstd::seq_lib::to_multiset_len(arr@);
        vstd::seq_lib::to_multiset_len(old(arr)@);
        assert forall|i: int, j: int| 0 <= i < j < arr@.len() implies #[trigger] super::order::le(arr@[i], arr@[j]) by {
            assert((le_of(ord_of::<T>()))(arr@[i], arr@[j]));
        }
    }
}

/// Heapsort with a caller-supplied comparator.
pub fn heapsort_by<T: Clone, F: Fn(&T, &T) -> Ordering>(arr: &mut Vec<T>, cmp: F)
    requires
        lawful_cmp(cmp),
    ensures
        final(arr)@.len() == old(arr)@.len(),
        final(arr)@.to_multiset() == old(arr)@.to_multiset(),
        sorted_by(outcome_fn(cmp), final(arr)@),
{
    let mut data = Vec::new();
    std::mem::swap(arr, &mut data);
    let heap = Heap::from_vec(data, cmp);
    *arr = heap.into_sorted_vec();
    proof {
        vstd::seq_lib::to_multiset_len(arr@);
        vstd::seq_lib::to_multiset_len(old(arr)@);
        assert forall|i: int, j: int| 0 <= i < j < arr@.len() implies #[trigger] le_by(outcome_fn(cmp), arr@[i], arr@[j]) by {
            assert((le_of(outcome_fn(cmp)))(arr@[i], arr@[j]));
        }
    }
}

} // verus!
