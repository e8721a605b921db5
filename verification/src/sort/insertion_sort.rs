//! Insertion sort: stable, quadratic, in place.
//!
//! Walk left to right; shift each element left past every element that
//! compares greater, so that the prefix seen so far is always sorted.
use vstd::prelude::*;
use core::cmp::Ordering;
use super::order::{int_of, ord_laws, lemma_ord_compare_implements, ord_compare, ord_of, lemma_sorted_by_ord, sorted, lawful_cmp, outcome_fn, sorted_by, implements, total_preorder, le_by, lemma_preorder_facts, lemma_swap_multiset, vec_swap, keeps_ties, tied_with, lemma_swap_keeps_ties};

verus! {

/// Insertion sort by `Ord`; stable: values that compare `Equal` keep
/// their order.
pub fn insertion_sort<T: Ord>(arr: &mut Vec<T>)
    requires
        ord_laws::<T>(),
    ensures
        final(arr)@.len() == old(arr)@.len(),
        final(arr)@.to_multiset() == old(arr)@.to_multiset(),
        sorted(final(arr)@),
        keeps_ties(ord_of::<T>(), old(arr)@, final(arr)@),
{
    proof {
        lemma_ord_compare_implements::<T>();
    }
    insertion_sort_with(arr, &ord_compare, Ghost(ord_of::<T>()));
    proof {
        lemma_sorted_by_ord(arr@);
    }
}

/// Insertion sort with a caller-supplied comparator.
pub fn insertion_sort_by<T, F: Fn(&T, &T) -> Ordering>(arr: &mut Vec<T>, cmp: F)
    requires
        lawful_cmp(cmp),
    ensures
        final(arr)@.len() == old(arr)@.len(),
        final(arr)@.to_multiset() == old(arr)@.to_multiset(),
        sorted_by(outcome_fn(cmp), final(arr)@),
        keeps_ties(outcome_fn(cmp), old(arr)@, final(arr)@),
{
    insertion_sort_with(arr, &cmp, Ghost(outcome_fn(cmp)));
}

/// The sort itself, against a comparator that implements `ord`.
pub(crate) fn insertion_sort_with<T, F: Fn(&T, &T) -> Ordering>(
    arr: &mut Vec<T>,
    compare: &F,
    Ghost(ord): Ghost<spec_fn(T, T) -> Ordering>,
)
    requires
        implements(*compare, ord),
        total_preorder(ord),
    ensures
        final(arr)@.len() == old(arr)@.len(),
        final(arr)@.to_multiset() == old(arr)@.to_multiset(),
        sorted_by(ord, final(arr)@),
        keeps_ties(ord, old(arr)@, final(arr)@),
{
    let n = arr.len();
    if n <= 1 {
        return;
    }
    let mut i: usize = 1;
    while i < n
        invariant
            1 <= i <= n,
            n == arr.len(),
            implements(*compare, ord),
            total_preorder(ord),
            arr@.to_multiset() == old(arr)@.to_multiset(),
            keeps_ties(ord, old(arr)@, arr@),
            forall|a: int, b: int| 0 <= a < b < i ==> #[trigger] le_by(ord, arr@[a], arr@[b]),
        decreases n - i,
    {
        let mut j: usize = i;
        loop
            invariant_except_break
                0 <= j <= i < n,
            invariant
                n == arr.len(),
                j <= i < n,
                implements(*compare, ord),
                total_preorder(ord),
                arr@.to_multiset() == old(arr)@.to_multiset(),
                keeps_ties(ord, old(arr)@, arr@),
                forall|a: int, b: int| 0 <= a < b < j ==> #[trigger] le_by(ord, arr@[a], arr@[b]),
                forall|a: int, b: int| j < a < b <= i ==> #[trigger] le_by(ord, arr@[a], arr@[b]),
                forall|a: int, b: int| 0 <= a < j && j < b <= i ==> #[trigger] le_by(ord, arr@[a], arr@[b]),
                forall|b: int| j < b <= i ==> #[trigger] le_by(ord, arr@[int_of(j)], arr@[b]),
            ensures
                j <= i < n,
                j > 0 ==> le_by(ord, arr@[j - 1], arr@[int_of(j)]),
            decreases j,
        {
            if j == 0 {
                break;
            }
            let c = compare(&arr[j - 1], &arr[j]);
            if !matches!(c, Ordering::Greater) {
                break;
            }
            proof {
                lemma_preorder_facts(ord, arr@[j - 1], arr@[int_of(j)]);
                lemma_swap_multiset(arr@, j - 1, int_of(j));
                let s0 = arr@;
                assert forall|p: T| #[trigger] tied_with(ord, s0.update(j - 1, s0[int_of(j)]).update(int_of(j), s0[j - 1]), p) == tied_with(ord, old(arr)@, p) by {
                    lemma_swap_keeps_ties(ord, s0, j - 1, p);
                }
            }
            vec_swap(arr, j - 1, j);
            j = j - 1;
        }
        proof {
            assert forall|a: int, b: int| 0 <= a < b < i + 1 implies #[trigger] le_by(ord, arr@[a], arr@[b]) by {
                if b == j && a < j - 1 {
                    assert(le_by(ord, arr@[a], arr@[j - 1]));
                    assert(le_by(ord, arr@[j - 1], arr@[int_of(j)]));
                }
            }
        }
        i = i + 1;
    }
}

} // verus!
