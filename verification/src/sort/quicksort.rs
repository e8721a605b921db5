//! Quicksort: in place, unstable, O(n log n) on average.
//!
//! Iterative, with an explicit stack of pending ranges, and Lomuto
//! partitioning around the last element of each range.
use vstd::prelude::*;
use vstd::std_specs::cmp::{OrdSpec, PartialOrdSpec};
use super::order::{
    int_of, ord_laws, lemma_ord_compare_implements, ord_of, sorted, le_by, lt_by, total_preorder,
    lemma_preorder_facts, lemma_swap_multiset, vec_swap, lemma_cmp_total, lemma_ord_laws_ops, drawn_from, found_in,
};

verus! {

broadcast use {vstd::seq_lib::group_to_multiset_ensures, vstd::multiset::group_multiset_axioms};

/// Position `p` lies in the range `r`.
pub open spec fn in_range(r: (usize, usize), p: int) -> bool {
    r.0 <= p < r.1
}

/// Positions `p` and `q` both lie in one pending range.
pub open spec fn together(stack: Seq<(usize, usize)>, p: int, q: int) -> bool {
    exists|k: int| 0 <= k < stack.len() && #[trigger] in_range(stack[k], p) && in_range(stack[k], q)
}

/// The pending ranges lie inside `0 .. len` and do not overlap.
pub open spec fn ranges_ok(stack: Seq<(usize, usize)>, len: int) -> bool {
    &&& forall|k: int| 0 <= k < stack.len() ==> #[trigger] stack[k].0 <= stack[k].1 <= len
    &&& forall|k1: int, k2: int|
        0 <= k1 < stack.len() && 0 <= k2 < stack.len() && k1 != k2 ==> #[trigger] stack[k1].1 <= #[trigger] stack[k2].0
            || stack[k2].1 <= stack[k1].0
}

/// Work left on the stack: each range counts twice its size, plus one.
pub open spec fn work(stack: Seq<(usize, usize)>) -> nat
    decreases stack.len(),
{
    if stack.len() == 0 {
        0
    } else {
        work(stack.drop_last()) + 2 * (stack.last().1 - stack.last().0) as nat + 1
    }
}

proof fn lemma_work_split(s: Seq<(usize, usize)>, lo: usize, i: usize, i1: usize, hi: usize)
    requires
        s.len() > 0,
        s.last() == (lo, hi),
        lo <= i < hi,
        i1 == i + 1,
    ensures
        work(s.drop_last().push((lo, i)).push((i1, hi))) < work(s),
{
    let s1 = s.drop_last().push((lo, i));
    let s2 = s1.push((i1, hi));
    assert(s2.drop_last() =~= s1);
    assert(s1.drop_last() =~= s.drop_last());
    assert(work(s2) == work(s1) + 2 * (hi - i1) + 1);
    assert(work(s1) == work(s.drop_last()) + 2 * (i - lo) + 1);
    assert(work(s) == work(s.drop_last()) + 2 * (hi - lo) + 1);
}

/// Quicksort by `Ord`.
pub fn quicksort<T: Ord>(arr: &mut Vec<T>)
    requires
        ord_laws::<T>(),
    ensures
        final(arr)@.len() == old(arr)@.len(),
        final(arr)@.to_multiset() == old(arr)@.to_multiset(),
        sorted(final(arr)@),
{
    proof {
        lemma_cmp_total::<T>();
    }
    let ghost ord = ord_of::<T>();
    let len = arr.len();
    let mut stack: Vec<(usize, usize)> = Vec::new();
    stack.push((0, len));
    assert forall|p: int, q: int| 0 <= p < q < len implies together(stack@, p, q) by {
        assert(in_range(stack@[0], p));
    }
    while stack.len() > 0
        invariant
            ord_laws::<T>(),
            ord == ord_of::<T>(),
            total_preorder(ord),
            arr.len() == len,
            arr@.to_multiset() == old(arr)@.to_multiset(),
            ranges_ok(stack@, int_of(len)),
            forall|p: int, q: int|
                0 <= p < q < len && !together(stack@, p, q) ==> #[trigger] le_by(ord, arr@[p], arr@[q]),
        decreases work(stack@),
    {
        let ghost s0 = stack@;
        let ghost a0 = arr@;
        let (lo, hi) = stack.pop().unwrap();
        assert(stack@ =~= s0.drop_last());
        if hi - lo <= 1 {
            assert forall|p: int, q: int|
                0 <= p < q < len && !together(stack@, p, q) implies #[trigger] le_by(ord, arr@[p], arr@[q]) by {
                if together(s0, p, q) {
                    let k = choose|k: int| 0 <= k < s0.len() && #[trigger] in_range(s0[k], p) && in_range(s0[k], q);
                    if k < stack@.len() {
                        assert(in_range(stack@[k], p));
                    }
                }
            }
            continue;
        }
        let i = partition(arr, lo, hi);
        let ghost a1 = arr@;
        stack.push((lo, i));
        let i1 = i + 1;
        stack.push((i1, hi));
        proof {
            let s1 = stack@;
            assert(s1.drop_last().drop_last() =~= s0.drop_last());
            assert(s1 =~= s0.drop_last().push((lo, i)).push((i1, hi)));
            lemma_work_split(s0, lo, i, i1, hi);
            assert forall|k1: int, k2: int|
                0 <= k1 < s1.len() && 0 <= k2 < s1.len() && k1 != k2 implies #[trigger] s1[k1].1 <= #[trigger] s1[k2].0
                    || s1[k2].1 <= s1[k1].0 by {
                if k1 < s0.len() - 1 && k2 < s0.len() - 1 {
                    assert(s1[k1] == s0[k1] && s1[k2] == s0[k2]);
                } else if k1 < s0.len() - 1 {
                    assert(s0[k1].1 <= s0[s0.len() - 1].0 || s0[s0.len() - 1].1 <= s0[k1].0);
                } else if k2 < s0.len() - 1 {
                    assert(s0[k2].1 <= s0[s0.len() - 1].0 || s0[s0.len() - 1].1 <= s0[k2].0);
                }
            }
            assert forall|p: int, q: int|
                0 <= p < q < len && !together(s1, p, q) implies #[trigger] le_by(ord, a1[p], a1[q]) by {
                let inp = lo <= p < hi;
                let inq = lo <= q < hi;
                if !inp && !inq {
                    if together(s0, p, q) {
                        let k = choose|k: int| 0 <= k < s0.len() && #[trigger] in_range(s0[k], p) && in_range(s0[k], q);
                        if k < s0.len() - 1 {
                            assert(in_range(s1[k], p));
                        }
                    }
                    assert(le_by(ord, a0[p], a0[q]));
                } else if inp && inq {
                    if p < i && q < i {
                        assert(in_range(s1[s1.len() - 2], p));
                    } else if p > i && q > i {
                        assert(in_range(s1[s1.len() - 1], p));
                    } else if p < i && q == i {
                        assert(lt_by(ord, a1[p], a1[q]));
                    } else if p == i {
                    } else {
                        assert(lt_by(ord, a1[p], a1[int_of(i)]));
                        assert(le_by(ord, a1[int_of(i)], a1[q]));
                    }
                } else {
                    // one inside the partitioned range, one outside: the pair was
                    // already in order, and partitioning only moved values within
                    if inp {
                        assert(found_in(a0, int_of(lo), int_of(hi), a1[p]));
                        let p0 = choose|p0: int| lo <= p0 < hi && a0[p0] == a1[p];
                        assert(a0[p0] == a1[p]);
                        if together(s0, p0, q) {
                            let k = choose|k: int| 0 <= k < s0.len() && #[trigger] in_range(s0[k], p0) && in_range(s0[k], q);
                            if k != s0.len() - 1 {
                                assert(s0[k].1 <= s0[s0.len() - 1].0 || s0[s0.len() - 1].1 <= s0[k].0);
                            }
                        }
                        assert(le_by(ord, a0[p0], a0[q]));
                    } else {
                        assert(found_in(a0, int_of(lo), int_of(hi), a1[q]));
                        let q0 = choose|q0: int| lo <= q0 < hi && a0[q0] == a1[q];
                        assert(a0[q0] == a1[q]);
                        if together(s0, p, q0) {
                            let k = choose|k: int| 0 <= k < s0.len() && #[trigger] in_range(s0[k], p) && in_range(s0[k], q0);
                            if k != s0.len() - 1 {
                                assert(s0[k].1 <= s0[s0.len() - 1].0 || s0[s0.len() - 1].1 <= s0[k].0);
                            }
                        }
                        assert(le_by(ord, a0[p], a0[q0]));
                    }
                }
            }
        }
    }
    proof {
        assert forall|i: int, j: int| 0 <= i < j < arr@.len() implies #[trigger] super::order::le(arr@[i], arr@[j]) by {
            assert(le_by(ord, arr@[i], arr@[j]));
        }
    }
}

/// Lomuto partition of `arr[lo .. hi]` around its last element; returns the
/// pivot's final position.
fn partition<T: Ord>(arr: &mut Vec<T>, lo: usize, hi: usize) -> (i: usize)
    requires
        lo < hi <= old(arr).len(),
        ord_laws::<T>(),
        total_preorder(ord_of::<T>()),
    ensures
        lo <= i < hi,
        final(arr).len() == old(arr).len(),
        final(arr)@.to_multiset() == old(arr)@.to_multiset(),
        forall|p: int| 0 <= p < old(arr).len() && !(lo <= p < hi) ==> final(arr)@[p] == old(arr)@[p],
        drawn_from(final(arr)@, old(arr)@, int_of(lo), int_of(hi)),
        forall|p: int| lo <= p < i ==> #[trigger] lt_by(ord_of::<T>(), final(arr)@[p], final(arr)@[int_of(i)]),
        forall|q: int| i < q < hi ==> #[trigger] le_by(ord_of::<T>(), final(arr)@[int_of(i)], final(arr)@[q]),
{
    let ghost ord = ord_of::<T>();
    proof {
        lemma_ord_compare_implements::<T>();
        reveal(vstd::laws_cmp::obeys_cmp_ord);
    }
    let pivot = hi - 1;
    let mut i = lo;
    let mut j = lo;
    proof {
        lemma_ord_laws_ops::<T>();
        assert forall|q: int| lo <= q < hi implies #[trigger] found_in(old(arr)@, int_of(lo), int_of(hi), arr@[q]) by {
            assert(old(arr)@[q] == arr@[q]);
        }
    }
    while j < pivot
        invariant
            lo <= i <= j <= pivot < hi <= arr.len(),
            arr.len() == old(arr).len(),
            ord_laws::<T>(),
            ord == ord_of::<T>(),
            total_preorder(ord),
            arr@.to_multiset() == old(arr)@.to_multiset(),
            arr@[int_of(pivot)] == old(arr)@[int_of(pivot)],
            forall|p: int| 0 <= p < old(arr).len() && !(lo <= p < hi) ==> arr@[p] == old(arr)@[p],
            drawn_from(arr@, old(arr)@, int_of(lo), int_of(hi)),
            forall|p: int| lo <= p < i ==> #[trigger] lt_by(ord, arr@[p], arr@[int_of(pivot)]),
            forall|q: int| i <= q < j ==> #[trigger] le_by(ord, arr@[int_of(pivot)], arr@[q]),
        decreases pivot - j,
    {
        let smaller = arr[j] < arr[pivot];
        proof {
            lemma_ord_laws_ops::<T>();
            assert(arr@[int_of(j)].partial_cmp_spec(&arr@[int_of(pivot)]) == Some(arr@[int_of(j)].cmp_spec(&arr@[int_of(pivot)])));
            lemma_preorder_facts(ord, arr@[int_of(j)], arr@[int_of(pivot)]);
            assert(smaller <==> lt_by(ord, arr@[int_of(j)], arr@[int_of(pivot)]));
        }
        if smaller {
            let ghost a0 = arr@;
            proof {
                lemma_swap_multiset(arr@, int_of(i), int_of(j));
            }
            vec_swap(arr, i, j);
            proof {
                assert forall|q: int| lo <= q < hi implies #[trigger] found_in(old(arr)@, int_of(lo), int_of(hi), arr@[q]) by {
                    if q == i {
                        assert(a0[int_of(j)] == arr@[q]);
                    } else if q == j {
                        assert(a0[int_of(i)] == arr@[q]);
                    } else {
                        assert(a0[q] == arr@[q]);
                    }
                }
            }
            proof {
                if i < j {
                    assert(le_by(ord, arr@[int_of(pivot)], a0[int_of(i)]));
                    assert(arr@[int_of(j)] == a0[int_of(i)]);
                }
                assert forall|q: int| i + 1 <= q < j + 1 implies #[trigger] le_by(ord, arr@[int_of(pivot)], arr@[q]) by {
                    if q < j {
                        assert(arr@[q] == a0[q]);
                    }
                }
            }
            i = i + 1;
        }
        j = j + 1;
    }
    let ghost a0 = arr@;
    proof {
        lemma_swap_multiset(arr@, int_of(i), int_of(pivot));
    }
    vec_swap(arr, i, pivot);
    proof {
        assert forall|q: int| lo <= q < hi implies #[trigger] found_in(old(arr)@, int_of(lo), int_of(hi), arr@[q]) by {
            if q == i {
                assert(a0[int_of(pivot)] == arr@[q]);
            } else if q == pivot {
                assert(a0[int_of(i)] == arr@[q]);
            } else {
                assert(a0[q] == arr@[q]);
            }
        }
        assert forall|q: int| i < q < hi implies #[trigger] le_by(ord, arr@[int_of(i)], arr@[q]) by {
            if q == pivot {
                lemma_preorder_facts(ord, a0[int_of(pivot)], a0[int_of(i)]);
                if i < pivot {
                    assert(le_by(ord, a0[int_of(pivot)], a0[int_of(i)]));
                }
            }
        }
    }
    i
}

} // verus!
