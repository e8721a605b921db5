//! Merge sort: stable, O(n log n), O(n) extra space.
//!
//! Bottom-up: runs of width 1, 2, 4, ... are merged pairwise from one buffer
//! into the other until a single run covers the whole vector.  On ties the
//! element of the left run is taken first.
use vstd::prelude::*;
use core::cmp::Ordering;
use super::order::{
    int_of, nat_int, ord_laws, lemma_ord_compare_implements, ord_compare, ord_of, lemma_sorted_by_ord, sorted,
    lawful_cmp, outcome_fn, sorted_by, implements, total_preorder, le_by, lemma_preorder_facts,
    clone_faithful, sorted_range, keeps_ties, tied_with, lemma_filter_single, lt_by,
};

verus! {

broadcast use {vstd::seq_lib::group_to_multiset_ensures, vstd::multiset::group_multiset_axioms};

/// Merge sort by `Ord`; stable: values that compare `Equal` keep their order.
pub fn merge_sort<T: Ord + Clone>(arr: &mut Vec<T>)
    requires
        ord_laws::<T>(),
        clone_faithful::<T>(),
    ensures
        final(arr)@.len() == old(arr)@.len(),
        final(arr)@.to_multiset() == old(arr)@.to_multiset(),
        sorted(final(arr)@),
        keeps_ties(ord_of::<T>(), old(arr)@, final(arr)@),
{
    proof {
        lemma_ord_compare_implements::<T>();
    }
    merge_sort_with(arr, &ord_compare, Ghost(ord_of::<T>()));
    proof {
        lemma_sorted_by_ord(arr@);
    }
}

/// Merge sort with a caller-supplied comparator.
pub fn merge_sort_by<T: Clone, F: Fn(&T, &T) -> Ordering>(arr: &mut Vec<T>, cmp: F)
    requires
        lawful_cmp(cmp),
        clone_faithful::<T>(),
    ensures
        final(arr)@.len() == old(arr)@.len(),
        final(arr)@.to_multiset() == old(arr)@.to_multiset(),
        sorted_by(outcome_fn(cmp), final(arr)@),
        keeps_ties(outcome_fn(cmp), old(arr)@, final(arr)@),
{
    merge_sort_with(arr, &cmp, Ghost(outcome_fn(cmp)));
}

/// Positions `a` and `b` lie in the same run of width `w`.
pub open spec fn same_run(a: int, b: int, w: int) -> bool {
    a / w == b / w
}

/// Every run of width `w` is in order.
pub open spec fn runs_sorted<T>(ord: spec_fn(T, T) -> Ordering, s: Seq<T>, w: int) -> bool {
    forall|a: int, b: int|
        0 <= a < b < s.len() && #[trigger] same_run(a, b, w) ==> #[trigger] le_by(ord, s[a], s[b])
}

proof fn lemma_run_of(a: int, t: int, w: int)
    by (nonlinear_arith)
    requires
        w > 0,
        t * w <= a < t * w + w,
    ensures
        a / w == t,
{
}

proof fn lemma_run_before(a: int, t: int, w: int)
    by (nonlinear_arith)
    requires
        w > 0,
        0 <= a < t * w,
    ensures
        a / w < t,
{
}

/// The sort itself, against a comparator that implements `ord`.
pub(crate) fn merge_sort_with<T: Clone, F: Fn(&T, &T) -> Ordering>(
    arr: &mut Vec<T>,
    compare: &F,
    Ghost(ord): Ghost<spec_fn(T, T) -> Ordering>,
)
    requires
        implements(*compare, ord),
        total_preorder(ord),
        clone_faithful::<T>(),
    ensures
        final(arr)@.len() == old(arr)@.len(),
        final(arr)@.to_multiset() == old(arr)@.to_multiset(),
        sorted_by(ord, final(arr)@),
        keeps_ties(ord, old(arr)@, final(arr)@),
{
    let len = arr.len();
    if len <= 1 {
        return;
    }
    let mut buf = arr.clone();
    assert(buf@ =~= arr@);
    let mut width: usize = 1;
    assert(keeps_ties(ord, old(arr)@, arr@));
    assert forall|a: int, b: int| 0 <= a < b < len && #[trigger] same_run(a, b, 1) implies #[trigger] le_by(
        ord,
        arr@[a],
        arr@[b],
    ) by {}
    while width < len
        invariant
            2 <= len,
            1 <= width,
            arr.len() == len,
            buf.len() == len,
            implements(*compare, ord),
            total_preorder(ord),
            clone_faithful::<T>(),
            arr@.to_multiset() == old(arr)@.to_multiset(),
            runs_sorted(ord, arr@, int_of(width)),
            keeps_ties(ord, old(arr)@, arr@),
        decreases len - width,
    {
        let ghost w2: int = int_of(width) * 2;
        let mut lo: usize = 0;
        proof {
            assert(0 * w2 == 0);
            assert(buf@.subrange(0, 0) =~= Seq::<T>::empty());
            assert(arr@.subrange(0, 0) =~= Seq::<T>::empty());
        }
        loop
            invariant
                arr.len() == len,
                buf.len() == len,
                1 <= width < len,
                w2 == int_of(width) * 2,
                lo < len,
                exists|t: int| t >= 0 && #[trigger] (t * w2) == lo,
                implements(*compare, ord),
                total_preorder(ord),
                clone_faithful::<T>(),
                runs_sorted(ord, arr@, int_of(width)),
                buf@.subrange(0, int_of(lo)).to_multiset() == arr@.subrange(0, int_of(lo)).to_multiset(),
                keeps_ties(ord, arr@.subrange(0, int_of(lo)), buf@.subrange(0, int_of(lo))),
                keeps_ties(ord, old(arr)@, arr@),
                forall|a: int, b: int|
                    0 <= a < b < lo && #[trigger] same_run(a, b, w2) ==> #[trigger] le_by(ord, buf@[a], buf@[b]),
            ensures
                arr.len() == len,
                buf.len() == len,
                buf@.to_multiset() == arr@.to_multiset(),
                keeps_ties(ord, arr@, buf@),
                keeps_ties(ord, old(arr)@, arr@),
                runs_sorted(ord, buf@, w2),
            decreases len - lo,
        {
            let rem = len - lo;
            let mid = if width < rem { lo + width } else { len };
            let hi = if width < rem && width < rem - width { lo + width + width } else { len };
            let ghost t = choose|t: int| t >= 0 && #[trigger] (t * w2) == lo;
            proof {
                assert(t * w2 + w2 == (t + 1) * w2) by (nonlinear_arith);
                assert(t * w2 == (2 * t) * int_of(width)) by (nonlinear_arith)
                    requires w2 == int_of(width) * 2;
                assert forall|a: int, b: int| lo <= a < b < mid implies #[trigger] le_by(ord, arr@[a], arr@[b]) by {
                    lemma_run_of(a, 2 * t, int_of(width));
                    lemma_run_of(b, 2 * t, int_of(width));
                    assert(same_run(a, b, int_of(width)));
                }
                assert forall|a: int, b: int| mid <= a < b < hi implies #[trigger] le_by(ord, arr@[a], arr@[b]) by {
                    assert((2 * t + 1) * int_of(width) == 2 * t * int_of(width) + int_of(width)) by (nonlinear_arith);
                    lemma_run_of(a, 2 * t + 1, int_of(width));
                    lemma_run_of(b, 2 * t + 1, int_of(width));
                    assert(same_run(a, b, int_of(width)));
                }
            }
            let ghost old_buf = buf@;
            merge_runs(&arr, &mut buf, lo, mid, hi, compare, Ghost(ord));
            proof {
                let s = buf@;
                let s0 = arr@;
                assert(s.subrange(0, int_of(hi)) =~= s.subrange(0, int_of(lo)) + s.subrange(int_of(lo), int_of(hi)));
                assert(s0.subrange(0, int_of(hi)) =~= s0.subrange(0, int_of(lo)) + s0.subrange(int_of(lo), int_of(hi)));
                assert(s.subrange(0, int_of(lo)) =~= old_buf.subrange(0, int_of(lo)));
                vstd::seq_lib::lemma_multiset_commutative(s.subrange(0, int_of(lo)), s.subrange(int_of(lo), int_of(hi)));
                vstd::seq_lib::lemma_multiset_commutative(s0.subrange(0, int_of(lo)), s0.subrange(int_of(lo), int_of(hi)));
                assert forall|p: T| #[trigger] tied_with(ord, s.subrange(0, int_of(hi)), p) == tied_with(ord, s0.subrange(0, int_of(hi)), p) by {
                    let pred = |z: T| ord(z, p) == Ordering::Equal;
                    Seq::filter_distributes_over_add(s.subrange(0, int_of(lo)), s.subrange(int_of(lo), int_of(hi)), pred);
                    Seq::filter_distributes_over_add(s0.subrange(0, int_of(lo)), s0.subrange(int_of(lo), int_of(hi)), pred);
                    assert(tied_with(ord, s.subrange(0, int_of(lo)), p) == tied_with(ord, s0.subrange(0, int_of(lo)), p));
                    assert(tied_with(ord, s.subrange(int_of(lo), int_of(hi)), p) == tied_with(ord, s0.subrange(int_of(lo), int_of(hi)), p));
                }
                assert forall|a: int, b: int|
                    0 <= a < b < hi && #[trigger] same_run(a, b, w2) implies #[trigger] le_by(ord, s[a], s[b]) by {
                    if a < lo {
                        if b >= lo {
                            lemma_run_before(a, t, w2);
                            lemma_run_of(b, t, w2);
                        }
                        assert(s[a] == old_buf[a]);
                        assert(s[b] == old_buf[b]);
                    }
                }
            }
            if hi >= len {
                proof {
                    assert(buf@.subrange(0, int_of(len)) =~= buf@);
                    assert(arr@.subrange(0, int_of(len)) =~= arr@);
                }
                break;
            }
            proof {
                assert((t + 1) * w2 == hi) by (nonlinear_arith)
                    requires t * w2 + w2 == (t + 1) * w2, hi == lo + w2, lo == t * w2;
            }
            lo = hi;
        }
        std::mem::swap(arr, &mut buf);
        proof {
            if w2 >= len {
                assert forall|a: int, b: int|
                    0 <= a < b < len && #[trigger] same_run(a, b, w2) implies #[trigger] le_by(ord, arr@[a], arr@[b]) by {}
            }
        }
        if width > (len - 1) / 2 {
            proof {
                assert forall|a: int, b: int|
                    0 <= a < b < len && #[trigger] same_run(a, b, int_of(len)) implies #[trigger] le_by(ord, arr@[a], arr@[b]) by {
                    lemma_run_of(a, 0, w2);
                    lemma_run_of(b, 0, w2);
                    assert(same_run(a, b, w2));
                }
            }
            width = len;
        } else {
            width = width * 2;
        }
    }
    proof {
        assert forall|a: int, b: int| 0 <= a < b < arr@.len() implies #[trigger] le_by(ord, arr@[a], arr@[b]) by {
            lemma_run_of(a, 0, int_of(width));
            lemma_run_of(b, 0, int_of(width));
            assert(same_run(a, b, int_of(width)));
        }
    }
}

/// Merges the ordered runs `src[lo .. mid]` and `src[mid .. hi]` into
/// `dst[lo .. hi]`, taking from the left run on ties.
fn merge_runs<T: Clone, F: Fn(&T, &T) -> Ordering>(
    src: &Vec<T>,
    dst: &mut Vec<T>,
    lo: usize,
    mid: usize,
    hi: usize,
    compare: &F,
    Ghost(ord): Ghost<spec_fn(T, T) -> Ordering>,
)
    requires
        lo <= mid <= hi <= src.len(),
        old(dst).len() == src.len(),
        implements(*compare, ord),
        total_preorder(ord),
        clone_faithful::<T>(),
        sorted_range(ord, src@, int_of(lo), int_of(mid)),
        sorted_range(ord, src@, int_of(mid), int_of(hi)),
    ensures
        final(dst).len() == src.len(),
        forall|p: int| 0 <= p < src.len() && !(lo <= p < hi) ==> final(dst)@[p] == old(dst)@[p],
        final(dst)@.subrange(int_of(lo), int_of(hi)).to_multiset() == src@.subrange(int_of(lo), int_of(hi)).to_multiset(),
        sorted_range(ord, final(dst)@, int_of(lo), int_of(hi)),
        keeps_ties(ord, src@.subrange(int_of(lo), int_of(hi)), final(dst)@.subrange(int_of(lo), int_of(hi))),
{
    let mut i = lo;
    let mut j = mid;
    let mut k = lo;
    proof {
        assert(dst@.subrange(int_of(lo), int_of(lo)) =~= Seq::<T>::empty());
        assert(src@.subrange(int_of(lo), int_of(lo)) =~= Seq::<T>::empty());
        assert(src@.subrange(int_of(mid), int_of(mid)) =~= Seq::<T>::empty());
        assert(Seq::<T>::empty().to_multiset() =~= Seq::<T>::empty().to_multiset().add(Seq::<T>::empty().to_multiset()));
    }
    while k < hi
        invariant
            lo <= i <= mid <= j <= hi <= src.len(),
            dst.len() == src.len(),
            k == i + j - mid,
            implements(*compare, ord),
            total_preorder(ord),
            clone_faithful::<T>(),
            sorted_range(ord, src@, int_of(lo), int_of(mid)),
            sorted_range(ord, src@, int_of(mid), int_of(hi)),
            forall|p: int| 0 <= p < src.len() && !(lo <= p < k) ==> dst@[p] == old(dst)@[p],
            dst@.subrange(int_of(lo), int_of(k)).to_multiset()
                == src@.subrange(int_of(lo), int_of(i)).to_multiset().add(src@.subrange(int_of(mid), int_of(j)).to_multiset()),
            sorted_range(ord, dst@, int_of(lo), int_of(k)),
            k > lo && i < mid ==> le_by(ord, dst@[k - 1], src@[int_of(i)]),
            k > lo && j < hi ==> le_by(ord, dst@[k - 1], src@[int_of(j)]),
            j > mid && i < mid ==> lt_by(ord, src@[j - 1], src@[int_of(i)]),
            forall|p: T| #[trigger] tied_with(ord, dst@.subrange(int_of(lo), int_of(k)), p)
                == tied_with(ord, src@.subrange(int_of(lo), int_of(i)), p) + tied_with(ord, src@.subrange(int_of(mid), int_of(j)), p),
        decreases hi - k,
    {
        let take_left = if i < mid && j < hi {
            let c = compare(&src[i], &src[j]);
            !matches!(c, Ordering::Greater)
        } else {
            i < mid
        };
        let ghost d0 = dst@;
        let ghost x: T;
        if take_left {
            let v = src[i].clone();
            proof {
                x = src@[int_of(i)];
            }
            dst.set(k, v);
            i = i + 1;
        } else {
            let v = src[j].clone();
            proof {
                x = src@[int_of(j)];
                if i < mid {
                    lemma_preorder_facts(ord, src@[int_of(i)], src@[int_of(j)]);
                    assert(lt_by(ord, src@[int_of(j)], src@[int_of(i)]));
                }
            }
            dst.set(k, v);
            j = j + 1;
        }
        proof {
            let k0 = int_of(k);
            assert(dst@[k0] == x);
            assert(dst@.subrange(int_of(lo), k0 + 1) =~= d0.subrange(int_of(lo), k0).push(x));
            if take_left {
                assert(src@.subrange(int_of(lo), int_of(i)) =~= src@.subrange(int_of(lo), int_of(i) - 1).push(x));
            } else {
                assert(src@.subrange(int_of(mid), int_of(j)) =~= src@.subrange(int_of(mid), int_of(j) - 1).push(x));
            }
            assert forall|a: int, b: int| lo <= a < b < k0 + 1 implies #[trigger] le_by(ord, dst@[a], dst@[b]) by {
                if b == k0 && a < k0 - 1 {
                    assert(le_by(ord, dst@[a], dst@[k0 - 1]));
                    assert(le_by(ord, dst@[k0 - 1], x));
                }
            }
            if i < mid {
                if take_left {
                    assert(le_by(ord, src@[int_of(i) - 1], src@[int_of(i)]));
                    if j > mid {
                        lemma_lt_le(ord, src@[j - 1], src@[int_of(i) - 1], src@[int_of(i)]);
                    }
                } else {
                    lemma_preorder_facts(ord, src@[int_of(i)], src@[int_of(j) - 1]);
                }
            }
            let old_l = if take_left { src@.subrange(int_of(lo), int_of(i) - 1) } else { src@.subrange(int_of(lo), int_of(i)) };
            let old_r = if take_left { src@.subrange(int_of(mid), int_of(j)) } else { src@.subrange(int_of(mid), int_of(j) - 1) };
            assert(src@.subrange(int_of(lo), int_of(i)) == if take_left { old_l.push(x) } else { old_l });
            assert(src@.subrange(int_of(mid), int_of(j)) == if take_left { old_r } else { old_r.push(x) });
            if take_left && old_r.len() > 0 {
                lemma_all_before(ord, old_r, x);
            }
            lemma_tied_push(ord, d0.subrange(int_of(lo), k0), old_l, old_r, x, take_left);
        }
        k = k + 1;
    }
    proof {
        assert(src@.subrange(int_of(lo), int_of(hi)) =~= src@.subrange(int_of(lo), int_of(mid)) + src@.subrange(int_of(mid), int_of(hi)));
        vstd::seq_lib::lemma_multiset_commutative(src@.subrange(int_of(lo), int_of(mid)), src@.subrange(int_of(mid), int_of(hi)));
        assert forall|p: T| #[trigger] tied_with(ord, dst@.subrange(int_of(lo), int_of(hi)), p) == tied_with(ord, src@.subrange(int_of(lo), int_of(hi)), p) by {
            Seq::filter_distributes_over_add(src@.subrange(int_of(lo), int_of(mid)), src@.subrange(int_of(mid), int_of(hi)), |z: T| ord(z, p) == Ordering::Equal);
        }
    }
}

/// In an ordered sequence whose last element is strictly before `x`,
/// every element is strictly before `x`.
proof fn lemma_all_before<T>(ord: spec_fn(T, T) -> Ordering, r: Seq<T>, x: T)
    requires
        total_preorder(ord),
        r.len() > 0,
        sorted_range(ord, r, 0, nat_int(r.len())),
        lt_by(ord, r[r.len() - 1], x),
    ensures
        forall|q: int| 0 <= q < r.len() ==> #[trigger] lt_by(ord, r[q], x),
{
    assert forall|q: int| 0 <= q < r.len() implies #[trigger] lt_by(ord, r[q], x) by {
        if q < r.len() - 1 {
            assert(le_by(ord, r[q], r[r.len() - 1]));
            lemma_preorder_facts(ord, r[q], x);
            lemma_preorder_facts(ord, r[r.len() - 1], x);
            if !lt_by(ord, r[q], x) {
                assert(le_by(ord, x, r[q]));
                assert(le_by(ord, x, r[r.len() - 1]));
            }
        }
    }
}

/// Appending `x` to the merged output appends it to the run it came from;
/// an element taken from the left run passes no equal element of the right
/// run, since every element taken from the right so far is strictly before it.
proof fn lemma_tied_push<T>(ord: spec_fn(T, T) -> Ordering, d: Seq<T>, l: Seq<T>, r: Seq<T>, x: T, left: bool)
    requires
        total_preorder(ord),
        forall|p: T| #[trigger] tied_with(ord, d, p) == tied_with(ord, l, p) + tied_with(ord, r, p),
        left ==> forall|q: int| 0 <= q < r.len() ==> #[trigger] lt_by(ord, r[q], x),
    ensures
        forall|p: T| #[trigger] tied_with(ord, d.push(x), p) == if left {
            tied_with(ord, l.push(x), p) + tied_with(ord, r, p)
        } else {
            tied_with(ord, l, p) + tied_with(ord, r.push(x), p)
        },
{
    assert forall|p: T| #[trigger] tied_with(ord, d.push(x), p) == if left {
        tied_with(ord, l.push(x), p) + tied_with(ord, r, p)
    } else {
        tied_with(ord, l, p) + tied_with(ord, r.push(x), p)
    } by {
        let pred = |z: T| ord(z, p) == Ordering::Equal;
        lemma_filter_single(x, pred);
        assert(d.push(x) =~= d + seq![x]);
        assert(l.push(x) =~= l + seq![x]);
        assert(r.push(x) =~= r + seq![x]);
        Seq::filter_distributes_over_add(d, seq![x], pred);
        Seq::filter_distributes_over_add(l, seq![x], pred);
        Seq::filter_distributes_over_add(r, seq![x], pred);
        assert(tied_with(ord, d, p) == tied_with(ord, l, p) + tied_with(ord, r, p));
        if left && pred(x) {
            lemma_none_tied(ord, r, x, p);
            assert(tied_with(ord, r, p) =~= Seq::<T>::empty());
        }
    }
}

/// `a` before `b` strictly, `b` not after `c`: `a` before `c` strictly.
proof fn lemma_lt_le<T>(ord: spec_fn(T, T) -> Ordering, a: T, b: T, c: T)
    requires
        total_preorder(ord),
        lt_by(ord, a, b),
        le_by(ord, b, c),
    ensures
        lt_by(ord, a, c),
{
    lemma_preorder_facts(ord, a, c);
    lemma_preorder_facts(ord, a, b);
    if !lt_by(ord, a, c) {
        assert(le_by(ord, c, a));
        assert(le_by(ord, b, a));
    }
}

/// When `x` ties with `p` and every element of `s` is strictly before `x`,
/// no element of `s` ties with `p`.
proof fn lemma_none_tied<T>(ord: spec_fn(T, T) -> Ordering, s: Seq<T>, x: T, p: T)
    requires
        total_preorder(ord),
        ord(x, p) == Ordering::Equal,
        forall|q: int| 0 <= q < s.len() ==> #[trigger] lt_by(ord, s[q], x),
    ensures
        tied_with(ord, s, p) == Seq::<T>::empty(),
{
    let pred = |z: T| ord(z, p) == Ordering::Equal;
    let f = s.filter(pred);
    broadcast use vstd::seq_lib::group_filter_ensures;
    if f.len() > 0 {
        let z = f[0];
        assert(pred(z));
        assert(f.contains(z));
        s.lemma_filter_contains_rev(pred, z);
        assert(s.contains(z));
        let q = choose|q: int| 0 <= q < s.len() && s[q] == z;
        assert(lt_by(ord, s[q], x));
        lemma_preorder_facts(ord, x, p);
        lemma_preorder_facts(ord, z, x);
        assert(le_by(ord, p, x));
        assert(le_by(ord, z, p));
        assert(le_by(ord, z, p) && le_by(ord, p, x));
        assert(le_by(ord, x, z) == false);
    }
    assert(f =~= Seq::<T>::empty());
}

} // verus!
