//! Comparators and what it means for a sequence to be ordered by one.
//!
//! Every sorting routine is written against a comparator `cmp(&a, &b) -> Ordering`.
//! Its behaviour is described by a spec-level three-way comparison `ord`; a
//! comparator *implements* `ord` when it may be called on any pair and always
//! answers what `ord` answers.  The proofs need `ord` to be a total preorder.
use vstd::prelude::*;
use vstd::laws_cmp::obeys_cmp;
use vstd::laws_eq::obeys_concrete_eq;
use core::cmp::Ordering;
use vstd::std_specs::cmp::{OrdSpec, PartialOrdSpec, PartialEqSpec};

verus! {

/// A `usize` read as a mathematical integer (for indexing sequences in specifications).
#[verifier::inline]
pub open spec fn int_of(i: usize) -> int {
    i as int
}

/// A `usize` read as a natural number.
#[verifier::inline]
pub open spec fn nat_of(i: usize) -> nat {
    i as nat
}

/// A `nat` read as an `int`.
#[verifier::inline]
pub open spec fn nat_int(n: nat) -> int {
    n as int
}

/// `a` does not come after `b` under `ord`.
pub open spec fn le_by<T>(ord: spec_fn(T, T) -> Ordering, a: T, b: T) -> bool {
    ord(a, b) != Ordering::Greater
}

/// `a` comes strictly before `b` under `ord`.
pub open spec fn lt_by<T>(ord: spec_fn(T, T) -> Ordering, a: T, b: T) -> bool {
    ord(a, b) == Ordering::Less
}

/// `ord` is a total preorder: answers flip when the arguments do, and
/// "not greater" is transitive.
pub open spec fn total_preorder<T>(ord: spec_fn(T, T) -> Ordering) -> bool {
    &&& forall|a: T, b: T| #[trigger] ord(a, b) == Ordering::Less <==> ord(b, a) == Ordering::Greater
    &&& forall|a: T, b: T, c: T|
        #![trigger ord(a, b), ord(b, c)]
        le_by(ord, a, b) && le_by(ord, b, c) ==> le_by(ord, a, c)
}

/// The comparator `cmp` can be called on any pair and answers as `ord` does.
pub open spec fn implements<T, F: Fn(&T, &T) -> Ordering>(
    cmp: F,
    ord: spec_fn(T, T) -> Ordering,
) -> bool {
    &&& forall|a: &T, b: &T| #[trigger] cmp.requires((a, b))
    &&& forall|a: &T, b: &T, r: Ordering| #[trigger] cmp.ensures((a, b), r) ==> r == ord(*a, *b)
}

/// What a deterministic comparator answers on `(a, b)`.
pub open spec fn outcome<T, F: Fn(&T, &T) -> Ordering>(cmp: F, a: T, b: T) -> Ordering {
    choose|r: Ordering| cmp.ensures((&a, &b), r)
}

/// The three-way comparison that a comparator computes.
pub open spec fn outcome_fn<T, F: Fn(&T, &T) -> Ordering>(cmp: F) -> spec_fn(T, T) -> Ordering {
    |a: T, b: T| outcome(cmp, a, b)
}

/// A comparator that callers may hand to the sorting routines: it accepts
/// every pair, always gives the same answer on the same pair, and the
/// answers form a total preorder.
pub open spec fn lawful_cmp<T, F: Fn(&T, &T) -> Ordering>(cmp: F) -> bool {
    &&& implements(cmp, outcome_fn(cmp))
    &&& total_preorder(outcome_fn(cmp))
}

/// `clone` hands back a value equal to the original.
pub open spec fn clone_faithful<T: Clone>() -> bool {
    forall|a: T, b: T| #[trigger] call_ensures(T::clone, (&a,), b) ==> a == b
}

/// `le` is total and transitive.
pub open spec fn total_le<T>(le: spec_fn(T, T) -> bool) -> bool {
    &&& forall|a: T, b: T| #[trigger] le(a, b) || le(b, a)
    &&& forall|a: T, b: T, c: T| #![trigger le(a, b), le(b, c)] le(a, b) && le(b, c) ==> le(a, c)
}

/// The "not greater" relation of a three-way comparison.
pub open spec fn le_of<T>(ord: spec_fn(T, T) -> Ordering) -> spec_fn(T, T) -> bool {
    |a: T, b: T| le_by(ord, a, b)
}

/// `cmp` accepts every pair, and its answers agree with `le`: not
/// `Greater` exactly when `a` is not above `b`, `Less` exactly when `b` is
/// not at or below `a`.
pub open spec fn agrees_with<T, F: Fn(&T, &T) -> Ordering>(cmp: F, le: spec_fn(T, T) -> bool) -> bool {
    &&& forall|a: &T, b: &T| #[trigger] cmp.requires((a, b))
    &&& forall|a: &T, b: &T, r: Ordering|
        #[trigger] cmp.ensures((a, b), r) ==> (r != Ordering::Greater <==> le(*a, *b)) && (r
            == Ordering::Less <==> !le(*b, *a))
}

pub proof fn lemma_implements_agrees<T, F: Fn(&T, &T) -> Ordering>(cmp: F, ord: spec_fn(T, T) -> Ordering)
    requires
        implements(cmp, ord),
        total_preorder(ord),
    ensures
        agrees_with(cmp, le_of(ord)),
        total_le(le_of(ord)),
{
    let le = le_of(ord);
    assert forall|a: &T, b: &T, r: Ordering| #[trigger] cmp.ensures((a, b), r) implies (r != Ordering::Greater <==> le(*a, *b)) && (r
        == Ordering::Less <==> !le(*b, *a)) by {
        lemma_preorder_facts(ord, *a, *b);
    }
    assert forall|a: T, b: T| #[trigger] le(a, b) || le(b, a) by {
        lemma_preorder_facts(ord, a, b);
    }
    assert forall|a: T, b: T, c: T| #![trigger le(a, b), le(b, c)] le(a, b) && le(b, c) implies le(a, c) by {
        assert(le_by(ord, a, b) && le_by(ord, b, c));
    }
}

/// Every earlier element is not greater than every later one.
pub open spec fn sorted_by<T>(ord: spec_fn(T, T) -> Ordering, s: Seq<T>) -> bool {
    forall|i: int, j: int| 0 <= i < j < s.len() ==> #[trigger] le_by(ord, s[i], s[j])
}

/// The elements of `s` at positions `lo .. hi` are in order.
pub open spec fn sorted_range<T>(ord: spec_fn(T, T) -> Ordering, s: Seq<T>, lo: int, hi: int) -> bool {
    forall|i: int, j: int| lo <= i < j < hi ==> #[trigger] le_by(ord, s[i], s[j])
}

/// Every value of `now` at positions `lo .. hi` was somewhere in `before[lo .. hi]`.
pub open spec fn drawn_from<T>(now: Seq<T>, before: Seq<T>, lo: int, hi: int) -> bool {
    forall|q: int| lo <= q < hi ==> #[trigger] found_in(before, lo, hi, now[q])
}

/// `v` occurs in `s[lo .. hi]`.
pub open spec fn found_in<T>(s: Seq<T>, lo: int, hi: int, v: T) -> bool {
    exists|q: int| lo <= q < hi && s[q] == v
}

/// `Ord` behaves as a total order whose equality is identity.
pub open spec fn lawful_ord<T: Ord>() -> bool {
    obeys_cmp::<T>() && obeys_concrete_eq::<T>()
}

/// The three-way comparison given by `Ord`.
pub open spec fn ord_of<T: Ord>() -> spec_fn(T, T) -> Ordering {
    |a: T, b: T| a.cmp_spec(&b)
}

/// `a <= b` in the `Ord` order.
pub open spec fn le<T: Ord>(a: T, b: T) -> bool {
    a.cmp_spec(&b) != Ordering::Greater
}

/// Ascending in the `Ord` order.
pub open spec fn sorted<T: Ord>(s: Seq<T>) -> bool {
    forall|i: int, j: int| 0 <= i < j < s.len() ==> #[trigger] le(s[i], s[j])
}

pub proof fn lemma_sorted_by_ord<T: Ord>(s: Seq<T>)
    requires
        sorted_by(ord_of::<T>(), s),
    ensures
        sorted(s),
{
    assert forall|i: int, j: int| 0 <= i < j < s.len() implies #[trigger] le(s[i], s[j]) by {
        assert(le_by(ord_of::<T>(), s[i], s[j]));
    }
}

/// `Ord` behaves as a total order up to `Equal`: values that compare
/// `Equal` need not be identical.
pub open spec fn ord_laws<T: Ord>() -> bool {
    obeys_cmp::<T>()
}

/// Under the `Ord` laws the comparison is a total preorder.
pub proof fn lemma_cmp_total<T: Ord>()
    requires
        ord_laws::<T>(),
    ensures
        total_preorder(ord_of::<T>()),
{
    reveal(vstd::laws_cmp::obeys_partial_cmp_spec_properties);
    reveal(vstd::laws_cmp::obeys_cmp_ord);
    reveal(vstd::laws_eq::obeys_eq_spec_properties);
    let ord = ord_of::<T>();
    assert forall|a: T, b: T| #[trigger] ord(a, b) == Ordering::Less <==> ord(b, a) == Ordering::Greater by {
        assert(a.partial_cmp_spec(&b) == Some(a.cmp_spec(&b)));
        assert(b.partial_cmp_spec(&a) == Some(b.cmp_spec(&a)));
    }
    assert forall|a: T, b: T, c: T|
        #![trigger ord(a, b), ord(b, c)]
        le_by(ord, a, b) && le_by(ord, b, c) implies le_by(ord, a, c) by {
        assert(a.partial_cmp_spec(&b) == Some(a.cmp_spec(&b)));
        assert(b.partial_cmp_spec(&a) == Some(b.cmp_spec(&a)));
        assert(b.partial_cmp_spec(&c) == Some(b.cmp_spec(&c)));
        assert(c.partial_cmp_spec(&b) == Some(c.cmp_spec(&b)));
        assert(a.partial_cmp_spec(&c) == Some(a.cmp_spec(&c)));
        assert(c.partial_cmp_spec(&a) == Some(c.cmp_spec(&a)));
        if a.cmp_spec(&c) == Ordering::Greater {
            assert(c.partial_cmp_spec(&a) == Some(Ordering::Less));
            if a.cmp_spec(&b) == Ordering::Less {
                assert(c.partial_cmp_spec(&b) == Some(Ordering::Less));
                assert(b.partial_cmp_spec(&c) == Some(Ordering::Greater));
            } else {
                assert(a.eq_spec(&b));
                if b.cmp_spec(&c) == Ordering::Less {
                    assert(b.partial_cmp_spec(&a) == Some(Ordering::Less));
                    assert(b.eq_spec(&a));
                } else {
                    assert(b.eq_spec(&c));
                    assert(a.eq_spec(&c));
                }
            }
        }
    }
}

/// A lawful `Ord` is a total preorder (in fact a total order).
pub proof fn lemma_lawful_ord_total<T: Ord>()
    requires
        lawful_ord::<T>(),
    ensures
        total_preorder(ord_of::<T>()),
        forall|a: T, b: T| #[trigger] a.cmp_spec(&b) == Ordering::Equal <==> a == b,
{
    reveal(vstd::laws_cmp::obeys_partial_cmp_spec_properties);
    reveal(vstd::laws_cmp::obeys_cmp_partial_ord);
    reveal(vstd::laws_cmp::obeys_cmp_ord);
    reveal(obeys_concrete_eq);
    let ord = ord_of::<T>();
    assert forall|a: T, b: T| #[trigger] a.cmp_spec(&b) == Ordering::Equal <==> a == b by {
        assert(a.partial_cmp_spec(&b) == Some(a.cmp_spec(&b)));
    }
    assert forall|a: T, b: T| #[trigger] ord(a, b) == Ordering::Less <==> ord(b, a) == Ordering::Greater by {
        assert(a.partial_cmp_spec(&b) == Some(a.cmp_spec(&b)));
        assert(b.partial_cmp_spec(&a) == Some(b.cmp_spec(&a)));
    }
    assert forall|a: T, b: T, c: T|
        #![trigger ord(a, b), ord(b, c)]
        le_by(ord, a, b) && le_by(ord, b, c) implies le_by(ord, a, c) by {
        assert(a.partial_cmp_spec(&b) == Some(a.cmp_spec(&b)));
        assert(b.partial_cmp_spec(&c) == Some(b.cmp_spec(&c)));
        assert(a.partial_cmp_spec(&c) == Some(a.cmp_spec(&c)));
        assert(a.partial_cmp_spec(&b) == Some(Ordering::Equal) <==> a.eq_spec(&b));
        assert(b.partial_cmp_spec(&c) == Some(Ordering::Equal) <==> b.eq_spec(&c));
    }
}

/// What a lawful `Ord` gives the comparison operators.
pub proof fn lemma_lawful_ord_ops<T: Ord>()
    requires
        lawful_ord::<T>(),
    ensures
        T::obeys_partial_cmp_spec(),
        T::obeys_cmp_spec(),
        T::obeys_eq_spec(),
        forall|a: T, b: T| #[trigger] a.partial_cmp_spec(&b) == Some(a.cmp_spec(&b)),
        forall|a: T, b: T| #[trigger] a.eq_spec(&b) <==> a == b,
{
    reveal(vstd::laws_cmp::obeys_cmp_partial_ord);
    reveal(vstd::laws_cmp::obeys_cmp_ord);
    reveal(obeys_concrete_eq);
}

/// What the `Ord` laws say of the comparison operators.
pub proof fn lemma_ord_laws_ops<T: Ord>()
    requires
        ord_laws::<T>(),
    ensures
        T::obeys_partial_cmp_spec(),
        T::obeys_cmp_spec(),
        forall|a: T, b: T| #[trigger] a.partial_cmp_spec(&b) == Some(a.cmp_spec(&b)),
        T::obeys_eq_spec(),
        forall|a: T, b: T| #[trigger] a.eq_spec(&b) <==> a.cmp_spec(&b) == Ordering::Equal,
{
    reveal(vstd::laws_cmp::obeys_cmp_partial_ord);
    reveal(vstd::laws_cmp::obeys_cmp_ord);
    assert forall|a: T, b: T| #[trigger] a.eq_spec(&b) <==> a.cmp_spec(&b) == Ordering::Equal by {
        assert(a.partial_cmp_spec(&b) == Some(a.cmp_spec(&b)));
    }
}

/// Reflexivity and the flip of `Equal`, which follow from the laws.
pub proof fn lemma_preorder_facts<T>(ord: spec_fn(T, T) -> Ordering, a: T, b: T)
    requires
        total_preorder(ord),
    ensures
        le_by(ord, a, a),
        le_by(ord, a, b) || le_by(ord, b, a),
        !le_by(ord, a, b) ==> ord(b, a) == Ordering::Less,
        ord(a, b) == Ordering::Equal ==> ord(b, a) == Ordering::Equal,
{
    assert(ord(a, a) == Ordering::Less <==> ord(a, a) == Ordering::Greater);
    assert(ord(a, b) == Ordering::Less <==> ord(b, a) == Ordering::Greater);
    assert(ord(b, a) == Ordering::Less <==> ord(a, b) == Ordering::Greater);
}

/// The elements of `s` that compare equal to `p` under `ord`, in order.
pub open spec fn tied_with<T>(ord: spec_fn(T, T) -> Ordering, s: Seq<T>, p: T) -> Seq<T> {
    s.filter(|x: T| ord(x, p) == Ordering::Equal)
}

/// `after` lists every group of mutually equal elements of `before` in the
/// order `before` has them: what a stable sort keeps.
pub open spec fn keeps_ties<T>(ord: spec_fn(T, T) -> Ordering, before: Seq<T>, after: Seq<T>) -> bool {
    forall|p: T| #[trigger] tied_with(ord, after, p) == tied_with(ord, before, p)
}

/// The filter of a one-element sequence.
pub proof fn lemma_filter_single<T>(x: T, pred: spec_fn(T) -> bool)
    ensures
        seq![x].filter(pred) == if pred(x) { seq![x] } else { Seq::<T>::empty() },
{
    reveal(Seq::filter);
    assert(seq![x].drop_last() =~= Seq::<T>::empty());
    assert(Seq::<T>::empty().filter(pred) =~= Seq::<T>::empty());
    if pred(x) {
        assert(Seq::<T>::empty().push(x) =~= seq![x]);
    }
}

/// Swapping two neighbours of which the first is strictly greater keeps
/// every group of equal elements in order.
pub proof fn lemma_swap_keeps_ties<T>(ord: spec_fn(T, T) -> Ordering, s: Seq<T>, i: int, p: T)
    requires
        total_preorder(ord),
        0 <= i,
        i + 1 < s.len(),
        ord(s[i], s[i + 1]) == Ordering::Greater,
    ensures
        tied_with(ord, s.update(i, s[i + 1]).update(i + 1, s[i]), p) == tied_with(ord, s, p),
{
    let x = s[i];
    let y = s[i + 1];
    let pred = |z: T| ord(z, p) == Ordering::Equal;
    let a = s.take(i);
    let b = s.skip(i + 2);
    let t = s.update(i, y).update(i + 1, x);
    assert(s =~= a + (seq![x] + seq![y]) + b);
    assert(t =~= a + (seq![y] + seq![x]) + b);
    Seq::filter_distributes_over_add(a + (seq![x] + seq![y]), b, pred);
    Seq::filter_distributes_over_add(a, seq![x] + seq![y], pred);
    Seq::filter_distributes_over_add(seq![x], seq![y], pred);
    Seq::filter_distributes_over_add(a + (seq![y] + seq![x]), b, pred);
    Seq::filter_distributes_over_add(a, seq![y] + seq![x], pred);
    Seq::filter_distributes_over_add(seq![y], seq![x], pred);
    lemma_filter_single(x, pred);
    lemma_filter_single(y, pred);
    if pred(x) && pred(y) {
        lemma_preorder_facts(ord, y, p);
        lemma_preorder_facts(ord, x, y);
        assert(le_by(ord, x, p) && le_by(ord, p, y));
        assert(le_by(ord, x, y));
    }
    assert(seq![x].filter(pred) + seq![y].filter(pred) =~= seq![y].filter(pred) + seq![x].filter(pred));
}

/// Three-way comparison by `Ord`, the comparator that the plain sorts use.
pub fn ord_compare<T: Ord>(a: &T, b: &T) -> (r: Ordering)
    ensures
        T::obeys_cmp_spec() ==> r == a.cmp_spec(b),
{
    a.cmp(b)
}

pub proof fn lemma_ord_compare_implements<T: Ord>()
    requires
        ord_laws::<T>(),
    ensures
        implements(ord_compare::<T>, ord_of::<T>()),
        total_preorder(ord_of::<T>()),
{
    reveal(vstd::laws_cmp::obeys_cmp_ord);
    lemma_cmp_total::<T>();
}

/// Swaps two elements of a vector, as `<[T]>::swap` documents.
#[verifier::external_body]
pub(crate) fn vec_swap<T>(v: &mut Vec<T>, i: usize, j: usize)
    requires
        i < old(v).len(),
        j < old(v).len(),
    ensures
        final(v)@ == old(v)@.update(int_of(i), old(v)@[int_of(j)]).update(int_of(j), old(v)@[int_of(i)]),
{
    v.swap(i, j);
}

pub proof fn lemma_swap_multiset<T>(s: Seq<T>, i: int, j: int)
    requires
        0 <= i < s.len(),
        0 <= j < s.len(),
    ensures
        s.update(i, s[j]).update(j, s[i]).to_multiset() == s.to_multiset(),
{
    broadcast use vstd::seq_lib::to_multiset_update;
    broadcast use vstd::multiset::group_multiset_axioms;
    let s1 = s.update(i, s[j]);
    let m = s.to_multiset();
    assert(s1.to_multiset() == m.insert(s[j]).remove(s[i]));
    assert(s1[j] == s[j]);
    assert(s1.update(j, s[i]).to_multiset() == s1.to_multiset().insert(s[i]).remove(s[j]));
    assert(m.count(s[i]) > 0) by {
        vstd::seq_lib::to_multiset_contains(s, s[i]);
    }
    assert(m.insert(s[j]).remove(s[i]).insert(s[i]).remove(s[j]) =~= m);
}

/// Swapping two positions inside `lo .. hi` keeps every value there drawn
/// from the original range.
pub proof fn lemma_swap_drawn<T>(now: Seq<T>, before: Seq<T>, lo: int, hi: int, i: int, j: int)
    requires
        drawn_from(now, before, lo, hi),
        0 <= lo,
        lo <= i < hi,
        lo <= j < hi,
        hi <= now.len(),
    ensures
        drawn_from(now.update(i, now[j]).update(j, now[i]), before, lo, hi),
{
    let s = now.update(i, now[j]).update(j, now[i]);
    assert forall|q: int| lo <= q < hi implies #[trigger] found_in(before, lo, hi, s[q]) by {
        if q == j {
            assert(s[q] == now[i]);
            assert(found_in(before, lo, hi, now[i]));
        } else if q == i {
            assert(s[q] == now[j]);
            assert(found_in(before, lo, hi, now[j]));
        } else {
            assert(s[q] == now[q]);
            assert(found_in(before, lo, hi, now[q]));
        }
    }
}

/// Mapping a function over two sequences with the same elements gives
/// sequences with the same elements.
pub proof fn lemma_map_multiset<A, B>(s1: Seq<A>, s2: Seq<A>, f: spec_fn(A) -> B)
    requires
        s1.to_multiset() == s2.to_multiset(),
    ensures
        s1.map_values(f).to_multiset() == s2.map_values(f).to_multiset(),
    decreases s1.len(),
{
    broadcast use {vstd::seq_lib::group_to_multiset_ensures, vstd::multiset::group_multiset_axioms};
    if s1.len() == 0 {
        assert(s2.to_multiset().len() == 0);
        assert(s2.len() == 0);
        assert(s1.map_values(f) =~= s2.map_values(f));
    } else {
        let x = s1.last();
        assert(s1 =~= s1.drop_last().push(x));
        assert(s1.to_multiset().contains(x));
        assert(s2.to_multiset().contains(x));
        let i = choose|i: int| 0 <= i < s2.len() && s2[i] == x;
        let t2 = s2.remove(i);
        assert(s2 =~= t2.insert(i, x));
        assert(s1.drop_last().to_multiset() =~= t2.to_multiset());
        lemma_map_multiset(s1.drop_last(), t2, f);
        assert(s1.map_values(f) =~= s1.drop_last().map_values(f).push(f(x)));
        assert(s2.map_values(f) =~= t2.map_values(f).insert(i, f(x)));
    }
}

/// Values drawn from `before[lo .. hi]`, with everything outside that range
/// unchanged, are drawn from `before[0 .. n]`.
pub proof fn lemma_drawn_widen<T>(now: Seq<T>, before: Seq<T>, lo: int, hi: int, n: int)
    requires
        drawn_from(now, before, lo, hi),
        0 <= lo <= hi <= n <= now.len(),
        n <= before.len(),
        forall|k: int| 0 <= k < n && !(lo <= k < hi) ==> now[k] == before[k],
    ensures
        drawn_from(now, before, 0, n),
{
    assert forall|q: int| 0 <= q < n implies #[trigger] found_in(before, 0, n, now[q]) by {
        if lo <= q < hi {
            assert(found_in(before, lo, hi, now[q]));
        } else {
            assert(before[q] == now[q]);
        }
    }
}

/// A sequence is drawn from itself.
pub proof fn lemma_drawn_refl<T>(s: Seq<T>, lo: int, hi: int)
    requires
        0 <= lo <= hi <= s.len(),
    ensures
        drawn_from(s, s, lo, hi),
{
    assert forall|q: int| lo <= q < hi implies #[trigger] found_in(s, lo, hi, s[q]) by {
        assert(s[q] == s[q]);
    }
}

} // verus!
