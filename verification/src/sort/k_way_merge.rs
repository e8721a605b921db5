//! K-way merge of sorted sources through a min-heap.
//!
//! The first element of every source goes into a heap keyed by (value,
//! source id); each step takes the smallest, outputs it and refills from
//! the same source.  O(log K) per element.  Ties go to the lower source id,
//! which keeps the merge stable.
use vstd::prelude::*;
use vstd::multiset::Multiset;
use vstd::std_specs::cmp::{OrdSpec, PartialOrdSpec, PartialEqSpec};
use super::heap::{parent, below_parent, heap_from, sift_up_by, sift_down_by, computes, lemma_root_is_max};
use super::order::{
    int_of, ord_laws, le, sorted, total_le, lemma_cmp_total, lemma_ord_laws_ops,
    lemma_swap_multiset, vec_swap, drawn_from, found_in, lemma_map_multiset, lemma_drawn_widen,
};

verus! {

broadcast use {vstd::seq_lib::group_to_multiset_ensures, vstd::multiset::group_multiset_axioms};

/// One source in the heap: its current head, its position among the
/// sources, and the rest of it, last element first.
struct MergeSource<T> {
    current: T,
    source_id: usize,
    rest: Vec<T>,
}

/// Merges K sorted sources into one sorted sequence.
pub struct MergeIterator<T> {
    heap: Vec<MergeSource<T>>,
    streams: Ghost<Seq<Seq<T>>>,
}

/// What is left of a source: its head, then the rest in order.
spec fn stream_of<T>(e: MergeSource<T>) -> Seq<T> {
    seq![e.current] + e.rest@.reverse()
}

/// `(a, ia)` comes no later than `(b, ib)`: smaller value, or a value that
/// compares equal and a lower source.
pub open spec fn precedes<T: Ord>(a: T, ia: int, b: T, ib: int) -> bool {
    a.cmp_spec(&b) == core::cmp::Ordering::Less || (a.cmp_spec(&b) == core::cmp::Ordering::Equal && ia <= ib)
}

/// Heap order on sources: `x` is "not above" `y` when `y` precedes `x`.
spec fn source_le<T: Ord>() -> spec_fn(MergeSource<T>, MergeSource<T>) -> bool {
    |x: MergeSource<T>, y: MergeSource<T>| precedes(y.current, int_of(y.source_id), x.current, int_of(x.source_id))
}

/// The source id of an entry.
spec fn id_fn<T>() -> spec_fn(MergeSource<T>) -> usize {
    |e: MergeSource<T>| e.source_id
}

/// The source ids present in `d`.
spec fn ids<T>(d: Seq<MergeSource<T>>) -> Seq<usize> {
    d.map_values(id_fn::<T>())
}

/// Entry `e` describes source `e.source_id` of `ss` exactly.
spec fn describes<T>(ss: Seq<Seq<T>>, e: MergeSource<T>) -> bool {
    e.source_id < ss.len() && ss[int_of(e.source_id)] == stream_of(e)
}

/// Every source of `ss` is empty.
pub open spec fn all_empty<T>(ss: Seq<Seq<T>>) -> bool {
    forall|s: int| 0 <= s < ss.len() ==> #[trigger] ss[s].len() == 0
}

/// Source `s` is non-empty and its head precedes every other non-empty
/// source's head.
pub open spec fn is_min_stream<T: Ord>(ss: Seq<Seq<T>>, s: int) -> bool {
    &&& 0 <= s < ss.len()
    &&& ss[s].len() > 0
    &&& forall|t: int| 0 <= t < ss.len() && #[trigger] ss[t].len() > 0 ==> precedes(ss[s][0], s, ss[t][0], t)
}

/// All elements of all sources.
pub open spec fn total<T>(ss: Seq<Seq<T>>) -> Multiset<T>
    decreases ss.len(),
{
    if ss.len() == 0 {
        Multiset::empty()
    } else {
        total(ss.drop_last()).add(ss.last().to_multiset())
    }
}

/// Every source is sorted.
pub open spec fn all_sorted<T: Ord>(ss: Seq<Seq<T>>) -> bool {
    forall|s: int| 0 <= s < ss.len() ==> sorted(#[trigger] ss[s])
}

impl<T> View for MergeIterator<T> {
    type V = Seq<Seq<T>>;

    /// What is left of each source, by source id.
    closed spec fn view(&self) -> Seq<Seq<T>> {
        self.streams@
    }
}

proof fn lemma_source_le_total<T: Ord>()
    requires
        ord_laws::<T>(),
    ensures
        total_le(source_le::<T>()),
{
    lemma_cmp_total::<T>();
    let le = source_le::<T>();
    let ord = super::order::ord_of::<T>();
    assert forall|a: MergeSource<T>, b: MergeSource<T>| #[trigger] le(a, b) || le(b, a) by {
        super::order::lemma_preorder_facts(ord, a.current, b.current);
    }
    assert forall|a: MergeSource<T>, b: MergeSource<T>, c: MergeSource<T>|
        #![trigger le(a, b), le(b, c)] le(a, b) && le(b, c) implies le(a, c) by {
        super::order::lemma_preorder_facts(ord, a.current, b.current);
        super::order::lemma_preorder_facts(ord, b.current, c.current);
        super::order::lemma_preorder_facts(ord, c.current, a.current);
        assert(super::order::le_by(ord, c.current, b.current) && super::order::le_by(ord, b.current, a.current) ==> super::order::le_by(ord, c.current, a.current));
    }
}

proof fn lemma_total_drop_first<T>(ss: Seq<Seq<T>>, s: int)
    requires
        0 <= s < ss.len(),
        ss[s].len() > 0,
    ensures
        total(ss.update(s, ss[s].drop_first())) == total(ss).remove(ss[s][0]),
        total(ss).contains(ss[s][0]),
    decreases ss.len(),
{
    let ss2 = ss.update(s, ss[s].drop_first());
    assert(ss[s] =~= seq![ss[s][0]] + ss[s].drop_first());
    vstd::seq_lib::lemma_multiset_commutative(seq![ss[s][0]], ss[s].drop_first());
    assert(seq![ss[s][0]].to_multiset() =~= Multiset::singleton(ss[s][0]));
    if s == ss.len() - 1 {
        assert(ss2.drop_last() =~= ss.drop_last());
        assert(total(ss2) =~= total(ss).remove(ss[s][0]));
    } else {
        lemma_total_drop_first(ss.drop_last(), s);
        assert(ss2.drop_last() =~= ss.drop_last().update(s, ss[s].drop_first()));
        assert(total(ss2) =~= total(ss).remove(ss[s][0]));
    }
}

proof fn lemma_total_empty<T>(ss: Seq<Seq<T>>)
    requires
        all_empty(ss),
    ensures
        total(ss) == Multiset::<T>::empty(),
    decreases ss.len(),
{
    if ss.len() > 0 {
        assert(ss.last().len() == 0);
        assert(ss.last() =~= Seq::<T>::empty());
        lemma_total_empty(ss.drop_last());
    }
}

proof fn lemma_pop_rest<T>(rest: Seq<T>, x: T)
    requires
        rest.len() > 0,
        x == rest.last(),
    ensures
        seq![x] + rest.drop_last().reverse() == rest.reverse(),
{
    assert(seq![x] + rest.drop_last().reverse() =~= rest.reverse());
}


/// An id occurring at most once in every multiset count means no two
/// entries share an id.
proof fn lemma_ids_distinct<T>(h: Seq<MergeSource<T>>)
    requires
        forall|v: usize| #[trigger] ids(h).to_multiset().count(v) <= 1,
    ensures
        forall|i: int, j: int| 0 <= i < h.len() && 0 <= j < h.len() && i != j ==> h[i].source_id != h[j].source_id,
{
    assert forall|x: usize| ids(h).to_multiset().contains(x) implies ids(h).to_multiset().count(x) == 1 by {
        assert(ids(h).to_multiset().count(x) <= 1);
    }
    ids(h).lemma_multiset_has_no_duplicates_conv();
    assert forall|i: int, j: int| 0 <= i < h.len() && 0 <= j < h.len() && i != j implies h[i].source_id != h[j].source_id by {
        assert(ids(h)[i] == h[i].source_id);
        assert(ids(h)[j] == h[j].source_id);
    }
}

impl<T: Ord> MergeIterator<T> {
    /// The heap is ordered, each entry describes its source exactly, every
    /// non-empty source has exactly one entry.
    pub closed spec fn wf(&self) -> bool {
        &&& ord_laws::<T>()
        &&& heap_from(source_le::<T>(), self.heap@, 0, int_of(self.heap.len()), -1)
        &&& forall|k: int| 0 <= k < self.heap@.len() ==> #[trigger] describes(self.streams@, self.heap@[k])
        &&& forall|s: int|
            0 <= s < self.streams@.len() && #[trigger] self.streams@[s].len() > 0 ==> exists|k: int|
                0 <= k < self.heap@.len() && int_of(self.heap@[k].source_id) == s
        &&& forall|v: usize| #[trigger] ids(self.heap@).to_multiset().count(v) <= 1
    }

    /// Starts a merge of the given sources; source ids are their positions.
    /// O(K) to build the heap.
    pub fn new(iters: Vec<Vec<T>>) -> (m: Self)
        requires
            ord_laws::<T>(),
        ensures
            m.wf(),
            m@ == iters@.map_values(|v: Vec<T>| v@),
    {
        proof {
            lemma_source_le_total::<T>();
            lemma_ord_laws_ops::<T>();
        }
        let ghost ss = iters@.map_values(|v: Vec<T>| v@);
        let mut iters = iters;
        let n = iters.len();
        let mut heap: Vec<MergeSource<T>> = Vec::new();
        let mut id: usize = 0;
        while id < n
            invariant
                id <= n == iters.len(),
                ss.len() == n,
                ord_laws::<T>(),
                forall|s: int| id <= s < n ==> #[trigger] iters@[s]@ == ss[s],
                forall|k: int| 0 <= k < heap@.len() ==> #[trigger] describes(ss, heap@[k]),
                forall|k: int| 0 <= k < heap@.len() ==> #[trigger] heap@[k].source_id < id,
                forall|s: int| 0 <= s < id && #[trigger] ss[s].len() > 0 ==> exists|k: int|
                    0 <= k < heap@.len() && int_of(heap@[k].source_id) == s,
                ids(heap@).no_duplicates(),
            decreases n - id,
        {
            let mut v: Vec<T> = Vec::new();
            iters.set_and_swap(id, &mut v);
            let ghost orig = v@;
            assert(orig == ss[int_of(id)]);
            let mut rest: Vec<T> = Vec::new();
            while v.len() > 0
                invariant
                    orig == v@ + rest@.reverse(),
                decreases v.len(),
            {
                let x = v.pop().unwrap();
                proof {
                    assert(orig =~= v@ + (rest@.push(x)).reverse());
                }
                rest.push(x);
            }
            assert(orig =~= rest@.reverse());
            let ghost h0 = heap@;
            let ghost rest0 = rest@;
            match rest.pop() {
                Some(first) => {
                    proof {
                        assert(rest0 =~= rest@.push(first));
                        lemma_pop_rest(rest@.push(first), first);
                        assert(rest@.push(first).drop_last() =~= rest@);
                        assert(ss[int_of(id)] == seq![first] + rest@.reverse());
                    }
                    let ghost rest_seq = rest@;
                    heap.push(MergeSource { current: first, source_id: id, rest });
                    proof {
                        assert(stream_of(heap@[heap@.len() - 1]) == seq![first] + rest_seq.reverse());
                        assert forall|k: int| 0 <= k < heap@.len() implies #[trigger] describes(ss, heap@[k]) by {
                            if k < h0.len() {
                                assert(heap@[k] == h0[k]);
                            }
                        }
                        assert(ids(heap@) =~= ids(h0).push(id));
                        assert forall|i: int, j: int| 0 <= i < ids(heap@).len() && 0 <= j < ids(heap@).len() && i != j implies ids(heap@)[i] != ids(heap@)[j] by {
                            if i < h0.len() && j < h0.len() {
                                assert(ids(h0)[i] != ids(h0)[j]);
                            }
                        }
                        assert forall|s: int| 0 <= s < id + 1 && #[trigger] ss[s].len() > 0 implies exists|k: int|
                            0 <= k < heap@.len() && int_of(heap@[k].source_id) == s by {
                            if s == id {
                                assert(int_of(heap@[heap@.len() - 1].source_id) == s);
                            } else {
                                let k = choose|k: int| 0 <= k < h0.len() && int_of(h0[k].source_id) == s;
                                assert(heap@[k] == h0[k]);
                            }
                        }
                    }
                },
                None => {
                    proof {
                        assert(ss[int_of(id)].len() == 0);
                    }
                },
            }
            id = id + 1;
        }
        let ghost le = source_le::<T>();
        let g = |a: &MergeSource<T>, b: &MergeSource<T>| -> (r: bool)
            ensures
                r == le(*a, *b),
            { b.current < a.current || (b.current == a.current && b.source_id <= a.source_id) };
        let len = heap.len();
        proof {
            assert(computes(g, le));
            ids(heap@).lemma_multiset_has_no_duplicates();
        }
        if len > 1 {
            let mut i: usize = (len - 2) / 2 + 1;
            while i > 0
                invariant
                    heap.len() == len,
                    len > 1,
                    i <= (len - 2) / 2 + 1,
                    computes(g, le),
                    le == source_le::<T>(),
                    heap_from(le, heap@, int_of(i), int_of(len), -1),
                    ss.len() == n,
                    forall|k: int| 0 <= k < heap@.len() ==> #[trigger] describes(ss, heap@[k]),
                    forall|s: int| 0 <= s < ss.len() && #[trigger] ss[s].len() > 0 ==> exists|k: int|
                        0 <= k < heap@.len() && int_of(heap@[k].source_id) == s,
                    forall|v: usize| #[trigger] ids(heap@).to_multiset().count(v) <= 1,
                decreases i,
            {
                i = i - 1;
                let ghost h0 = heap@;
                sift_down_by(&mut heap, i, len, &g, Ghost(le));
                proof {
                    lemma_drawn_widen(heap@, h0, int_of(i), int_of(len), int_of(len));
                    Self::lemma_permuted(ss, h0, heap@, int_of(len));
                }
            }
        }
        let m = MergeIterator { heap, streams: Ghost(ss) };
        assert(heap_from(source_le::<T>(), m.heap@, 0, int_of(m.heap.len()), -1));
        assert(forall|k: int| 0 <= k < m.heap@.len() ==> #[trigger] describes(m.streams@, m.heap@[k]));
        assert(forall|v: usize| #[trigger] ids(m.heap@).to_multiset().count(v) <= 1);
        m
    }

    /// The root's source is the one whose head comes first.
    proof fn lemma_min_at_root(&self)
        requires
            self.wf(),
            self.heap@.len() > 0,
        ensures
            is_min_stream(self@, int_of(self.heap@[0].source_id)),
            self@[int_of(self.heap@[0].source_id)] == stream_of(self.heap@[0]),
    {
        lemma_source_le_total::<T>();
        let ss = self@;
        let h = self.heap@;
        let s0 = int_of(h[0].source_id);
        assert(describes(ss, h[0]));
        assert forall|t: int| 0 <= t < ss.len() && #[trigger] ss[t].len() > 0 implies precedes(ss[s0][0], s0, ss[t][0], t) by {
            let k = choose|k: int| 0 <= k < h.len() && int_of(h[k].source_id) == t;
            assert(describes(ss, h[k]));
            lemma_root_is_max(source_le::<T>(), h, int_of(self.heap.len()), k);
        }
    }

    /// Takes the next element: the head of the source whose head comes
    /// first (the lowest source id among equal heads), and advances that
    /// source.  `None` once every source is exhausted.  O(log K).
    pub fn next(&mut self) -> (r: Option<T>)
        requires
            old(self).wf(),
        ensures
            final(self).wf(),
            r is None <==> all_empty(old(self)@),
            r is None ==> final(self)@ == old(self)@,
            r matches Some(x) ==> exists|s: int| {
                &&& is_min_stream(old(self)@, s)
                &&& x == old(self)@[s][0]
                &&& final(self)@ == old(self)@.update(s, old(self)@[s].drop_first())
            },
    {
        proof {
            lemma_source_le_total::<T>();
            lemma_ord_laws_ops::<T>();
        }
        let ghost ss = self.streams@;
        let ghost le = source_le::<T>();
        let len = self.heap.len();
        if len == 0 {
            proof {
                assert forall|s: int| 0 <= s < ss.len() implies #[trigger] ss[s].len() == 0 by {
                    if ss[s].len() > 0 {
                        let k = choose|k: int| 0 <= k < self.heap@.len() && int_of(self.heap@[k].source_id) == s;
                    }
                }
            }
            return None;
        }
        let ghost h0 = self.heap@;
        let ghost s0 = int_of(h0[0].source_id);
        let ghost ss1 = ss.update(s0, ss[s0].drop_first());
        proof {
            self.lemma_min_at_root();
            lemma_ids_distinct(h0);
            assert(!all_empty(ss)) by {
                assert(ss[s0].len() > 0);
            }
        }
        let g = |a: &MergeSource<T>, b: &MergeSource<T>| -> (r: bool)
            ensures
                r == le(*a, *b),
            { b.current < a.current || (b.current == a.current && b.source_id <= a.source_id) };
        proof {
            assert(computes(g, le));
        }
        let last = len - 1;
        vec_swap(&mut self.heap, 0, last);
        let mut src = self.heap.pop().unwrap();
        proof {
            assert(src == h0[0]);
        }
        let ghost rest0 = src.rest@;
        match src.rest.pop() {
            Some(nv) => {
                let mut nv = nv;
                std::mem::swap(&mut src.current, &mut nv);
                self.heap.push(src);
                vec_swap(&mut self.heap, 0, last);
                let ghost d1 = self.heap@;
                proof {
                    assert(rest0 =~= src.rest@.push(src.current));
                    lemma_pop_rest(rest0, src.current);
                    assert(ss[s0] =~= seq![nv] + rest0.reverse());
                    assert(ss1[s0] =~= stream_of(src));
                    assert(d1 =~= h0.update(0, src));
                    assert(ids(d1) =~= ids(h0));
                    assert forall|k: int| 0 < k < len && parent(k) >= 0 && parent(k) != 0 implies #[trigger] below_parent(le, d1, k) by {
                        assert(below_parent(le, h0, k));
                    }
                    assert forall|k: int| 0 <= k < d1.len() implies #[trigger] describes(ss1, d1[k]) by {
                        if k != 0 {
                            assert(describes(ss, h0[k]));
                            assert(h0[k].source_id != h0[0].source_id);
                        }
                    }
                    assert forall|t: int| 0 <= t < ss1.len() && #[trigger] ss1[t].len() > 0 implies exists|k: int|
                        0 <= k < d1.len() && int_of(d1[k].source_id) == t by {
                        if t == s0 {
                            assert(int_of(d1[0].source_id) == t);
                        } else {
                            assert(ss[t].len() > 0);
                            let k = choose|k: int| 0 <= k < h0.len() && int_of(h0[k].source_id) == t;
                            assert(int_of(d1[k].source_id) == t);
                        }
                    }
                }
                sift_down_by(&mut self.heap, 0, len, &g, Ghost(le));
                proof {
                    Self::lemma_permuted(ss1, d1, self.heap@, int_of(len));
                }
                self.streams = Ghost(ss1);
                assert(heap_from(le, self.heap@, 0, int_of(self.heap.len()), -1));
                assert(forall|k: int| 0 <= k < self.heap@.len() ==> #[trigger] describes(self.streams@, self.heap@[k]));
                assert(forall|v: usize| #[trigger] ids(self.heap@).to_multiset().count(v) <= 1);
                Some(nv)
            },
            None => {
                let ghost d1 = self.heap@;
                proof {
                    assert(rest0.len() == 0);
                    assert(ss[s0] =~= seq![src.current]);
                    assert(ss1[s0].len() == 0);
                    assert forall|k: int| 0 <= k < d1.len() implies d1[k] == (if k == 0 { h0[int_of(last)] } else { h0[k] }) by {}
                    assert forall|i: int, j: int| 0 <= i < ids(d1).len() && 0 <= j < ids(d1).len() && i != j implies ids(d1)[i] != ids(d1)[j] by {
                        let fi = if i == 0 { int_of(last) } else { i };
                        let fj = if j == 0 { int_of(last) } else { j };
                        assert(d1[i] == h0[fi]);
                        assert(d1[j] == h0[fj]);
                    }
                    ids(d1).lemma_multiset_has_no_duplicates();
                    assert forall|v: usize| #[trigger] ids(d1).to_multiset().count(v) <= 1 by {
                        if ids(d1).to_multiset().contains(v) {
                        }
                    }
                    assert forall|k: int| 0 < k < last && parent(k) >= 0 && parent(k) != 0 implies #[trigger] below_parent(le, d1, k) by {
                        assert(below_parent(le, h0, k));
                    }
                    assert forall|k: int| 0 <= k < d1.len() implies #[trigger] describes(ss1, d1[k]) by {
                        let f = if k == 0 { int_of(last) } else { k };
                        assert(describes(ss, h0[f]));
                        assert(h0[f].source_id != h0[0].source_id);
                    }
                    assert forall|t: int| 0 <= t < ss1.len() && #[trigger] ss1[t].len() > 0 implies exists|k: int|
                        0 <= k < d1.len() && int_of(d1[k].source_id) == t by {
                        assert(t != s0);
                        assert(ss[t].len() > 0);
                        let k = choose|k: int| 0 <= k < h0.len() && int_of(h0[k].source_id) == t;
                        assert(k != 0);
                        if k == last {
                            assert(int_of(d1[0].source_id) == t);
                        } else {
                            assert(int_of(d1[k].source_id) == t);
                        }
                    }
                }
                if last > 0 {
                    sift_down_by(&mut self.heap, 0, last, &g, Ghost(le));
                    proof {
                        Self::lemma_permuted(ss1, d1, self.heap@, int_of(last));
                    }
                }
                self.streams = Ghost(ss1);
                assert(heap_from(le, self.heap@, 0, int_of(self.heap.len()), -1));
                assert(forall|k: int| 0 <= k < self.heap@.len() ==> #[trigger] describes(self.streams@, self.heap@[k]));
                assert(forall|v: usize| #[trigger] ids(self.heap@).to_multiset().count(v) <= 1);
                Some(src.current)
            },
        }
    }

    /// Drains every remaining element, in merge order.  When every source
    /// is sorted the result is sorted; in every case it holds exactly the
    /// elements that were left.
    pub fn into_vec(self) -> (v: Vec<T>)
        requires
            self.wf(),
        ensures
            v@.to_multiset() == total(self@),
            all_sorted(self@) ==> sorted(v@),
    {
        let ghost ss0 = self@;
        let mut it = self;
        let mut out: Vec<T> = Vec::new();
        loop
            invariant
                it.wf(),
                out@.to_multiset().add(total(it@)) == total(ss0),
                all_sorted(ss0) ==> all_sorted(it@) && sorted(out@),
                all_sorted(ss0) && out@.len() > 0 ==> forall|t: int| 0 <= t < it@.len() && #[trigger] it@[t].len() > 0 ==> le(out@.last(), it@[t][0]),
            ensures
                out@.to_multiset() == total(ss0),
                all_sorted(ss0) ==> sorted(out@),
            decreases total(it@).len(),
        {
            let ghost ss = it@;
            match it.next() {
                None => {
                    proof {
                        lemma_total_empty(ss);
                        assert(out@.to_multiset().add(Multiset::empty()) =~= out@.to_multiset());
                    }
                    break;
                },
                Some(x) => {
                    proof {
                        let s = choose|s: int| {
                            &&& is_min_stream(ss, s)
                            &&& x == ss[s][0]
                            &&& it@ == ss.update(s, ss[s].drop_first())
                        };
                        lemma_total_drop_first(ss, s);
                        assert(out@.push(x).to_multiset() =~= out@.to_multiset().insert(x));
                        assert(out@.to_multiset().insert(x).add(total(ss).remove(x)) =~= out@.to_multiset().add(total(ss)));
                        if all_sorted(ss0) {
                            Self::lemma_sorted_step(ss, s, out@, x);
                        }
                    }
                    out.push(x);
                },
            }
        }
        out
    }

    proof fn lemma_sorted_step(ss: Seq<Seq<T>>, s: int, out: Seq<T>, x: T)
        requires
            ord_laws::<T>(),
            all_sorted(ss),
            sorted(out),
            out.len() > 0 ==> forall|t: int| 0 <= t < ss.len() && #[trigger] ss[t].len() > 0 ==> le(out.last(), ss[t][0]),
            is_min_stream(ss, s),
            x == ss[s][0],
        ensures
            all_sorted(ss.update(s, ss[s].drop_first())),
            sorted(out.push(x)),
            forall|t: int| 0 <= t < ss.len() && #[trigger] ss.update(s, ss[s].drop_first())[t].len() > 0 ==> le(x, ss.update(s, ss[s].drop_first())[t][0]),
    {
        lemma_cmp_total::<T>();
        let ord = super::order::ord_of::<T>();
        let ss1 = ss.update(s, ss[s].drop_first());
        assert forall|t: int| 0 <= t < ss1.len() implies sorted(#[trigger] ss1[t]) by {
            assert(sorted(ss[t]));
            if t == s {
                assert forall|i: int, j: int| 0 <= i < j < ss1[t].len() implies #[trigger] le(ss1[t][i], ss1[t][j]) by {
                    assert(le(ss[t][i + 1], ss[t][j + 1]));
                }
            }
        }
        let o = out.push(x);
        assert forall|i: int, j: int| 0 <= i < j < o.len() implies #[trigger] le(o[i], o[j]) by {
            if j == o.len() - 1 {
                assert(le(out.last(), ss[s][0]));
                if i < out.len() - 1 {
                    assert(le(out[i], out.last()));
                    assert(super::order::le_by(ord, out[i], out.last()) && super::order::le_by(ord, out.last(), x));
                }
            } else {
                assert(le(out[i], out[j]));
            }
        }
        assert forall|t: int| 0 <= t < ss.len() && #[trigger] ss1[t].len() > 0 implies le(x, ss1[t][0]) by {
            if t == s {
                assert(le(ss[s][0], ss[s][1]));
            } else {
                assert(precedes(ss[s][0], s, ss[t][0], t));
                super::order::lemma_preorder_facts(ord, x, ss[t][0]);
            }
        }
    }

    /// Facts that survive reordering the heap's entries.
    proof fn lemma_permuted(ss: Seq<Seq<T>>, h0: Seq<MergeSource<T>>, h1: Seq<MergeSource<T>>, n: int)
        requires
            h1.to_multiset() == h0.to_multiset(),
            drawn_from(h1, h0, 0, n),
            h1.len() == h0.len(),
            n == h0.len(),
            forall|k: int| 0 <= k < h0.len() ==> #[trigger] describes(ss, h0[k]),
            forall|s: int| 0 <= s < ss.len() && #[trigger] ss[s].len() > 0 ==> exists|k: int|
                0 <= k < h0.len() && int_of(h0[k].source_id) == s,
            forall|v: usize| #[trigger] ids(h0).to_multiset().count(v) <= 1,
        ensures
            forall|k: int| 0 <= k < h1.len() ==> #[trigger] describes(ss, h1[k]),
            forall|s: int| 0 <= s < ss.len() && #[trigger] ss[s].len() > 0 ==> exists|k: int|
                0 <= k < h1.len() && int_of(h1[k].source_id) == s,
            forall|v: usize| #[trigger] ids(h1).to_multiset().count(v) <= 1,
    {
        lemma_map_multiset(h0, h1, id_fn::<T>());
        assert(ids(h1).to_multiset() == ids(h0).to_multiset());
        assert forall|v: usize| #[trigger] ids(h1).to_multiset().count(v) <= 1 by {
            assert(ids(h0).to_multiset().count(v) <= 1);
        }
        assert forall|k: int| 0 <= k < h1.len() implies #[trigger] describes(ss, h1[k]) by {
            assert(found_in(h0, 0, n, h1[k]));
        }
        assert forall|s: int| 0 <= s < ss.len() && #[trigger] ss[s].len() > 0 implies exists|k: int|
            0 <= k < h1.len() && int_of(h1[k].source_id) == s by {
            let k0 = choose|k: int| 0 <= k < h0.len() && int_of(h0[k].source_id) == s;
            vstd::seq_lib::to_multiset_contains(h0, h0[k0]);
            vstd::seq_lib::to_multiset_contains(h1, h0[k0]);
        }
    }
}

} // verus!
