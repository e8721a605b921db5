//! LRU cache: a `HashMap` from key to position plus a `VecDeque` of entries,
//! most recently used first.
//!
//! `get` and `put` move the entry to the front and rebuild the positions
//! (O(n), the price of a `VecDeque` over a linked list); once there are more
//! than `max_size` entries the least recently used ones fall off the back.
use vstd::prelude::*;
use vstd::std_specs::hash::obeys_key_model;
use std::collections::HashMap;
use std::collections::VecDeque;
use std::hash::Hash;
use crate::sort::order::{int_of, clone_faithful};

verus! {

broadcast use vstd::std_specs::hash::group_hash_axioms;

/// Cache of at most `max_size` entries, evicting the least recently used.
pub struct LRUCache<K: Eq + Hash + Clone, V> {
    map: HashMap<K, usize>,
    entries: VecDeque<(K, V)>,
    max_size: usize,
}

/// Keys behave as the hash-map model needs and clone to equal values.
pub open spec fn lawful_key<K: Clone>() -> bool {
    obeys_key_model::<K>() && clone_faithful::<K>()
}

/// `k` is the key of some entry of `s`.
pub open spec fn has_key<K, V>(s: Seq<(K, V)>, k: K) -> bool {
    exists|i: int| 0 <= i < s.len() && s[i].0 == k
}

/// Where `k` sits in `s` (meaningful when `has_key(s, k)`).
pub open spec fn position<K, V>(s: Seq<(K, V)>, k: K) -> int {
    choose|i: int| 0 <= i < s.len() && s[i].0 == k
}

/// No key occurs twice.
pub open spec fn keys_distinct<K, V>(s: Seq<(K, V)>) -> bool {
    forall|i: int, j: int| 0 <= i < s.len() && 0 <= j < s.len() && #[trigger] s[i].0 == #[trigger] s[j].0 ==> i == j
}

/// `s` cut down to its first `max` entries.
pub open spec fn trim<K, V>(s: Seq<(K, V)>, max: nat) -> Seq<(K, V)> {
    if s.len() > max { s.take(max as int) } else { s }
}

/// The entries after putting `k -> v`: the pair goes to the front, any
/// earlier entry for `k` goes, and the oldest entries beyond `max` fall off.
pub open spec fn after_put<K, V>(s: Seq<(K, V)>, k: K, v: V, max: nat) -> Seq<(K, V)> {
    let rest = if has_key(s, k) { s.remove(position(s, k)) } else { s };
    trim(seq![(k, v)] + rest, max)
}

/// The entries after touching the entry at `i`: it moves to the front.
pub open spec fn touch<K, V>(s: Seq<(K, V)>, i: int) -> Seq<(K, V)> {
    seq![s[i]] + s.remove(i)
}

/// A hit moves the entry to the front (most recently used); every other
/// entry keeps its place relative to the rest.
pub proof fn law_touch_moves_to_front<K, V>(s: Seq<(K, V)>, i: int)
    requires
        0 <= i < s.len(),
    ensures
        touch(s, i).len() == s.len(),
        touch(s, i)[0] == s[i],
        touch(s, i).drop_first() == s.remove(i),
        forall|j: int| 0 <= j < i ==> #[trigger] touch(s, i)[j + 1] == s[j],
        forall|j: int| i < j < s.len() ==> #[trigger] touch(s, i)[j] == s[j],
{
    assert(touch(s, i).drop_first() =~= s.remove(i));
}

/// A put makes the pair the most recently used entry, keeps the other
/// entries in recency order without the old entry for the key, and lets
/// only the least recently used ones fall off beyond capacity.
pub proof fn law_put_front_and_evict<K, V>(s: Seq<(K, V)>, k: K, v: V, max: nat, rest: Seq<(K, V)>)
    requires
        max > 0,
        has_key(s, k) ==> rest == s.remove(position(s, k)),
        !has_key(s, k) ==> rest == s,
    ensures
        after_put(s, k, v, max)[0] == (k, v),
        after_put(s, k, v, max).len() == if rest.len() + 1 > max { max } else { rest.len() + 1 },
        forall|j: int| 1 <= j < after_put(s, k, v, max).len() ==> #[trigger] after_put(s, k, v, max)[j] == rest[j - 1],
{
}

proof fn lemma_position<K, V>(s: Seq<(K, V)>, k: K, i: int)
    requires
        keys_distinct(s),
        0 <= i < s.len(),
        s[i].0 == k,
    ensures
        has_key(s, k),
        position(s, k) == i,
{
    let p = position(s, k);
    assert(s[p].0 == s[i].0);
}

proof fn lemma_front_distinct<K, V>(s: Seq<(K, V)>, e: (K, V))
    requires
        keys_distinct(s),
        !has_key(s, e.0),
    ensures
        keys_distinct(seq![e] + s),
{
    let t = seq![e] + s;
    assert forall|i: int, j: int| 0 <= i < t.len() && 0 <= j < t.len() && #[trigger] t[i].0 == #[trigger] t[j].0 implies i == j by {
        if i == 0 && j > 0 {
            assert(s[j - 1].0 == e.0);
        } else if j == 0 && i > 0 {
            assert(s[i - 1].0 == e.0);
        } else if i > 0 && j > 0 {
            assert(s[i - 1].0 == s[j - 1].0);
        }
    }
}

proof fn lemma_remove_distinct<K, V>(s: Seq<(K, V)>, p: int)
    requires
        keys_distinct(s),
        0 <= p < s.len(),
    ensures
        keys_distinct(s.remove(p)),
        !has_key(s.remove(p), s[p].0),
        forall|k: K| k != s[p].0 ==> (has_key(s.remove(p), k) <==> has_key(s, k)),
{
    let r = s.remove(p);
    assert forall|i: int, j: int| 0 <= i < r.len() && 0 <= j < r.len() && #[trigger] r[i].0 == #[trigger] r[j].0 implies i == j by {
        let a = if i < p { i } else { i + 1 };
        let b = if j < p { j } else { j + 1 };
        assert(r[i] == s[a] && r[j] == s[b]);
    }
    if has_key(r, s[p].0) {
        let i = choose|i: int| 0 <= i < r.len() && r[i].0 == s[p].0;
        let a = if i < p { i } else { i + 1 };
        assert(r[i] == s[a]);
    }
    assert forall|k: K| k != s[p].0 implies (has_key(r, k) <==> has_key(s, k)) by {
        if has_key(r, k) {
            let i = choose|i: int| 0 <= i < r.len() && r[i].0 == k;
            let a = if i < p { i } else { i + 1 };
            assert(r[i] == s[a]);
        }
        if has_key(s, k) {
            let a = choose|a: int| 0 <= a < s.len() && s[a].0 == k;
            let i = if a < p { a } else { a - 1 };
            assert(r[i] == s[a]);
        }
    }
}

impl<K: Eq + Hash + Clone, V> View for LRUCache<K, V> {
    type V = Seq<(K, V)>;

    /// The entries, most recently used first.
    closed spec fn view(&self) -> Seq<(K, V)> {
        self.entries@
    }
}

impl<K: Eq + Hash + Clone, V> LRUCache<K, V> {
    /// The position map matches the entries, keys are distinct, and there
    /// are at most `max_size` entries.
    pub closed spec fn wf(&self) -> bool {
        &&& self.indexed()
        &&& self.entries@.len() <= self.max_size
    }

    /// The position map matches the entries and keys are distinct.
    spec fn indexed(&self) -> bool {
        let s = self.entries@;
        &&& keys_distinct(s)
        &&& forall|j: int| 0 <= j < s.len() ==> #[trigger] self.map@.contains_key(s[j].0) && self.map@[s[j].0] == j
        &&& forall|k: K| #[trigger] self.map@.contains_key(k) ==> has_key(s, k)
    }

    /// The most entries kept.
    pub closed spec fn capacity(&self) -> nat {
        self.max_size as nat
    }

    /// A cache never holds more entries than its capacity, and no key twice.
    pub proof fn lemma_bounded(&self)
        requires
            self.wf(),
        ensures
            self@.len() <= self.capacity(),
            keys_distinct(self@),
    {
    }

    /// An empty cache that keeps at most `max_size` entries.
    pub fn new(max_size: usize) -> (c: Self)
        requires
            lawful_key::<K>(),
        ensures
            c.wf(),
            c@ == Seq::<(K, V)>::empty(),
            c.capacity() == max_size,
    {
        let c = LRUCache { map: HashMap::new(), entries: VecDeque::new(), max_size };
        assert(c.map@ =~= Map::<K, usize>::empty());
        c
    }

    /// Rebuilds the position map from the entries.  O(n).
    fn rebuild_indices(&mut self)
        requires
            lawful_key::<K>(),
            keys_distinct(old(self).entries@),
        ensures
            final(self).indexed(),
            final(self).entries@ == old(self).entries@,
            final(self).max_size == old(self).max_size,
    {
        self.map.clear();
        let n = self.entries.len();
        let mut i: usize = 0;
        while i < n
            invariant
                lawful_key::<K>(),
                n == self.entries@.len(),
                self.entries@ == old(self).entries@,
                self.max_size == old(self).max_size,
                keys_distinct(self.entries@),
                i <= n,
                forall|j: int| 0 <= j < i ==> #[trigger] self.map@.contains_key(self.entries@[j].0) && self.map@[self.entries@[j].0] == j,
                forall|k: K| #[trigger] self.map@.contains_key(k) ==> exists|j: int| 0 <= j < i && self.entries@[j].0 == k,
            decreases n - i,
        {
            let k = self.entries[i].0.clone();
            let ghost m0 = self.map@;
            self.map.insert(k, i);
            proof {
                let s = self.entries@;
                assert forall|j: int| 0 <= j < i + 1 implies #[trigger] self.map@.contains_key(s[j].0) && self.map@[s[j].0] == j by {
                    if j < i {
                        assert(s[j].0 != s[int_of(i)].0);
                        assert(m0.contains_key(s[j].0));
                    }
                }
                assert forall|k2: K| #[trigger] self.map@.contains_key(k2) implies exists|j: int| 0 <= j < i + 1 && s[j].0 == k2 by {
                    if k2 != s[int_of(i)].0 {
                        assert(m0.contains_key(k2));
                        let j = choose|j: int| 0 <= j < i && s[j].0 == k2;
                    } else {
                        assert(s[int_of(i)].0 == k2);
                    }
                }
            }
            i = i + 1;
        }
        proof {
            let s = self.entries@;
            assert forall|k: K| #[trigger] self.map@.contains_key(k) implies has_key(s, k) by {
                let j = choose|j: int| 0 <= j < i && s[j].0 == k;
            }
            assert(keys_distinct(s));
            assert(i == n);
            assert forall|j: int| 0 <= j < s.len() implies #[trigger] self.map@.contains_key(s[j].0) && self.map@[s[j].0] == j by {
                assert(j < i);
            }
        }
    }

    /// Drops entries from the back until at most `max_size` remain.
    fn evict(&mut self)
        requires
            lawful_key::<K>(),
            old(self).indexed(),
        ensures
            final(self).wf(),
            final(self).entries@ == trim(old(self).entries@, old(self).max_size as nat),
            final(self).max_size == old(self).max_size,
    {
        while self.entries.len() > self.max_size
            invariant
                lawful_key::<K>(),
                self.indexed(),
                self.max_size == old(self).max_size,
                self.entries@ == if old(self).entries@.len() > self.max_size {
                    old(self).entries@.take(self.entries@.len() as int)
                } else {
                    old(self).entries@
                },
                self.entries@.len() >= self.max_size || old(self).entries@.len() <= self.max_size,
                self.entries@.len() <= old(self).entries@.len(),
            decreases self.entries@.len(),
        {
            let ghost s0 = self.entries@;
            let ghost m0 = self.map@;
            assert(self.indexed());
            assert(keys_distinct(s0));
            assert forall|j: int| 0 <= j < s0.len() implies #[trigger] m0.contains_key(s0[j].0) && m0[s0[j].0] == j by {
                assert(self.indexed());
                assert(self.map@.contains_key(self.entries@[j].0));
            }
            match self.entries.pop_back() {
                Some(e) => {
                    self.map.remove(&e.0);
                    proof {
                        let s = self.entries@;
                        assert(s =~= s0.take(s0.len() - 1));
                        assert forall|j: int| 0 <= j < s.len() implies #[trigger] self.map@.contains_key(s[j].0) && self.map@[s[j].0] == j by {
                            assert(s[j] == s0[j]);
                            assert(s0[j].0 != s0[s0.len() - 1].0);
                            assert(m0.contains_key(s0[j].0) && m0[s0[j].0] == j);
                            assert(self.map@ == m0.remove(e.0));
                        }
                        assert forall|k: K| #[trigger] self.map@.contains_key(k) implies has_key(s, k) by {
                            assert(m0.contains_key(k));
                            let j = choose|j: int| 0 <= j < s0.len() && s0[j].0 == k;
                            assert(j != s0.len() - 1);
                            assert(s[j] == s0[j]);
                        }
                        assert(keys_distinct(s)) by {
                            assert forall|i: int, j: int| 0 <= i < s.len() && 0 <= j < s.len() && #[trigger] s[i].0 == #[trigger] s[j].0 implies i == j by {
                                assert(s[i] == s0[i] && s[j] == s0[j]);
                            }
                        }
                        if old(self).entries@.len() > self.max_size {
                            let o = old(self).entries@;
                            assert(s0 == o.take(s0.len() as int));
                            assert forall|q: int| 0 <= q < s.len() implies s[q] == o.take(s.len() as int)[q] by {
                                assert(s[q] == s0[q]);
                            }
                            assert(s =~= o.take(s.len() as int));
                        }
                    }
                },
                None => {},
            }
        }
        proof {
            if old(self).entries@.len() > self.max_size {
                assert(self.entries@.len() == self.max_size);
            }
        }
    }

    /// The value for `key`, if present; the entry becomes the most recently
    /// used.  A miss changes nothing.
    pub fn get(&mut self, key: &K) -> (r: Option<&V>)
        requires
            lawful_key::<K>(),
            old(self).wf(),
        ensures
            final(self).wf(),
            final(self).capacity() == old(self).capacity(),
            has_key(old(self)@, *key) ==> {
                let i = position(old(self)@, *key);
                &&& r == Some(&old(self)@[i].1)
                &&& final(self)@ == touch(old(self)@, i)
                &&& final(self)@.len() == old(self)@.len()
                &&& final(self)@[0] == old(self)@[i]
                &&& final(self)@.drop_first() == old(self)@.remove(i)
            },
            !has_key(old(self)@, *key) ==> r is None && final(self)@ == old(self)@,
    {
        let found = self.map.get(key);
        match found {
            None => {
                proof {
                    if has_key(self.entries@, *key) {
                        let j = choose|j: int| 0 <= j < self.entries@.len() && self.entries@[j].0 == *key;
                        assert(self.map@.contains_key(self.entries@[j].0));
                    }
                }
                None
            },
            Some(ip) => {
                let idx = *ip;
                let ghost s0 = self.entries@;
                proof {
                    assert(self.map@.contains_key(*key) && self.map@[*key] == idx);
                    let j = choose|j: int| 0 <= j < s0.len() && s0[j].0 == *key;
                    assert(self.map@[s0[j].0] == j);
                    lemma_position(s0, *key, int_of(idx));
                    lemma_remove_distinct(s0, int_of(idx));
                }
                let entry = self.entries.remove(idx).unwrap();
                let ghost e = entry;
                self.entries.push_front(entry);
                proof {
                    lemma_front_distinct(s0.remove(int_of(idx)), e);
                    assert(self.entries@ =~= touch(s0, int_of(idx)));
                }
                self.rebuild_indices();
                Some(&self.entries[0].1)
            },
        }
    }

    /// Puts `key -> value` at the front, dropping any earlier entry for
    /// `key`, then evicts from the back down to `max_size` entries.
    pub fn put(&mut self, key: K, value: V)
        requires
            lawful_key::<K>(),
            old(self).wf(),
        ensures
            final(self).wf(),
            final(self).capacity() == old(self).capacity(),
            final(self)@ == after_put(old(self)@, key, value, old(self).capacity()),
    {
        let ghost s0 = self.entries@;
        let found = self.map.get(&key);
        match found {
            Some(ip) => {
                let idx = *ip;
                proof {
                    assert(self.map@.contains_key(key) && self.map@[key] == idx);
                    let j = choose|j: int| 0 <= j < s0.len() && s0[j].0 == key;
                    assert(self.map@[s0[j].0] == j);
                    lemma_position(s0, key, int_of(idx));
                    lemma_remove_distinct(s0, int_of(idx));
                }
                self.entries.remove(idx);
            },
            None => {
                proof {
                    if has_key(s0, key) {
                        let j = choose|j: int| 0 <= j < s0.len() && s0[j].0 == key;
                        assert(self.map@.contains_key(s0[j].0));
                    }
                }
            },
        }
        let ghost rest = self.entries@;
        let k2 = key.clone();
        proof {
            assert(k2 == key);
        }
        self.entries.push_front((k2, value));
        proof {
            lemma_front_distinct(rest, (key, value));
            assert(self.entries@ =~= seq![(key, value)] + rest);
        }
        self.rebuild_indices();
        self.evict();
    }

    /// Whether `key` has an entry.  Does not count as a use.
    pub fn contains(&self, key: &K) -> (r: bool)
        requires
            lawful_key::<K>(),
            self.wf(),
        ensures
            r == has_key(self@, *key),
    {
        let r = self.map.contains_key(key);
        proof {
            if has_key(self.entries@, *key) {
                let j = choose|j: int| 0 <= j < self.entries@.len() && self.entries@[j].0 == *key;
                assert(self.map@.contains_key(self.entries@[j].0));
            }
        }
        r
    }

    /// Number of entries.
    pub fn len(&self) -> (n: usize)
        ensures
            n == self@.len(),
    {
        self.entries.len()
    }

    /// No entries.
    pub fn is_empty(&self) -> (b: bool)
        ensures
            b == (self@.len() == 0),
    {
        self.entries.len() == 0
    }
}

} // verus!
