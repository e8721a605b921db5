//! GROUP BY with a SUM accumulator.  Blocking: `open` drains the child into
//! a hash table keyed by group; `get_next` then yields one sum per group,
//! in ascending order of the group key.
use vstd::prelude::*;
use vstd::std_specs::hash::group_hash_axioms;
use std::collections::HashMap;
use super::stages::{PlanState, Stage, apply, lawful_fn};
use crate::sort::order::int_of;

verus! {

broadcast use group_hash_axioms;

/// The group keys that occur among `rows`.
pub open spec fn key_set<K: Fn(i64) -> i64>(rows: Seq<i64>, key_fn: K) -> Set<i64> {
    Set::new(|k: i64| exists|i: int| 0 <= i < rows.len() && apply(key_fn, #[trigger] rows[i]) == k)
}

/// The sum of the values of the rows of group `key`.
pub open spec fn group_sum<K: Fn(i64) -> i64, V: Fn(i64) -> i64>(rows: Seq<i64>, key_fn: K, val_fn: V, key: i64) -> int
    decreases rows.len(),
{
    if rows.len() == 0 {
        0
    } else {
        group_sum(rows.drop_last(), key_fn, val_fn, key) + if apply(key_fn, rows.last()) == key {
            apply(val_fn, rows.last()) as int
        } else {
            0
        }
    }
}

/// Strictly ascending.
pub open spec fn ascending(ks: Seq<i64>) -> bool {
    forall|i: int, j: int| 0 <= i < j < ks.len() ==> ks[i] < ks[j]
}

/// The group keys of `rows` in ascending order.
pub open spec fn sorted_keys<K: Fn(i64) -> i64>(rows: Seq<i64>, key_fn: K) -> Seq<i64> {
    choose|ks: Seq<i64>| ascending(ks) && ks.to_set() == key_set(rows, key_fn)
}

/// One `(key, sum)` pair per group of `rows`, in ascending key order.
pub open spec fn groups_of<K: Fn(i64) -> i64, V: Fn(i64) -> i64>(rows: Seq<i64>, key_fn: K, val_fn: V) -> Seq<(i64, i64)> {
    sorted_keys(rows, key_fn).map_values(|k: i64| (k, group_sum(rows, key_fn, val_fn, k) as i64))
}

/// Every running sum of every group, row by row, fits in an `i64`.
pub open spec fn sums_fit<K: Fn(i64) -> i64, V: Fn(i64) -> i64>(rows: Seq<i64>, key_fn: K, val_fn: V) -> bool {
    forall|n: int, key: i64| 0 <= n <= rows.len() ==> i64::MIN <= #[trigger] group_sum(rows.take(n), key_fn, val_fn, key) <= i64::MAX
}

/// The sums of `groups`, in order.
pub open spec fn sums(groups: Seq<(i64, i64)>) -> Seq<i64> {
    groups.map_values(|g: (i64, i64)| g.1)
}

/// A key that no row has sums to zero.
proof fn lemma_group_sum_absent<K: Fn(i64) -> i64, V: Fn(i64) -> i64>(rows: Seq<i64>, key_fn: K, val_fn: V, key: i64)
    requires
        !key_set(rows, key_fn).contains(key),
    ensures
        group_sum(rows, key_fn, val_fn, key) == 0,
    decreases rows.len(),
{
    if rows.len() > 0 {
        let init = rows.drop_last();
        assert(apply(key_fn, rows[rows.len() - 1]) != key);
        assert forall|i: int| 0 <= i < init.len() implies apply(key_fn, #[trigger] init[i]) != key by {
            assert(init[i] == rows[i]);
        }
        lemma_group_sum_absent(init, key_fn, val_fn, key);
    }
}

/// Two ascending sequences with the same elements are equal.
proof fn lemma_ascending_unique(a: Seq<i64>, b: Seq<i64>)
    requires
        ascending(a),
        ascending(b),
        a.to_set() == b.to_set(),
    ensures
        a == b,
    decreases a.len(),
{
    if a.len() == 0 {
        if b.len() > 0 {
            assert(b.to_set().contains(b[0]));
        }
    } else {
        assert(a.to_set().contains(a[0]));
        assert(b.to_set().contains(a[0]));
        assert(b.to_set().contains(b[0]));
        assert(a.to_set().contains(b[0]));
        let i = choose|i: int| 0 <= i < b.len() && b[i] == a[0];
        let j = choose|j: int| 0 <= j < a.len() && a[j] == b[0];
        assert(a[0] == b[0]);
        let a1 = a.drop_first();
        let b1 = b.drop_first();
        assert forall|x: i64| a1.to_set().contains(x) <==> b1.to_set().contains(x) by {
            if a1.to_set().contains(x) {
                let p = choose|p: int| 0 <= p < a1.len() && a1[p] == x;
                assert(a[p + 1] == x);
                assert(b.to_set().contains(x));
                let q = choose|q: int| 0 <= q < b.len() && b[q] == x;
                assert(q != 0);
                assert(b1[q - 1] == x);
            }
            if b1.to_set().contains(x) {
                let p = choose|p: int| 0 <= p < b1.len() && b1[p] == x;
                assert(b[p + 1] == x);
                assert(a.to_set().contains(x));
                let q = choose|q: int| 0 <= q < a.len() && a[q] == x;
                assert(q != 0);
                assert(a1[q - 1] == x);
            }
        }
        assert(a1.to_set() =~= b1.to_set());
        lemma_ascending_unique(a1, b1);
        assert(a =~= seq![a[0]] + a1);
        assert(b =~= seq![b[0]] + b1);
    }
}

/// Drains `child` and groups its rows: one `(key, sum)` pair per group, in
/// ascending key order.  O(n) expected, plus O(g) per new group.
pub(crate) fn group_rows<C: Stage, K: Fn(i64) -> i64, V: Fn(i64) -> i64>(
    child: &mut C,
    key_fn: &K,
    val_fn: &V,
) -> (groups: Vec<(i64, i64)>)
    requires
        old(child).inv(),
        old(child).pending() == old(child).produced(),
        lawful_fn(*key_fn),
        lawful_fn(*val_fn),
        sums_fit(old(child).produced(), *key_fn, *val_fn),
    ensures
        final(child).inv(),
        final(child).produced() == old(child).produced(),
        groups@ == groups_of(old(child).produced(), *key_fn, *val_fn),
        ascending(sorted_keys(old(child).produced(), *key_fn)),
        sorted_keys(old(child).produced(), *key_fn).to_set() == key_set(old(child).produced(), *key_fn),
{
    let ghost rows = child.produced();
    let mut map: HashMap<i64, i64> = HashMap::new();
    let mut keys: Vec<i64> = Vec::new();
    let ghost mut n: int = 0;
    loop
        invariant
            child.inv(),
            child.produced() == rows,
            lawful_fn(*key_fn),
            lawful_fn(*val_fn),
            sums_fit(rows, *key_fn, *val_fn),
            0 <= n <= rows.len(),
            child.pending() == rows.skip(n),
            ascending(keys@),
            keys@.to_set() == key_set(rows.take(n), *key_fn),
            map@.dom() == keys@.to_set(),
            forall|k: i64| #[trigger] map@.contains_key(k) ==> map@[k] == group_sum(rows.take(n), *key_fn, *val_fn, k),
        ensures
            child.inv(),
            child.produced() == rows,
            ascending(keys@),
            keys@.to_set() == key_set(rows, *key_fn),
            map@.dom() == keys@.to_set(),
            forall|k: i64| #[trigger] map@.contains_key(k) ==> map@[k] == group_sum(rows, *key_fn, *val_fn, k),
        decreases rows.len() - n,
    {
        match child.get_next() {
            (PlanState::Advanced, Some(row)) => {
                let key = key_fn(row);
                let val = val_fn(row);
                let ghost before = rows.take(n);
                let ghost after = rows.take(n + 1);
                proof {
                    assert(row == rows[n]);
                    assert(after.drop_last() =~= before);
                    assert(after.last() == row);
                    assert(group_sum(after, *key_fn, *val_fn, key) == group_sum(before, *key_fn, *val_fn, key) + val);
                    assert(key_set(after, *key_fn) =~= key_set(before, *key_fn).insert(key)) by {
                        assert forall|k: i64| key_set(after, *key_fn).contains(k) implies k == key || key_set(before, *key_fn).contains(k) by {
                            let i = choose|i: int| 0 <= i < after.len() && apply(*key_fn, #[trigger] after[i]) == k;
                            if i < n {
                                assert(before[i] == after[i]);
                            }
                        }
                        assert forall|k: i64| key_set(before, *key_fn).contains(k) implies key_set(after, *key_fn).contains(k) by {
                            let i = choose|i: int| 0 <= i < before.len() && apply(*key_fn, #[trigger] before[i]) == k;
                            assert(after[i] == before[i]);
                        }
                        assert(after[n] == row);
                    }
                    assert forall|k: i64| k != key implies #[trigger] group_sum(after, *key_fn, *val_fn, k) == group_sum(before, *key_fn, *val_fn, k) by {
                    }
                    assert(i64::MIN <= group_sum(after, *key_fn, *val_fn, key) <= i64::MAX);
                }
                let cur: i64 = match map.get(&key) {
                    Some(v) => *v,
                    None => {
                        let mut pos: usize = 0;
                        while pos < keys.len() && keys[pos] < key
                            invariant
                                pos <= keys@.len(),
                                forall|q: int| 0 <= q < pos ==> keys@[q] < key,
                            decreases keys@.len() - pos,
                        {
                            pos = pos + 1;
                        }
                        let ghost old_keys = keys@;
                        proof {
                            assert(!old_keys.to_set().contains(key));
                            if pos < old_keys.len() {
                                assert(old_keys[int_of(pos)] != key);
                            }
                        }
                        keys.insert(pos, key);
                        proof {
                            assert(keys@ =~= old_keys.take(int_of(pos)).push(key) + old_keys.skip(int_of(pos)));
                            assert forall|i: int, j: int| 0 <= i < j < keys@.len() implies keys@[i] < keys@[j] by {
                                if j < pos {
                                } else if j == pos {
                                } else if i < pos {
                                    assert(keys@[j] == old_keys[j - 1]);
                                    if pos < old_keys.len() {
                                        assert(old_keys[int_of(pos)] > key);
                                    }
                                } else if i == pos {
                                    assert(keys@[j] == old_keys[j - 1]);
                                    assert(old_keys[int_of(pos)] > key);
                                } else {
                                    assert(keys@[j] == old_keys[j - 1]);
                                    assert(keys@[i] == old_keys[i - 1]);
                                }
                            }
                            assert(keys@.to_set() =~= old_keys.to_set().insert(key)) by {
                                assert forall|x: i64| keys@.to_set().contains(x) implies old_keys.to_set().insert(key).contains(x) by {
                                    let i = choose|i: int| 0 <= i < keys@.len() && keys@[i] == x;
                                    if i < pos {
                                        assert(old_keys[i] == x);
                                    } else if i > pos {
                                        assert(old_keys[i - 1] == x);
                                    }
                                }
                                assert forall|x: i64| old_keys.to_set().insert(key).contains(x) implies keys@.to_set().contains(x) by {
                                    if x == key {
                                        assert(keys@[int_of(pos)] == key);
                                    } else {
                                        let i = choose|i: int| 0 <= i < old_keys.len() && old_keys[i] == x;
                                        if i < pos {
                                            assert(keys@[i] == x);
                                        } else {
                                            assert(keys@[i + 1] == x);
                                        }
                                    }
                                }
                            }
                        }
                        0
                    },
                };
                proof {
                    if !map@.contains_key(key) {
                        lemma_group_sum_absent(before, *key_fn, *val_fn, key);
                    }
                }
                let ghost old_map = map@;
                map.insert(key, cur + val);
                proof {
                    assert forall|k: i64| #[trigger] map@.contains_key(k) implies map@[k] == group_sum(after, *key_fn, *val_fn, k) by {
                        if k != key {
                            assert(old_map.contains_key(k));
                            assert(group_sum(after, *key_fn, *val_fn, k) == group_sum(before, *key_fn, *val_fn, k));
                        }
                    }
                    n = n + 1;
                    assert(child.pending() =~= rows.skip(n));
                    assert(map@.dom() =~= keys@.to_set());
                }
            },
            _ => {
                proof {
                    assert(rows.skip(n).len() == 0);
                    assert(rows.take(n) =~= rows);
                }
                break;
            },
        }
    }
    let ghost ks = keys@;
    proof {
        assert(ks == sorted_keys(rows, *key_fn)) by {
            let other = sorted_keys(rows, *key_fn);
            assert(ascending(other) && other.to_set() == key_set(rows, *key_fn));
            lemma_ascending_unique(ks, other);
        }
    }
    let mut groups: Vec<(i64, i64)> = Vec::new();
    let mut i: usize = 0;
    while i < keys.len()
        invariant
            keys@ == ks,
            ks == sorted_keys(rows, *key_fn),
            map@.dom() == ks.to_set(),
            forall|k: i64| #[trigger] map@.contains_key(k) ==> map@[k] == group_sum(rows, *key_fn, *val_fn, k),
            i <= ks.len(),
            groups@ == groups_of(rows, *key_fn, *val_fn).take(int_of(i)),
        decreases ks.len() - i,
    {
        let k = keys[i];
        assert(ks.to_set().contains(k));
        let s: i64 = match map.get(&k) {
            Some(v) => *v,
            None => 0,
        };
        groups.push((k, s));
        proof {
            assert(groups@ =~= groups_of(rows, *key_fn, *val_fn).take(i + 1));
        }
        i = i + 1;
    }
    proof {
        assert(groups@ =~= groups_of(rows, *key_fn, *val_fn));
    }
    groups
}


/// GROUP BY over `child`: key of a row by `key_fn`, value by `val_fn`;
/// yields the sum of each group, in ascending key order.
pub struct HashAggStage<C: Stage, K: Fn(i64) -> i64, V: Fn(i64) -> i64> {
    child: C,
    key_fn: K,
    val_fn: V,
    groups: Vec<(i64, i64)>,
    idx: usize,
}

impl<C: Stage, K: Fn(i64) -> i64, V: Fn(i64) -> i64> HashAggStage<C, K, V> {
    /// An aggregation over `child`; nothing is read before `open`.  O(1).
    pub fn new(child: C, key_fn: K, val_fn: V) -> (s: Self)
        requires
            child.inv(),
            lawful_fn(key_fn),
            lawful_fn(val_fn),
            sums_fit(child.produced(), key_fn, val_fn),
        ensures
            s.inv(),
            s.produced() == sums(groups_of(child.produced(), key_fn, val_fn)),
            s.pending() == Seq::<i64>::empty(),
    {
        HashAggStage { child, key_fn, val_fn, groups: Vec::new(), idx: 0 }
    }
}

impl<C: Stage, K: Fn(i64) -> i64, V: Fn(i64) -> i64> Stage for HashAggStage<C, K, V> {
    closed spec fn produced(&self) -> Seq<i64> {
        sums(groups_of(self.child.produced(), self.key_fn, self.val_fn))
    }

    closed spec fn pending(&self) -> Seq<i64> {
        if self.idx < self.groups@.len() {
            sums(self.groups@.skip(self.idx as int))
        } else {
            Seq::empty()
        }
    }

    closed spec fn inv(&self) -> bool {
        &&& self.child.inv()
        &&& lawful_fn(self.key_fn)
        &&& lawful_fn(self.val_fn)
        &&& sums_fit(self.child.produced(), self.key_fn, self.val_fn)
        &&& (self.groups@.len() == 0 || self.groups@ == groups_of(self.child.produced(), self.key_fn, self.val_fn))
    }

    /// Closing drops the groups; the child was closed when they were built.
    closed spec fn closes_into(&self, after: &Self) -> bool {
        &&& after.child == self.child
        &&& after.key_fn == self.key_fn
        &&& after.val_fn == self.val_fn
        &&& after.groups@.len() == 0
        &&& after.idx == self.idx
    }

    fn open(&mut self, re_open: bool) {
        self.child.open(re_open);
        let groups = group_rows(&mut self.child, &self.key_fn, &self.val_fn);
        self.child.close();
        self.groups = groups;
        self.idx = 0;
        proof {
            assert(self.groups@.skip(0) =~= self.groups@);
        }
    }

    fn get_next(&mut self) -> (r: (PlanState, Option<i64>)) {
        if self.idx >= self.groups.len() {
            return (PlanState::Eof, None);
        }
        let (_, sum) = self.groups[self.idx];
        self.idx = self.idx + 1;
        proof {
            let g = old(self).groups@.skip(old(self).idx as int);
            assert(g.drop_first() =~= self.groups@.skip(self.idx as int));
            assert(sums(g).drop_first() =~= sums(g.drop_first()));
        }
        (PlanState::Advanced, Some(sum))
    }

    fn close(&mut self) {
        self.groups.clear();
    }
}
} // verus!
