//! Open-addressing hash map with linear probing over a flat `Vec` of slots.
//!
//! Capacity is a power of two so that `hash & (capacity - 1)` picks the home
//! slot.  Deleted entries become tombstones: lookups walk past them,
//! inserts reuse the first one they pass.  The table grows (and drops its
//! tombstones) once live entries plus tombstones reach 75% of capacity.
//!
//! Hashing goes through the map's `BuildHasher`.  What a hasher returns is
//! outside this library, so the operations that do the work take the hash
//! value as an argument (`*_hashed`) and are specified for every hash value;
//! `insert`, `get` and `remove` hash the key and state what holds whatever
//! hash came back.  A key that is absent is handled exactly whatever the
//! hash; a key that is present is found when the hash agrees with the one it
//! was placed with.  Inserting or removing one key keeps that agreement for
//! every other key (an insert that grows the table hashes every key again),
//! so a caller that hands each key the same hash every time gets exact map
//! behaviour from the `*_hashed` operations.  The map also remembers the
//! first hash its hasher gave each key (`first_hash`) and whether every later
//! hash agreed (`steady`); while that holds, `insert` and `remove` are exact
//! for present keys too, growth included.
use vstd::prelude::*;
use vstd::laws_eq::obeys_concrete_eq;
use vstd::arithmetic::power2::pow2;
use std::collections::hash_map::RandomState;
use std::hash::{BuildHasher, Hash};
use super::bloom_filter::compute_hash;
use vstd::std_specs::cmp::PartialEqSpec;
use crate::sort::order::{int_of, nat_int, nat_of};

verus! {

/// One occupied slot: a live entry, or a tombstone when `deleted`.
struct Slot<K, V> {
    key: K,
    value: V,
    deleted: bool,
}

/// Hash map with open addressing and linear probing.
#[verifier::reject_recursive_types(K)]
pub struct HashMap<K, V, S = RandomState> {
    slots: Vec<Option<Slot<K, V>>>,
    len: usize,
    tombstone_count: usize,
    hash_builder: S,
    /// The hash each occupied slot's key was placed with.
    homes: Ghost<Seq<usize>>,
    /// The first hash the hasher gave each key this map hashed.
    seen: Ghost<Map<K, usize>>,
    /// Every later hash of a key so far equalled the first.
    steady: Ghost<bool>,
}

/// `==` on `K` is identity.
pub open spec fn lawful_eq<K: PartialEq>() -> bool {
    obeys_concrete_eq::<K>()
}

/// Slot `o` holds a live entry.
spec fn is_live<K, V>(o: Option<Slot<K, V>>) -> bool {
    match o {
        Some(sl) => !sl.deleted,
        None => false,
    }
}

/// The key of an occupied slot.
spec fn key_of<K, V>(o: Option<Slot<K, V>>) -> K {
    o.unwrap().key
}

/// The value of an occupied slot.
spec fn value_of<K, V>(o: Option<Slot<K, V>>) -> V {
    o.unwrap().value
}

/// The live entries of `s`; where a key is live twice the later slot wins.
spec fn view_of<K, V>(s: Seq<Option<Slot<K, V>>>) -> Map<K, V>
    decreases s.len(),
{
    if s.len() == 0 {
        Map::empty()
    } else {
        let m = view_of(s.drop_last());
        if is_live(s.last()) {
            m.insert(key_of(s.last()), value_of(s.last()))
        } else {
            m
        }
    }
}

/// Number of live slots.
spec fn count_live<K, V>(s: Seq<Option<Slot<K, V>>>) -> nat
    decreases s.len(),
{
    if s.len() == 0 {
        0
    } else {
        count_live(s.drop_last()) + if is_live(s.last()) { 1nat } else { 0nat }
    }
}

/// Number of occupied slots (live or tombstone).
spec fn count_occupied<K, V>(s: Seq<Option<Slot<K, V>>>) -> nat
    decreases s.len(),
{
    if s.len() == 0 {
        0
    } else {
        count_occupied(s.drop_last()) + if s.last() is Some { 1nat } else { 0nat }
    }
}

/// No key is live in two slots.
spec fn keys_unique<K, V>(s: Seq<Option<Slot<K, V>>>) -> bool {
    forall|i: int, j: int|
        0 <= i < s.len() && 0 <= j < s.len() && is_live(#[trigger] s[i]) && is_live(#[trigger] s[j])
            && key_of(s[i]) == key_of(s[j]) ==> i == j
}

/// Position `t` steps along the probe sequence that starts at `start`.
pub open spec fn probe_at(start: int, t: int, n: int) -> int {
    (start + t) % n
}

/// How many steps from `home` slot `i` lies.
pub open spec fn dist(home: int, i: int, n: int) -> int {
    (i - home + n) % n
}

/// Every slot on the probe path from the home of slot `i` up to `i` is occupied.
spec fn chain_ok<K, V>(s: Seq<Option<Slot<K, V>>>, homes: Seq<usize>, i: int) -> bool {
    let n = s.len() as int;
    let home = homes[i] as int % n;
    forall|t: int| 0 <= t < dist(home, i, n) ==> (#[trigger] s[probe_at(home, t, n)]) is Some
}

/// `n` is a power of two.
pub open spec fn is_pow2(n: usize) -> bool {
    exists|k: nat| pow2(k) == n
}

/// `n - 1` for positive `n`.
pub open spec fn sub1(n: usize) -> usize {
    (n - 1) as usize
}

/// Largest table the map grows to.
pub open spec fn max_slots() -> nat {
    (usize::MAX / 4) as nat
}

/// Largest capacity a map can be asked for, and the largest table that
/// may still grow.
pub open spec fn max_request() -> nat {
    (usize::MAX / 8) as nat
}

pub(crate) proof fn lemma_mask(h: usize, n: usize)
    requires
        is_pow2(n),
    ensures
        h & sub1(n) == h % n,
{
    let k = choose|k: nat| pow2(k) == n;
    vstd::arithmetic::power2::lemma2_to64();
    if k >= usize::BITS {
        if k > usize::BITS {
            vstd::arithmetic::power2::lemma_pow2_strictly_increases(usize::BITS as nat, k);
        }
        assert(false);
    }
    vstd::bits::lemma_usize_low_bits_mask_is_mod(h, k);
    vstd::arithmetic::power2::lemma_pow2_pos(k);
    assert(vstd::bits::low_bits_mask(k) == n - 1);
    assert(vstd::bits::low_bits_mask(k) as usize == sub1(n));
    assert(pow2(k) as usize == n);
}

/// Live-key lookup in the spec view.
proof fn lemma_view_contains<K, V>(s: Seq<Option<Slot<K, V>>>, k: K)
    ensures
        view_of(s).contains_key(k) <==> exists|i: int| 0 <= i < s.len() && is_live(s[i]) && key_of(s[i]) == k,
    decreases s.len(),
{
    if s.len() > 0 {
        lemma_view_contains(s.drop_last(), k);
        if view_of(s).contains_key(k) {
            if is_live(s.last()) && key_of(s.last()) == k {
                assert(is_live(s[s.len() - 1]));
            } else {
                let i = choose|i: int| 0 <= i < s.drop_last().len() && is_live(s.drop_last()[i]) && key_of(s.drop_last()[i]) == k;
                assert(s[i] == s.drop_last()[i]);
            }
        }
        if exists|i: int| 0 <= i < s.len() && is_live(s[i]) && key_of(s[i]) == k {
            let i = choose|i: int| 0 <= i < s.len() && is_live(s[i]) && key_of(s[i]) == k;
            if i < s.len() - 1 {
                assert(s.drop_last()[i] == s[i]);
            }
        }
    }
}

/// With unique keys, the view maps each live key to its slot's value.
proof fn lemma_view_value<K, V>(s: Seq<Option<Slot<K, V>>>, i: int)
    requires
        keys_unique(s),
        0 <= i < s.len(),
        is_live(s[i]),
    ensures
        view_of(s).contains_key(key_of(s[i])),
        view_of(s)[key_of(s[i])] == value_of(s[i]),
    decreases s.len(),
{
    let d = s.drop_last();
    if i < s.len() - 1 {
        assert(d[i] == s[i]);
        assert(keys_unique(d)) by {
            assert forall|a: int, b: int|
                0 <= a < d.len() && 0 <= b < d.len() && is_live(#[trigger] d[a]) && is_live(#[trigger] d[b])
                    && key_of(d[a]) == key_of(d[b]) implies a == b by {
                assert(s[a] == d[a] && s[b] == d[b]);
            }
        }
        lemma_view_value(d, i);
        if is_live(s.last()) {
            assert(key_of(s[s.len() - 1]) != key_of(s[i]));
        }
    }
}

/// With unique keys, the view has as many keys as there are live slots.
proof fn lemma_view_len<K, V>(s: Seq<Option<Slot<K, V>>>)
    requires
        keys_unique(s),
    ensures
        view_of(s).dom().finite(),
        view_of(s).dom().len() == count_live(s),
    decreases s.len(),
{
    if s.len() > 0 {
        let d = s.drop_last();
        assert(keys_unique(d)) by {
            assert forall|a: int, b: int|
                0 <= a < d.len() && 0 <= b < d.len() && is_live(#[trigger] d[a]) && is_live(#[trigger] d[b])
                    && key_of(d[a]) == key_of(d[b]) implies a == b by {
                assert(s[a] == d[a] && s[b] == d[b]);
            }
        }
        lemma_view_len(d);
        if is_live(s.last()) {
            lemma_view_contains(d, key_of(s.last()));
            if view_of(d).contains_key(key_of(s.last())) {
                let i = choose|i: int| 0 <= i < d.len() && is_live(d[i]) && key_of(d[i]) == key_of(s.last());
                assert(s[i] == d[i]);
                assert(is_live(s[s.len() - 1]));
            }
        }
    }
}

/// Counts after overwriting one slot.
proof fn lemma_count_update<K, V>(s: Seq<Option<Slot<K, V>>>, i: int, x: Option<Slot<K, V>>)
    requires
        0 <= i < s.len(),
    ensures
        count_live(s.update(i, x)) + (if is_live(s[i]) { 1int } else { 0int })
            == count_live(s) + (if is_live(x) { 1int } else { 0int }),
        count_occupied(s.update(i, x)) + (if s[i] is Some { 1int } else { 0int })
            == count_occupied(s) + (if x is Some { 1int } else { 0int }),
    decreases s.len(),
{
    let u = s.update(i, x);
    if i == s.len() - 1 {
        assert(u.drop_last() =~= s.drop_last());
    } else {
        assert(u.drop_last() =~= s.drop_last().update(i, x));
        lemma_count_update(s.drop_last(), i, x);
    }
}

/// Fewer occupied slots than slots means some slot is empty.
proof fn lemma_has_empty<K, V>(s: Seq<Option<Slot<K, V>>>)
    requires
        count_occupied(s) < s.len(),
    ensures
        exists|j: int| 0 <= j < s.len() && s[j] is None,
    decreases s.len(),
{
    if s.last() is Some {
        lemma_has_empty(s.drop_last());
        let j = choose|j: int| 0 <= j < s.drop_last().len() && s.drop_last()[j] is None;
        assert(s[j] is None);
    } else {
        assert(s[s.len() - 1] is None);
    }
}

/// Counts never exceed the length.
proof fn lemma_count_bounds<K, V>(s: Seq<Option<Slot<K, V>>>)
    ensures
        count_live(s) <= count_occupied(s) <= s.len(),
    decreases s.len(),
{
    if s.len() > 0 {
        lemma_count_bounds(s.drop_last());
    }
}

/// Walking `n` positions from any start visits every slot.
proof fn lemma_probe_covers(start: int, j: int, n: int)
    requires
        0 <= start < n,
        0 <= j < n,
    ensures
        0 <= dist(start, j, n) < n,
        probe_at(start, dist(start, j, n), n) == j,
{
    vstd::arithmetic::div_mod::lemma_mod_bound(j - start + n, n);
    if j >= start {
        vstd::arithmetic::div_mod::lemma_fundamental_div_mod_converse(j - start + n, n, 1, j - start);
        vstd::arithmetic::div_mod::lemma_fundamental_div_mod_converse(j, n, 0, j);
    } else {
        vstd::arithmetic::div_mod::lemma_fundamental_div_mod_converse(j - start + n, n, 0, j - start + n);
        vstd::arithmetic::div_mod::lemma_fundamental_div_mod_converse(j + n, n, 1, j);
    }
}

/// Distinct steps below `n` land on distinct slots, and the step count to a
/// slot reached after `t` steps is `t`.
proof fn lemma_probe_dist(start: int, t: int, n: int)
    requires
        0 <= start < n,
        0 <= t < n,
    ensures
        0 <= probe_at(start, t, n) < n,
        dist(start, probe_at(start, t, n), n) == t,
{
    let p = probe_at(start, t, n);
    if start + t < n {
        vstd::arithmetic::div_mod::lemma_fundamental_div_mod_converse(start + t, n, 0, start + t);
        vstd::arithmetic::div_mod::lemma_fundamental_div_mod_converse(p - start + n, n, 1, t);
    } else {
        vstd::arithmetic::div_mod::lemma_fundamental_div_mod_converse(start + t, n, 1, start + t - n);
        vstd::arithmetic::div_mod::lemma_fundamental_div_mod_converse(p - start + n, n, 0, t);
    }
}

/// One step along the probe sequence.
proof fn lemma_probe_next(start: int, t: int, n: int)
    requires
        0 <= start < n,
        0 <= t,
        n > 0,
    ensures
        probe_at(start, t + 1, n) == (probe_at(start, t, n) + 1) % n,
{
    if n == 1 {
        vstd::arithmetic::div_mod::lemma_fundamental_div_mod_converse(start + t + 1, 1, start + t + 1, 0);
        vstd::arithmetic::div_mod::lemma_fundamental_div_mod_converse(start + t, 1, start + t, 0);
        vstd::arithmetic::div_mod::lemma_fundamental_div_mod_converse(1, 1, 1, 0);
    } else {
        vstd::arithmetic::div_mod::lemma_add_mod_noop(start + t, 1, n);
        vstd::arithmetic::div_mod::lemma_small_mod(1, n as nat);
    }
}


/// The view after overwriting one slot, when keys stay unique.
proof fn lemma_view_update<K, V>(s: Seq<Option<Slot<K, V>>>, i: int, x: Option<Slot<K, V>>)
    requires
        0 <= i < s.len(),
        keys_unique(s),
        keys_unique(s.update(i, x)),
    ensures
        view_of(s.update(i, x)) == ({
            let m = if is_live(s[i]) { view_of(s).remove(key_of(s[i])) } else { view_of(s) };
            if is_live(x) { m.insert(key_of(x), value_of(x)) } else { m }
        }),
{
    let u = s.update(i, x);
    let m = if is_live(s[i]) { view_of(s).remove(key_of(s[i])) } else { view_of(s) };
    let m2 = if is_live(x) { m.insert(key_of(x), value_of(x)) } else { m };
    assert forall|k: K| #[trigger] view_of(u).contains_key(k) <==> m2.contains_key(k) by {
        lemma_view_contains(u, k);
        lemma_view_contains(s, k);
        if view_of(u).contains_key(k) {
            let j = choose|j: int| 0 <= j < u.len() && is_live(u[j]) && key_of(u[j]) == k;
            if j != i {
                assert(s[j] == u[j]);
                if is_live(s[i]) && key_of(s[i]) == k {
                    assert(is_live(s[j]) && is_live(s[i]));
                }
            }
        }
        if m2.contains_key(k) {
            if is_live(x) && key_of(x) == k {
                assert(is_live(u[i]) && key_of(u[i]) == k);
            } else {
                let j = choose|j: int| 0 <= j < s.len() && is_live(s[j]) && key_of(s[j]) == k;
                if j == i {
                    assert(false);
                }
                assert(u[j] == s[j]);
            }
        }
    }
    assert forall|k: K| view_of(u).contains_key(k) implies #[trigger] view_of(u)[k] == m2[k] by {
        lemma_view_contains(u, k);
        let j = choose|j: int| 0 <= j < u.len() && is_live(u[j]) && key_of(u[j]) == k;
        lemma_view_value(u, j);
        if j != i {
            assert(s[j] == u[j]);
            lemma_view_value(s, j);
            if is_live(x) && key_of(x) == k {
                assert(is_live(u[i]) && is_live(u[j]));
            }
        }
    }
    assert(view_of(u) =~= m2);
}

/// A prefix has no more live slots than the whole.
proof fn lemma_count_take<K, V>(s: Seq<Option<Slot<K, V>>>, i: int)
    requires
        0 <= i <= s.len(),
    ensures
        count_live(s.take(i)) <= count_live(s),
    decreases s.len(),
{
    if i < s.len() {
        assert(s.take(i) =~= s.drop_last().take(i));
        lemma_count_take(s.drop_last(), i);
    } else {
        assert(s.take(i) =~= s);
    }
}

/// Live slots of a prefix, one more slot at a time.
proof fn lemma_take_step<K, V>(s: Seq<Option<Slot<K, V>>>, i: int)
    requires
        0 <= i < s.len(),
    ensures
        s.take(i + 1).drop_last() == s.take(i),
        s.take(i + 1).last() == s[i],
{
    assert(s.take(i + 1).drop_last() =~= s.take(i));
}

impl<K, V, S> View for HashMap<K, V, S> {
    type V = Map<K, V>;

    /// The live entries.
    closed spec fn view(&self) -> Map<K, V> {
        view_of(self.slots@)
    }
}

impl<K, V, S> HashMap<K, V, S> {
    /// Layout invariant: power-of-two table, counts agree with the slots,
    /// some slot always empty, and every occupied slot reachable from its
    /// home without crossing an empty slot.
    pub closed spec fn wf(&self) -> bool {
        let s = self.slots@;
        let n = s.len();
        &&& n == 0 || is_pow2(self.slots.len())
        &&& n == 0 || n >= 4
        &&& n <= max_slots()
        &&& self.homes@.len() == n
        &&& count_live(s) == self.len
        &&& count_occupied(s) == self.len + self.tombstone_count
        &&& n > 0 ==> self.len + self.tombstone_count < n
        &&& n == 0 ==> self.len == 0 && self.tombstone_count == 0
        &&& forall|i: int| 0 <= i < n && (#[trigger] s[i]) is Some ==> chain_ok(s, self.homes@, i)
    }

    /// No key is live twice.  Every sequence of operations keeps this as
    /// long as the hasher gives a key the same hash each time.
    pub closed spec fn unique(&self) -> bool {
        keys_unique(self.slots@)
    }

    /// Number of slots.
    pub closed spec fn slot_count(&self) -> nat {
        self.slots@.len()
    }

    /// `key` is live and was placed with a hash that picks the same home
    /// slot as `h`.
    pub closed spec fn hash_agrees(&self, key: K, h: usize) -> bool {
        exists|i: int|
            0 <= i < self.slots@.len() && is_live(#[trigger] self.slots@[i]) && key_of(self.slots@[i]) == key
                && self.homes@[i] as int % self.slots@.len() as int == h as int % self.slots@.len() as int
    }

    /// Some live slot holds `key` with `value`.
    pub closed spec fn holds(&self, key: K, value: V) -> bool {
        exists|i: int|
            0 <= i < self.slots@.len() && is_live(#[trigger] self.slots@[i]) && key_of(self.slots@[i]) == key
                && value_of(self.slots@[i]) == value
    }

    /// Number of live slots.
    pub closed spec fn live(&self) -> nat {
        count_live(self.slots@)
    }

    /// Number of occupied slots: live entries and tombstones.
    pub closed spec fn occupied(&self) -> nat {
        count_occupied(self.slots@)
    }

    /// The first hash the hasher gave each key the map has hashed.
    pub closed spec fn first_hash(&self) -> Map<K, usize> {
        self.seen@
    }

    /// Every hash the hasher has given a key equalled the first it gave that
    /// key; true as long as the hasher gives each key one hash.
    pub closed spec fn steady(&self) -> bool {
        self.steady@
    }

    /// Every live entry was placed with the first hash the hasher gave its key.
    pub closed spec fn placed_by_hasher(&self) -> bool {
        forall|i: int|
            0 <= i < self.slots@.len() && is_live(#[trigger] self.slots@[i]) ==> self.seen@.contains_key(
                key_of(self.slots@[i]),
            ) && self.homes@[i] == self.seen@[key_of(self.slots@[i])]
    }

    /// The next insert grows the table first: there are no slots, or live
    /// entries and tombstones fill three quarters of them.
    pub open spec fn needs_growth(&self) -> bool {
        self.slot_count() == 0 || self.occupied() * 4 >= self.slot_count() * 3
    }
}

/// The hash of `key` under `builder`, truncated to `usize`.  Nothing is
/// known of the value, which for `RandomState` depends on a per-process
/// random seed.  `seen` keeps the first hash returned for each key, and
/// `steady` stays true only while every later hash of a key equals it.
fn hash_key<K: Hash, S: BuildHasher>(
    builder: &S,
    key: &K,
    seen: &mut Ghost<Map<K, usize>>,
    steady: &mut Ghost<bool>,
) -> (h: usize)
    ensures
        old(seen)@.contains_key(*key) ==> final(seen)@ == old(seen)@ && final(steady)@ == (old(steady)@ && h
            == old(seen)@[*key]),
        !old(seen)@.contains_key(*key) ==> final(seen)@ == old(seen)@.insert(*key, h) && final(steady)@ == old(steady)@,
{
    let h = compute_hash(key, builder) as usize;
    proof {
        if seen@.contains_key(*key) {
            steady@ = steady@ && h == seen@[*key];
        } else {
            seen@ = seen@.insert(*key, h);
        }
    }
    h
}

/// A fresh `RandomState` (`RandomState::new`); nothing is claimed of it.
#[verifier::external_body]
fn random_state() -> RandomState {
    RandomState::new()
}

/// `n` empty slots.
fn empty_slots<K, V>(n: usize) -> (v: Vec<Option<Slot<K, V>>>)
    ensures
        v@.len() == n,
        forall|i: int| 0 <= i < n ==> (#[trigger] v@[i]) is None,
{
    let mut v: Vec<Option<Slot<K, V>>> = Vec::new();
    let mut i: usize = 0;
    while i < n
        invariant
            i <= n,
            v@.len() == i,
            forall|j: int| 0 <= j < i ==> (#[trigger] v@[j]) is None,
        decreases n - i,
    {
        v.push(None);
        i = i + 1;
    }
    v
}

/// The smallest power of two that is at least `n` (`n > 0`).
pub(crate) fn next_power_of_two(n: usize) -> (p: usize)
    requires
        0 < n <= usize::MAX / 2,
    ensures
        is_pow2(p),
        n <= p,
        p / 2 < n,
{
    let mut p: usize = 1;
    let ghost mut k: nat = 0;
    proof {
        vstd::arithmetic::power2::lemma2_to64();
    }
    while p < n
        invariant
            pow2(k) == p,
            p >= 1,
            p / 2 < n,
            n <= usize::MAX / 2,
        decreases usize::MAX - p,
    {
        proof {
            vstd::arithmetic::power2::lemma_pow2_unfold(k + 1);
        }
        p = p * 2;
        proof {
            k = k + 1;
        }
    }
    p
}

/// Empty slots everywhere and matching counts.
proof fn lemma_all_empty<K, V>(s: Seq<Option<Slot<K, V>>>)
    requires
        forall|i: int| 0 <= i < s.len() ==> (#[trigger] s[i]) is None,
    ensures
        count_live(s) == 0,
        count_occupied(s) == 0,
        view_of(s) == Map::<K, V>::empty(),
        keys_unique(s),
    decreases s.len(),
{
    if s.len() > 0 {
        assert(s[s.len() - 1] is None);
        lemma_all_empty(s.drop_last());
    }
}

impl<K: Hash + Eq, V> HashMap<K, V> {
    /// An empty map with no slots; the first insert allocates.
    pub fn new() -> (m: Self)
        ensures
            m.wf(),
            m.unique(),
            m@ == Map::<K, V>::empty(),
            m.slot_count() == 0,
            m.occupied() == 0,
            m.steady(),
            m.placed_by_hasher(),
    {
        Self::with_capacity(0)
    }

    /// An empty map with `capacity` rounded up to a power of two slots, at
    /// least four (a smaller table would leave no slot free).
    pub fn with_capacity(capacity: usize) -> (m: Self)
        requires
            capacity <= max_request(),
        ensures
            m.wf(),
            m.unique(),
            m@ == Map::<K, V>::empty(),
            capacity == 0 ==> m.slot_count() == 0,
            capacity > 0 ==> capacity <= m.slot_count() < 2 * (if capacity < 3 { 3 } else { capacity }),
            m.occupied() == 0,
            m.steady(),
            m.placed_by_hasher(),
    {
        Self::with_capacity_and_hasher(capacity, random_state())
    }
}

impl<K: Hash + Eq, V, S: BuildHasher + Default> Default for HashMap<K, V, S> {
    /// An empty map with room for 16 entries, hashing with `S::default()`.
    fn default() -> (m: Self)
        ensures
            m.wf(),
            m.unique(),
            m@ == Map::<K, V>::empty(),
            16 <= m.slot_count() < 32,
            m.occupied() == 0,
            m.steady(),
            m.placed_by_hasher(),
    {
        Self::with_capacity_and_hasher(16, S::default())
    }
}

impl<K: Hash + Eq, V, S: BuildHasher> HashMap<K, V, S> {
    /// An empty map hashing with `hash_builder`, with `capacity` rounded up
    /// to a power of two slots, at least four (no slots for 0).
    pub fn with_capacity_and_hasher(capacity: usize, hash_builder: S) -> (m: Self)
        requires
            capacity <= max_request(),
        ensures
            m.wf(),
            m.unique(),
            m@ == Map::<K, V>::empty(),
            capacity == 0 ==> m.slot_count() == 0,
            capacity > 0 ==> capacity <= m.slot_count() < 2 * (if capacity < 3 { 3 } else { capacity }),
            m.occupied() == 0,
            m.steady(),
            m.placed_by_hasher(),
    {
        let capacity = if capacity == 0 { 0 } else if capacity < 3 { next_power_of_two(3) } else { next_power_of_two(capacity) };
        let slots = empty_slots(capacity);
        proof {
            lemma_all_empty(slots@);
            if capacity > 0 {
                let k = choose|k: nat| pow2(k) == capacity;
                vstd::arithmetic::power2::lemma2_to64();
                if k > 2 {
                    vstd::arithmetic::power2::lemma_pow2_strictly_increases(2, k);
                }
            }
        }
        HashMap {
            slots,
            len: 0,
            tombstone_count: 0,
            hash_builder,
            homes: Ghost(Seq::new(nat_of(capacity), |i: int| 0usize)),
            seen: Ghost(Map::empty()),
            steady: Ghost(true),
        }
    }

    /// Number of live entries.  O(1).
    pub fn len(&self) -> (n: usize)
        requires
            self.wf(),
        ensures
            n == self.live(),
            self.unique() ==> n == self@.len(),
    {
        proof {
            if self.unique() {
                lemma_view_len(self.slots@);
            }
        }
        self.len
    }

    /// No live entries.  O(1).
    pub fn is_empty(&self) -> (b: bool)
        requires
            self.wf(),
        ensures
            b == (self.live() == 0),
            self.unique() ==> (b <==> self@.len() == 0),
    {
        proof {
            if self.unique() {
                lemma_view_len(self.slots@);
            }
        }
        self.len == 0
    }

    /// Walks the probe sequence from `h`'s home to the first empty slot or
    /// the first live slot holding `key`.
    fn probe_lookup(&self, key: &K, h: usize) -> (idx: usize)
        requires
            self.wf(),
            self.slots@.len() > 0,
            lawful_eq::<K>(),
        ensures
            idx < self.slots@.len(),
            self.slots@[int_of(idx)] is None || (is_live(self.slots@[int_of(idx)]) && key_of(self.slots@[int_of(idx)]) == *key),
            forall|t: int| 0 <= t < dist(int_of(h) % nat_int(self.slots@.len()), int_of(idx), nat_int(self.slots@.len())) ==> {
                let p = #[trigger] probe_at(int_of(h) % nat_int(self.slots@.len()), t, nat_int(self.slots@.len()));
                &&& self.slots@[p] is Some
                &&& !(is_live(self.slots@[p]) && key_of(self.slots@[p]) == *key)
            },
    {
        let n = self.slots.len();
        let mask = n - 1;
        proof {
            lemma_mask(h, n);
            reveal(obeys_concrete_eq);
            lemma_has_empty(self.slots@);
        }
        let ghost s = self.slots@;
        let ghost start = int_of(h) % int_of(n);
        let mut idx = h & mask;
        let ghost mut t: int = 0;
        proof {
            vstd::arithmetic::div_mod::lemma_fundamental_div_mod_converse(start, int_of(n), 0, start);
        }
        loop
            invariant
                s == self.slots@,
                n == s.len(),
                n > 0,
                mask == n - 1,
                self.wf(),
                lawful_eq::<K>(),
                K::obeys_eq_spec(),
                forall|x: K, y: K| x.eq_spec(&y) <==> x == y,
                0 <= start < n,
                0 <= t < n,
                int_of(idx) == probe_at(start, t, int_of(n)),
                exists|j: int| 0 <= j < n && s[j] is None,
                start == int_of(h) % nat_int(self.slots@.len()),
                forall|u: int| 0 <= u < t ==> {
                    let p = #[trigger] probe_at(int_of(h) % nat_int(self.slots@.len()), u, nat_int(self.slots@.len()));
                    &&& self.slots@[p] is Some
                    &&& !(is_live(self.slots@[p]) && key_of(self.slots@[p]) == *key)
                },
            decreases n - t,
        {
            proof {
                lemma_probe_dist(start, t, int_of(n));
            }
            match &self.slots[idx] {
                None => {
                    return idx;
                },
                Some(slot) => {
                    if !slot.deleted && slot.key == *key {
                        return idx;
                    }
                },
            }
            let next = idx + 1;
            proof {
                let j = choose|j: int| 0 <= j < n && s[j] is None;
                lemma_probe_covers(start, j, int_of(n));
                if t + 1 >= n {
                    let u = dist(start, j, int_of(n));
                    if u < t {
                        assert(s[probe_at(start, u, int_of(n))] is Some);
                    }
                    assert(false);
                }
                lemma_probe_next(start, t, int_of(n));
                lemma_mask(next, n);
            }
            idx = next & mask;
            proof {
                t = t + 1;
            }
        }
    }

    /// Looks `key` up with the given hash value.
    pub fn get_hashed(&self, key: &K, h: usize) -> (r: Option<&V>)
        requires
            self.wf(),
            lawful_eq::<K>(),
        ensures
            r is Some ==> self.holds(*key, *r.unwrap()),
            self.unique() && r is Some ==> self@.contains_key(*key) && *r.unwrap() == self@[*key],
            !self@.contains_key(*key) ==> r is None,
            self.unique() && self.hash_agrees(*key, h) ==> r == Some(&self@[*key]),
    {
        if self.slots.len() == 0 {
            proof {
                lemma_view_contains(self.slots@, *key);
            }
            return None;
        }
        let idx = self.probe_lookup(key, h);
        let ghost s = self.slots@;
        let ghost n = nat_int(s.len());
        proof {
            lemma_view_contains(s, *key);
            if self.unique() && self.hash_agrees(*key, h) {
                let i = choose|i: int|
                    0 <= i < s.len() && is_live(#[trigger] s[i]) && key_of(s[i]) == *key
                        && int_of(self.homes@[i]) % n == int_of(h) % n;
                assert(chain_ok(s, self.homes@, i));
                let start = int_of(h) % n;
                lemma_probe_dist(start, dist(start, int_of(idx), n), n);
                lemma_probe_covers(start, int_of(idx), n);
                lemma_probe_covers(start, i, n);
                if dist(start, i, n) < dist(start, int_of(idx), n) {
                    let p = probe_at(start, dist(start, i, n), n);
                    assert(!(is_live(s[p]) && key_of(s[p]) == *key));
                } else if dist(start, int_of(idx), n) < dist(start, i, n) {
                    let p = probe_at(start, dist(start, int_of(idx), n), n);
                    assert(s[p] is Some);
                }
                assert(idx == i);
                lemma_view_value(s, i);
            }
        }
        match &self.slots[idx] {
            Some(slot) => {
                if !slot.deleted && slot.key == *key {
                    proof {
                        reveal(obeys_concrete_eq);
                        if self.unique() {
                            lemma_view_value(s, int_of(idx));
                        }
                    }
                    Some(&slot.value)
                } else {
                    proof {
                        reveal(obeys_concrete_eq);
                    }
                    None
                }
            },
            None => None,
        }
    }
}


impl<K: Hash + Eq, V, S: BuildHasher> HashMap<K, V, S> {
    /// Walks the probe sequence from `h`'s home: the first live slot holding
    /// `key` if it comes before an empty slot, otherwise the first tombstone
    /// passed, otherwise the empty slot.
    fn probe_insert(&self, key: &K, h: usize) -> (idx: usize)
        requires
            self.wf(),
            self.slots@.len() > 0,
            lawful_eq::<K>(),
        ensures
            idx < self.slots@.len(),
            is_live(self.slots@[int_of(idx)]) ==> key_of(self.slots@[int_of(idx)]) == *key,
            forall|t: int| 0 <= t < dist(int_of(h) % nat_int(self.slots@.len()), int_of(idx), nat_int(self.slots@.len())) ==> {
                let p = #[trigger] probe_at(int_of(h) % nat_int(self.slots@.len()), t, nat_int(self.slots@.len()));
                &&& self.slots@[p] is Some
                &&& !(is_live(self.slots@[p]) && key_of(self.slots@[p]) == *key)
            },
            keys_unique(self.slots@) && self.hash_agrees(*key, h) ==> is_live(self.slots@[int_of(idx)]),
    {
        let n = self.slots.len();
        let mask = n - 1;
        proof {
            lemma_mask(h, n);
            reveal(obeys_concrete_eq);
            lemma_has_empty(self.slots@);
        }
        let ghost s = self.slots@;
        let ghost start = int_of(h) % int_of(n);
        let mut idx = h & mask;
        let mut first_tombstone: Option<usize> = None;
        let ghost mut t: int = 0;
        let ghost mut ft: int = 0;
        proof {
            vstd::arithmetic::div_mod::lemma_fundamental_div_mod_converse(start, int_of(n), 0, start);
        }
        loop
            invariant
                s == self.slots@,
                n == s.len(),
                n > 0,
                mask == n - 1,
                self.wf(),
                lawful_eq::<K>(),
                K::obeys_eq_spec(),
                forall|x: K, y: K| x.eq_spec(&y) <==> x == y,
                0 <= start < n,
                0 <= t < n,
                int_of(idx) == probe_at(start, t, int_of(n)),
                exists|j: int| 0 <= j < n && s[j] is None,
                start == int_of(h) % nat_int(self.slots@.len()),
                forall|u: int| 0 <= u < t ==> {
                    let p = #[trigger] probe_at(int_of(h) % nat_int(self.slots@.len()), u, nat_int(self.slots@.len()));
                    &&& self.slots@[p] is Some
                    &&& !(is_live(self.slots@[p]) && key_of(self.slots@[p]) == *key)
                },
                first_tombstone matches Some(f) ==> {
                    &&& 0 <= ft < t
                    &&& int_of(f) == probe_at(start, ft, int_of(n))
                    &&& !is_live(s[int_of(f)])
                },
            decreases n - t,
        {
            proof {
                lemma_probe_dist(start, t, int_of(n));
            }
            match &self.slots[idx] {
                None => {
                    match first_tombstone {
                        Some(f) => {
                            proof {
                                lemma_probe_dist(start, ft, int_of(n));
                                self.lemma_not_found(*key, h, t);
                            }
                            return f;
                        },
                        None => {
                            proof {
                                self.lemma_not_found(*key, h, t);
                            }
                            return idx;
                        },
                    }
                },
                Some(slot) => {
                    if slot.deleted {
                        if first_tombstone.is_none() {
                            first_tombstone = Some(idx);
                            proof {
                                ft = t;
                            }
                        }
                    } else if slot.key == *key {
                        return idx;
                    }
                },
            }
            let next = idx + 1;
            proof {
                let j = choose|j: int| 0 <= j < n && s[j] is None;
                lemma_probe_covers(start, j, int_of(n));
                if t + 1 >= n {
                    let u = dist(start, j, int_of(n));
                    if u < t {
                        assert(s[probe_at(start, u, int_of(n))] is Some);
                    }
                    assert(false);
                }
                lemma_probe_next(start, t, int_of(n));
                lemma_mask(next, n);
            }
            idx = next & mask;
            proof {
                t = t + 1;
            }
        }
    }

    /// A key that is live and reachable from `h`'s home lies at or after
    /// step `t` when no earlier step holds it, and not at an empty slot.
    proof fn lemma_not_found(&self, key: K, h: usize, t: int)
        requires
            self.wf(),
            self.slots@.len() > 0,
            0 <= t < self.slots@.len(),
            self.slots@[probe_at(int_of(h) % nat_int(self.slots@.len()), t, nat_int(self.slots@.len()))] is None,
            forall|u: int| 0 <= u < t ==> {
                let p = #[trigger] probe_at(int_of(h) % nat_int(self.slots@.len()), u, nat_int(self.slots@.len()));
                &&& self.slots@[p] is Some
                &&& !(is_live(self.slots@[p]) && key_of(self.slots@[p]) == key)
            },
        ensures
            !self.hash_agrees(key, h),
    {
        let s = self.slots@;
        let n = nat_int(s.len());
        let start = int_of(h) % n;
        if self.hash_agrees(key, h) {
            let i = choose|i: int|
                0 <= i < s.len() && is_live(#[trigger] s[i]) && key_of(s[i]) == key
                    && int_of(self.homes@[i]) % n == int_of(h) % n;
            assert(chain_ok(s, self.homes@, i));
            lemma_probe_covers(start, i, n);
            let d = dist(start, i, n);
            if d < t {
                assert(s[probe_at(start, d, n)] is Some);
            } else if d > t {
                assert(s[probe_at(start, t, n)] is Some);
            }
        }
    }

    /// Puts `key -> value` in the slot `probe_insert` picks, with hash `h`.
    fn place(&mut self, key: K, value: V, h: usize)
        requires
            old(self).wf(),
            old(self).slots@.len() > 0,
            old(self).len + old(self).tombstone_count + 1 < old(self).slots@.len(),
            lawful_eq::<K>(),
        ensures
            final(self).wf(),
            final(self).slots@.len() == old(self).slots@.len(),
            final(self).tombstone_count <= old(self).tombstone_count,
            final(self).len + final(self).tombstone_count <= old(self).len + old(self).tombstone_count + 1,
            final(self).hash_agrees(key, h),
            final(self).holds(key, value),
            final(self)@.dom() == old(self)@.dom().insert(key),
            forall|k: K, g: usize| #![trigger final(self).hash_agrees(k, g)]
                old(self).hash_agrees(k, g) && k != key ==> final(self).hash_agrees(k, g),
            final(self).first_hash() == old(self).first_hash(),
            final(self).steady() == old(self).steady(),
            old(self).placed_by_hasher() && old(self).first_hash().contains_key(key) && old(self).first_hash()[key] == h
                ==> final(self).placed_by_hasher(),
            old(self).unique() && (!old(self)@.contains_key(key) || old(self).hash_agrees(key, h)) ==> {
                &&& final(self).unique()
                &&& final(self)@ == old(self)@.insert(key, value)
            },
    {
        let idx = self.probe_insert(&key, h);
        let ghost s = self.slots@;
        let ghost n = nat_int(s.len());
        let ghost start = int_of(h) % n;
        let ghost old_homes = self.homes@;
        let ghost gkey = key;
        let x = Some(Slot { key, value, deleted: false });
        let ghost gx = x;
        proof {
            lemma_count_update(s, int_of(idx), gx);
            lemma_count_update(s, int_of(idx), None);
            lemma_count_bounds(s.update(int_of(idx), None));
            lemma_probe_covers(start, int_of(idx), n);
            lemma_count_bounds(s);
        }
        let was_none = self.slots[idx].is_none();
        let was_live = match &self.slots[idx] {
            Some(sl) => !sl.deleted,
            None => false,
        };
        self.slots.set(idx, x);
        if was_none {
            self.len = self.len + 1;
        } else if !was_live {
            self.len = self.len + 1;
            self.tombstone_count = self.tombstone_count - 1;
        }
        proof {
            self.homes@ = old_homes.update(int_of(idx), h);
            let u = self.slots@;
            assert(u == s.update(int_of(idx), gx));
            vstd::arithmetic::div_mod::lemma_mod_bound(int_of(h), n);
            assert forall|i: int| 0 <= i < u.len() && (#[trigger] u[i]) is Some implies chain_ok(u, self.homes@, i) by {
                if i == idx {
                    assert(int_of(self.homes@[i]) % n == start);
                    assert forall|t: int| 0 <= t < dist(start, i, n) implies (#[trigger] u[probe_at(start, t, n)]) is Some by {
                        assert(s[probe_at(start, t, n)] is Some);
                    }
                } else {
                    assert(s[i] is Some);
                    assert(chain_ok(s, old_homes, i));
                    assert(self.homes@[i] == old_homes[i]);
                    let home = int_of(old_homes[i]) % n;
                    assert forall|t: int| 0 <= t < dist(home, i, n) implies (#[trigger] u[probe_at(home, t, n)]) is Some by {
                        assert(s[probe_at(home, t, n)] is Some);
                    }
                }
            }
            assert(is_live(u[int_of(idx)]) && key_of(u[int_of(idx)]) == gkey);
            assert(int_of(self.homes@[int_of(idx)]) % n == int_of(h) % n);
            assert(is_live(u[int_of(idx)]) && key_of(u[int_of(idx)]) == gkey && value_of(u[int_of(idx)]) == value_of(gx));
            assert forall|k: K| #[trigger] view_of(u).dom().contains(k) <==> view_of(s).dom().insert(gkey).contains(k) by {
                lemma_view_contains(u, k);
                lemma_view_contains(s, k);
                if view_of(u).contains_key(k) && k != gkey {
                    let j = choose|j: int| 0 <= j < u.len() && is_live(u[j]) && key_of(u[j]) == k;
                    assert(s[j] == u[j]);
                }
                if view_of(s).contains_key(k) && k != gkey {
                    let j = choose|j: int| 0 <= j < s.len() && is_live(s[j]) && key_of(s[j]) == k;
                    assert(u[j] == s[j]);
                }
            }
            assert(view_of(u).dom() =~= view_of(s).dom().insert(gkey));
            assert forall|k: K, g: usize| #![trigger self.hash_agrees(k, g)]
                old(self).hash_agrees(k, g) && k != gkey implies self.hash_agrees(k, g) by {
                let i = choose|i: int|
                    0 <= i < s.len() && is_live(#[trigger] s[i]) && key_of(s[i]) == k
                        && old_homes[i] as int % s.len() as int == g as int % s.len() as int;
                assert(i != idx);
                assert(u[i] == s[i]);
                assert(self.homes@[i] == old_homes[i]);
                assert(is_live(u[i]));
            }
            if old(self).placed_by_hasher() && self.seen@.contains_key(gkey) && self.seen@[gkey] == h {
                assert forall|i: int| 0 <= i < u.len() && is_live(#[trigger] u[i]) implies self.seen@.contains_key(
                    key_of(u[i]),
                ) && self.homes@[i] == self.seen@[key_of(u[i])] by {
                    if i != idx {
                        assert(u[i] == s[i]);
                        assert(is_live(s[i]));
                    }
                }
            }
            if old(self).unique() && (!old(self)@.contains_key(gkey) || old(self).hash_agrees(gkey, h)) {
                lemma_view_contains(s, gkey);
                if !was_live {
                    assert(!old(self)@.contains_key(gkey));
                }
                assert(keys_unique(u)) by {
                    assert forall|i: int, j: int|
                        0 <= i < u.len() && 0 <= j < u.len() && is_live(#[trigger] u[i]) && is_live(#[trigger] u[j])
                            && key_of(u[i]) == key_of(u[j]) implies i == j by {
                        if i != idx && j != idx {
                            assert(s[i] == u[i] && s[j] == u[j]);
                        } else if i == idx && j != idx {
                            assert(s[j] == u[j]);
                            if !was_live {
                                assert(is_live(s[j]) && key_of(s[j]) == gkey);
                            }
                        } else if j == idx && i != idx {
                            assert(s[i] == u[i]);
                            if !was_live {
                                assert(is_live(s[i]) && key_of(s[i]) == gkey);
                            }
                        }
                    }
                }
                lemma_view_update(s, int_of(idx), gx);
                if was_live {
                    assert(view_of(u) =~= view_of(s).insert(gkey, value_of(gx)));
                }
            }
        }
    }

    /// Replaces the table with `new_capacity` empty slots and re-inserts
    /// every live entry, hashing each key again.  Tombstones are dropped.
    fn rehash(&mut self, new_capacity: usize)
        requires
            old(self).wf(),
            lawful_eq::<K>(),
            is_pow2(new_capacity),
            new_capacity >= 4,
            new_capacity <= max_slots(),
            old(self).len + 1 < new_capacity,
        ensures
            final(self).wf(),
            final(self).slots@.len() == new_capacity,
            final(self).tombstone_count == 0,
            final(self).len <= old(self).len,
            final(self)@.dom() == old(self)@.dom(),
            old(self).unique() ==> final(self).unique() && final(self)@ == old(self)@,
            forall|k: K| #[trigger] old(self).first_hash().contains_key(k) ==> final(self).first_hash().contains_key(k)
                && final(self).first_hash()[k] == old(self).first_hash()[k],
            final(self).steady() ==> old(self).steady(),
            final(self).steady() ==> final(self).placed_by_hasher(),
    {
        let mut old_slots = empty_slots(new_capacity);
        std::mem::swap(&mut self.slots, &mut old_slots);
        let ghost orig = old_slots@;
        let ghost old_len = self.len;
        self.len = 0;
        self.tombstone_count = 0;
        proof {
            self.homes@ = Seq::new(nat_of(new_capacity), |i: int| 0usize);
            lemma_all_empty(self.slots@);
            assert(self.placed_by_hasher());
            assert(orig.take(0) =~= Seq::<Option<Slot<K, V>>>::empty());
            assert(view_of(self.slots@).dom() =~= view_of(orig.take(0)).dom());
            lemma_count_take(orig, 0);
        }
        let n_old = old_slots.len();
        let mut i: usize = 0;
        while i < n_old
            invariant
                lawful_eq::<K>(),
                self.wf(),
                self.slots@.len() == new_capacity,
                self.tombstone_count == 0,
                i <= n_old,
                n_old == orig.len(),
                old_slots@.len() == n_old,
                forall|j: int| i <= j < n_old ==> #[trigger] old_slots@[j] == orig[j],
                count_live(orig) == old_len,
                old_len + 1 < new_capacity,
                self.len <= count_live(orig.take(int_of(i))),
                count_live(orig.take(int_of(i))) <= count_live(orig),
                keys_unique(orig) ==> self.unique() && self@ == view_of(orig.take(int_of(i))),
                self@.dom() == view_of(orig.take(int_of(i))).dom(),
                forall|k: K| #[trigger] old(self).seen@.contains_key(k) ==> self.seen@.contains_key(k)
                    && self.seen@[k] == old(self).seen@[k],
                self.steady@ ==> old(self).steady@,
                self.steady@ ==> self.placed_by_hasher(),
            decreases n_old - i,
        {
            let ghost pre = orig.take(int_of(i));
            proof {
                lemma_take_step(orig, int_of(i));
                lemma_count_take(orig, int_of(i) + 1);
            }
            let mut tmp: Option<Slot<K, V>> = None;
            old_slots.set_and_swap(i, &mut tmp);
            match tmp {
                Some(sl) => {
                    if !sl.deleted {
                        let ghost k = sl.key;
                        proof {
                            if keys_unique(orig) {
                                lemma_view_contains(pre, k);
                                if view_of(pre).contains_key(k) {
                                    let j = choose|j: int| 0 <= j < pre.len() && is_live(pre[j]) && key_of(pre[j]) == k;
                                    assert(orig[j] == pre[j]);
                                    assert(is_live(orig[int_of(i)]));
                                }
                            }
                        }
                        let ghost seen0 = self.seen@;
                        let h = hash_key(&self.hash_builder, &sl.key, &mut self.seen, &mut self.steady);
                        proof {
                            if self.steady@ {
                                assert forall|j: int| 0 <= j < self.slots@.len() && is_live(#[trigger] self.slots@[j]) implies self.seen@.contains_key(
                                    key_of(self.slots@[j]),
                                ) && self.homes@[j] == self.seen@[key_of(self.slots@[j])] by {
                                    assert(seen0.contains_key(key_of(self.slots@[j])));
                                }
                                assert(self.placed_by_hasher());
                            }
                        }
                        self.place(sl.key, sl.value, h);
                        proof {
                            assert(view_of(orig.take(int_of(i) + 1)).dom() =~= view_of(pre).dom().insert(k));
                        }
                    }
                },
                None => {},
            }
            i = i + 1;
        }
        proof {
            assert(orig.take(int_of(n_old)) =~= orig);
        }
    }

    /// Inserts or overwrites `key` with the hash value `h`, growing the
    /// table first once live entries plus tombstones reach 75% of it.
    pub fn insert_hashed(&mut self, key: K, value: V, h: usize)
        requires
            old(self).wf(),
            lawful_eq::<K>(),
            old(self).slot_count() <= max_request(),
        ensures
            final(self).wf(),
            !old(self).needs_growth() ==> final(self).slot_count() == old(self).slot_count(),
            old(self).needs_growth() ==> final(self).slot_count() == if 2 * old(self).slot_count() > 16 {
                2 * old(self).slot_count()
            } else {
                16
            },
            final(self).hash_agrees(key, h),
            final(self).holds(key, value),
            final(self)@.dom() == old(self)@.dom().insert(key),
            !old(self).needs_growth() ==> final(self).occupied() <= old(self).occupied() + 1,
            forall|k: K, g: usize| #![trigger final(self).hash_agrees(k, g)]
                old(self).hash_agrees(k, g) && k != key && !old(self).needs_growth() ==> final(self).hash_agrees(k, g),
            old(self).unique() && (!old(self)@.contains_key(key) || (old(self).hash_agrees(key, h)
                && !old(self).needs_growth())) ==> {
                &&& final(self).unique()
                &&& final(self)@ == old(self)@.insert(key, value)
            },
            forall|k: K| #[trigger] old(self).first_hash().contains_key(k) ==> final(self).first_hash().contains_key(k)
                && final(self).first_hash()[k] == old(self).first_hash()[k],
            final(self).steady() ==> old(self).steady(),
            old(self).placed_by_hasher() && final(self).steady() && old(self).first_hash().contains_key(key)
                && old(self).first_hash()[key] == h ==> final(self).placed_by_hasher(),
            old(self).unique() && old(self).placed_by_hasher() && final(self).steady() && old(self).first_hash().contains_key(key)
                && old(self).first_hash()[key] == h ==> {
                &&& final(self).unique()
                &&& final(self)@ == old(self)@.insert(key, value)
            },
    {
        let cap = self.slots.len();
        if cap == 0 || (self.len + self.tombstone_count) * 4 >= cap * 3 {
            let new_cap = if cap * 2 > 16 { cap * 2 } else { 16 };
            proof {
                vstd::arithmetic::power2::lemma2_to64();
                if cap * 2 > 16 {
                    let k = choose|k: nat| pow2(k) == cap;
                    vstd::arithmetic::power2::lemma_pow2_unfold(k + 1);
                    assert(pow2(k + 1) == new_cap);
                } else {
                    assert(pow2(4) == new_cap);
                }
            }
            self.rehash(new_cap);
        }
        proof {
            if old(self).unique() && old(self).placed_by_hasher() && self.steady@ && old(self).seen@.contains_key(key)
                && old(self).seen@[key] == h && old(self)@.contains_key(key) {
                assert(old(self).first_hash().contains_key(key));
                assert(self.seen@[key] == h);
                assert(self.placed_by_hasher());
                lemma_view_contains(self.slots@, key);
                let i = choose|i: int| 0 <= i < self.slots@.len() && is_live(self.slots@[i]) && key_of(self.slots@[i]) == key;
                assert(is_live(self.slots@[i]));
                assert(self.homes@[i] == h);
                assert(self.hash_agrees(key, h));
            }
        }
        self.place(key, value, h);
    }

    /// Looks `key` up.  A key that is absent is never found; a present key
    /// is found when the hasher gives it the hash it was placed with.
    pub fn get(&self, key: &K) -> (r: Option<&V>)
        requires
            self.wf(),
            lawful_eq::<K>(),
        ensures
            r is Some ==> self.holds(*key, *r.unwrap()),
            self.unique() && r is Some ==> self@.contains_key(*key) && *r.unwrap() == self@[*key],
            !self@.contains_key(*key) ==> r is None,
    {
        let mut seen = Ghost(self.seen@);
        let mut steady = Ghost(self.steady@);
        let h = hash_key(&self.hash_builder, key, &mut seen, &mut steady);
        self.get_hashed(key, h)
    }

    /// Inserts `key -> value`, or overwrites the value of a present key.
    /// O(1) amortized.  Whatever the hash, a live slot then holds `key` with
    /// `value` and the keys are the old ones plus `key`; inserting an absent
    /// key is exact whatever the hash.
    pub fn insert(&mut self, key: K, value: V)
        requires
            old(self).wf(),
            lawful_eq::<K>(),
            old(self).slot_count() <= max_request(),
        ensures
            final(self).wf(),
            final(self).slot_count() <= if 2 * old(self).slot_count() > 16 { 2 * old(self).slot_count() } else { 16 },
            final(self).holds(key, value),
            final(self)@.dom() == old(self)@.dom().insert(key),
            !old(self).needs_growth() ==> final(self).slot_count() == old(self).slot_count()
                && final(self).occupied() <= old(self).occupied() + 1,
            forall|k: K, g: usize| #![trigger final(self).hash_agrees(k, g)]
                old(self).hash_agrees(k, g) && k != key && !old(self).needs_growth() ==> final(self).hash_agrees(k, g),
            old(self).unique() && !old(self)@.contains_key(key) ==> {
                &&& final(self).unique()
                &&& final(self)@ == old(self)@.insert(key, value)
            },
            final(self).steady() ==> old(self).steady(),
            old(self).placed_by_hasher() && final(self).steady() ==> final(self).placed_by_hasher(),
            old(self).unique() && old(self).placed_by_hasher() && final(self).steady() ==> {
                &&& final(self).unique()
                &&& final(self)@ == old(self)@.insert(key, value)
            },
    {
        let ghost seen0 = self.seen@;
        let h = hash_key(&self.hash_builder, &key, &mut self.seen, &mut self.steady);
        proof {
            if old(self).placed_by_hasher() {
                assert forall|j: int| 0 <= j < self.slots@.len() && is_live(#[trigger] self.slots@[j]) implies self.seen@.contains_key(
                    key_of(self.slots@[j]),
                ) && self.homes@[j] == self.seen@[key_of(self.slots@[j])] by {
                    assert(seen0.contains_key(key_of(self.slots@[j])));
                }
                assert(self.placed_by_hasher());
            }
        }
        self.insert_hashed(key, value, h);
    }

    /// Removes `key` with the hash value `h`, leaving a tombstone; true if a
    /// live entry was removed.
    pub fn remove_hashed(&mut self, key: &K, h: usize) -> (r: bool)
        requires
            old(self).wf(),
            lawful_eq::<K>(),
        ensures
            final(self).wf(),
            final(self).slot_count() == old(self).slot_count(),
            r ==> old(self)@.contains_key(*key),
            old(self).unique() && r ==> final(self).unique() && final(self)@ == old(self)@.remove(*key),
            !r ==> final(self)@ == old(self)@ && final(self).unique() == old(self).unique()
                && final(self).live() == old(self).live(),
            !old(self)@.contains_key(*key) ==> !r,
            old(self).unique() && old(self).hash_agrees(*key, h) ==> r,
            final(self).occupied() == old(self).occupied(),
            final(self).live() + (if r { 1int } else { 0int }) == old(self).live(),
            forall|k: K, g: usize| #![trigger final(self).hash_agrees(k, g)]
                old(self).hash_agrees(k, g) && k != *key ==> final(self).hash_agrees(k, g),
            final(self).first_hash() == old(self).first_hash(),
            final(self).steady() == old(self).steady(),
            old(self).placed_by_hasher() ==> final(self).placed_by_hasher(),
    {
        if self.slots.len() == 0 {
            proof {
                lemma_view_contains(self.slots@, *key);
                assert(!self.hash_agrees(*key, h));
            }
            return false;
        }
        let idx = self.probe_lookup(key, h);
        let ghost s = self.slots@;
        let ghost n = nat_int(s.len());
        proof {
            reveal(obeys_concrete_eq);
            lemma_view_contains(s, *key);
            if self.unique() && self.hash_agrees(*key, h) {
                self.lemma_lookup_finds(*key, h, idx);
            }
        }
        let is_match = match &self.slots[idx] {
            Some(sl) => !sl.deleted && sl.key == *key,
            None => false,
        };
        if is_match {
            let mut tmp: Option<Slot<K, V>> = None;
            self.slots.set_and_swap(idx, &mut tmp);
            let sl = tmp.unwrap();
            let x = Some(Slot { key: sl.key, value: sl.value, deleted: true });
            let ghost gx = x;
            self.slots.set(idx, x);
            proof {
                lemma_count_update(s, int_of(idx), gx);
                lemma_count_bounds(s);
            }
            self.len = self.len - 1;
            self.tombstone_count = self.tombstone_count + 1;
            proof {
                let u = self.slots@;
                assert(u == s.update(int_of(idx), gx));
                assert forall|i: int| 0 <= i < u.len() && (#[trigger] u[i]) is Some implies chain_ok(u, self.homes@, i) by {
                    assert(s[i] is Some);
                    assert(chain_ok(s, self.homes@, i));
                    let home = int_of(self.homes@[i]) % n;
                    assert forall|t: int| 0 <= t < dist(home, i, n) implies (#[trigger] u[probe_at(home, t, n)]) is Some by {
                        assert(s[probe_at(home, t, n)] is Some);
                    }
                }
                if old(self).unique() {
                    assert(keys_unique(u)) by {
                        assert forall|a: int, b: int|
                            0 <= a < u.len() && 0 <= b < u.len() && is_live(#[trigger] u[a]) && is_live(#[trigger] u[b])
                                && key_of(u[a]) == key_of(u[b]) implies a == b by {
                            assert(s[a] == u[a] && s[b] == u[b]);
                        }
                    }
                    lemma_view_update(s, int_of(idx), gx);
                }
                assert forall|k: K, g: usize| #![trigger self.hash_agrees(k, g)]
                    old(self).hash_agrees(k, g) && k != *key implies self.hash_agrees(k, g) by {
                    let i = choose|i: int|
                        0 <= i < s.len() && is_live(#[trigger] s[i]) && key_of(s[i]) == k
                            && self.homes@[i] as int % s.len() as int == g as int % s.len() as int;
                    assert(i != idx);
                    assert(u[i] == s[i]);
                    assert(is_live(u[i]));
                }
                if old(self).placed_by_hasher() {
                    assert forall|i: int| 0 <= i < u.len() && is_live(#[trigger] u[i]) implies self.seen@.contains_key(
                        key_of(u[i]),
                    ) && self.homes@[i] == self.seen@[key_of(u[i])] by {
                        assert(u[i] == s[i]);
                        assert(is_live(s[i]));
                    }
                }
            }
            true
        } else {
            false
        }
    }

    /// Removes `key`; true if it was present and found.
    pub fn remove(&mut self, key: &K) -> (r: bool)
        requires
            old(self).wf(),
            lawful_eq::<K>(),
        ensures
            final(self).wf(),
            final(self).slot_count() == old(self).slot_count(),
            r ==> old(self)@.contains_key(*key),
            old(self).unique() && r ==> final(self).unique() && final(self)@ == old(self)@.remove(*key),
            !r ==> final(self)@ == old(self)@ && final(self).unique() == old(self).unique(),
            !old(self)@.contains_key(*key) ==> !r,
            final(self).occupied() == old(self).occupied(),
            final(self).live() + (if r { 1int } else { 0int }) == old(self).live(),
            forall|k: K, g: usize| #![trigger final(self).hash_agrees(k, g)]
                old(self).hash_agrees(k, g) && k != *key ==> final(self).hash_agrees(k, g),
            final(self).steady() ==> old(self).steady(),
            old(self).placed_by_hasher() && final(self).steady() ==> final(self).placed_by_hasher(),
            old(self).unique() && old(self).placed_by_hasher() && final(self).steady() ==> {
                &&& r == old(self)@.contains_key(*key)
                &&& final(self).unique()
                &&& final(self)@ == old(self)@.remove(*key)
            },
    {
        let ghost seen0 = self.seen@;
        let h = hash_key(&self.hash_builder, key, &mut self.seen, &mut self.steady);
        proof {
            if old(self).placed_by_hasher() {
                assert forall|j: int| 0 <= j < self.slots@.len() && is_live(#[trigger] self.slots@[j]) implies self.seen@.contains_key(
                    key_of(self.slots@[j]),
                ) && self.homes@[j] == self.seen@[key_of(self.slots@[j])] by {
                    assert(seen0.contains_key(key_of(self.slots@[j])));
                }
                assert(self.placed_by_hasher());
                if self.steady@ && old(self)@.contains_key(*key) {
                    lemma_view_contains(self.slots@, *key);
                    let i = choose|i: int| 0 <= i < self.slots@.len() && is_live(self.slots@[i]) && key_of(self.slots@[i]) == *key;
                    assert(is_live(self.slots@[i]));
                    assert(self.hash_agrees(*key, h));
                }
            }
        }
        self.remove_hashed(key, h)
    }

    /// The live entries, in slot order.
    #[verifier::rlimit(60)]
    pub fn iter(&self) -> (r: Vec<(&K, &V)>)
        requires
            self.wf(),
        ensures
            r@.len() == self.live(),
            forall|j: int| 0 <= j < r@.len() ==> self.holds(*(#[trigger] r@[j]).0, *r@[j].1),
            self.unique() ==> forall|j: int| 0 <= j < r@.len() ==> self@.contains_key(*(#[trigger] r@[j]).0) && self@[*r@[j].0] == *r@[j].1,
            forall|k: K| #[trigger] self@.contains_key(k) ==> exists|j: int| 0 <= j < r@.len() && *r@[j].0 == k,
    {
        let ghost s = self.slots@;
        let mut out: Vec<(&K, &V)> = Vec::new();
        let ghost mut idxs: Seq<int> = Seq::empty();
        let n = self.slots.len();
        let mut i: usize = 0;
        proof {
            assert(s.take(0) =~= Seq::<Option<Slot<K, V>>>::empty());
        }
        while i < n
            invariant
                s == self.slots@,
                n == s.len(),
                i <= n,
                out@.len() == count_live(s.take(int_of(i))),
                idxs.len() == out@.len(),
                forall|j: int| 0 <= j < out@.len() ==> {
                    let p = #[trigger] idxs[j];
                    &&& 0 <= p < i
                    &&& is_live(s[p])
                    &&& key_of(s[p]) == *out@[j].0
                    &&& value_of(s[p]) == *out@[j].1
                },
                forall|p: int| 0 <= p < i && is_live(#[trigger] s[p]) ==> exists|j: int| 0 <= j < out@.len() && *out@[j].0 == key_of(s[p]),
            decreases n - i,
        {
            proof {
                lemma_take_step(s, int_of(i));
            }
            let ghost o0 = out@;
            match &self.slots[i] {
                Some(sl) => {
                    if !sl.deleted {
                        out.push((&sl.key, &sl.value));
                    }
                },
                None => {},
            }
            proof {
                let o = out@;
                if is_live(s[int_of(i)]) {
                    assert(o == o0.push((&key_of(s[int_of(i)]), &value_of(s[int_of(i)]))));
                } else {
                    assert(o == o0);
                }
                assert forall|p: int| 0 <= p < i + 1 && is_live(#[trigger] s[p]) implies exists|j: int| 0 <= j < o.len() && *o[j].0 == key_of(s[p]) by {
                    if p == i {
                        assert(*o[o.len() - 1].0 == key_of(s[p]));
                    } else {
                        let j = choose|j: int| 0 <= j < o0.len() && *o0[j].0 == key_of(s[p]);
                        assert(o[j] == o0[j]);
                    }
                }
                if is_live(s[int_of(i)]) {
                    idxs = idxs.push(int_of(i));
                }
            }
            i = i + 1;
        }
        proof {
            assert(s.take(int_of(n)) =~= s);
            assert forall|k: K| #[trigger] self@.contains_key(k) implies exists|j: int| 0 <= j < out@.len() && *out@[j].0 == k by {
                lemma_view_contains(s, k);
                let p = choose|p: int| 0 <= p < s.len() && is_live(s[p]) && key_of(s[p]) == k;
                assert(is_live(s[p]));
            }
            assert forall|j: int| 0 <= j < out@.len() implies self.holds(*(#[trigger] out@[j]).0, *out@[j].1) by {
                let p = idxs[j];
                assert(is_live(s[p]));
            }
            if self.unique() {
                assert forall|j: int| 0 <= j < out@.len() implies self@.contains_key(*(#[trigger] out@[j]).0) && self@[*out@[j].0] == *out@[j].1 by {
                    let p = idxs[j];
                    lemma_view_value(s, p);
                }
            }
        }
        out
    }

    /// Under unique keys, a key that is live and agrees with `h` is exactly
    /// where the lookup from `h` stops.
    proof fn lemma_lookup_finds(&self, key: K, h: usize, idx: usize)
        requires
            self.wf(),
            self.slots@.len() > 0,
            keys_unique(self.slots@),
            self.hash_agrees(key, h),
            idx < self.slots@.len(),
            self.slots@[int_of(idx)] is None || (is_live(self.slots@[int_of(idx)]) && key_of(self.slots@[int_of(idx)]) == key),
            forall|t: int| 0 <= t < dist(int_of(h) % nat_int(self.slots@.len()), int_of(idx), nat_int(self.slots@.len())) ==> {
                let p = #[trigger] probe_at(int_of(h) % nat_int(self.slots@.len()), t, nat_int(self.slots@.len()));
                &&& self.slots@[p] is Some
                &&& !(is_live(self.slots@[p]) && key_of(self.slots@[p]) == key)
            },
        ensures
            is_live(self.slots@[int_of(idx)]),
            key_of(self.slots@[int_of(idx)]) == key,
    {
        let s = self.slots@;
        let n = nat_int(s.len());
        let start = int_of(h) % n;
        let i = choose|i: int|
            0 <= i < s.len() && is_live(#[trigger] s[i]) && key_of(s[i]) == key
                && int_of(self.homes@[i]) % n == int_of(h) % n;
        assert(chain_ok(s, self.homes@, i));
        vstd::arithmetic::div_mod::lemma_mod_bound(int_of(h), n);
        lemma_probe_covers(start, int_of(idx), n);
        lemma_probe_covers(start, i, n);
        if dist(start, i, n) < dist(start, int_of(idx), n) {
            let p = probe_at(start, dist(start, i, n), n);
            assert(!(is_live(s[p]) && key_of(s[p]) == key));
        } else if dist(start, int_of(idx), n) < dist(start, i, n) {
            let p = probe_at(start, dist(start, int_of(idx), n), n);
            assert(s[p] is Some);
        }
    }
}

} // verus!
