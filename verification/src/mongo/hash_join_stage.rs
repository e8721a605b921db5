//! Build/probe equi-join.  `open` drains the inner child into a hash table
//! from join key to the inner payloads; `get_next` probes it with each
//! outer row and yields `outer_payload * 1000 + inner_payload` for every
//! match, inner matches in the order the inner child produced them.
use vstd::prelude::*;
use vstd::std_specs::hash::group_hash_axioms;
use std::collections::HashMap;
use super::stages::{PlanState, Stage, apply, lawful_fn};
use crate::sort::order::int_of;

verus! {

broadcast use group_hash_axioms;

/// The payloads of the rows of `rows` whose key is `key`, in order.
pub open spec fn matches_of<K: Fn(i64) -> i64, V: Fn(i64) -> i64>(rows: Seq<i64>, key_fn: K, val_fn: V, key: i64) -> Seq<i64>
    decreases rows.len(),
{
    if rows.len() == 0 {
        Seq::empty()
    } else {
        let m = matches_of(rows.drop_last(), key_fn, val_fn, key);
        if apply(key_fn, rows.last()) == key {
            m.push(apply(val_fn, rows.last()))
        } else {
            m
        }
    }
}

/// The payloads a build table holds for `key`.
pub open spec fn lookup(table: Map<i64, Vec<i64>>, key: i64) -> Seq<i64> {
    if table.contains_key(key) {
        table[key]@
    } else {
        Seq::empty()
    }
}

/// The combined row for outer payload `o` and inner payload `x`.
pub open spec fn combine(o: i64, x: i64) -> i64 {
    (o * 1000 + x) as i64
}

/// `o * 1000` and `o * 1000 + x` fit in an `i64`.
pub open spec fn combine_fits(o: i64, x: i64) -> bool {
    &&& i64::MIN <= o * 1000 <= i64::MAX
    &&& i64::MIN <= o * 1000 + x <= i64::MAX
}

/// What probing with outer row `row` yields, given the inner payloads per key.
pub open spec fn probe<K: Fn(i64) -> i64, V: Fn(i64) -> i64>(row: i64, look: spec_fn(i64) -> Seq<i64>, key_fn: K, val_fn: V) -> Seq<i64> {
    look(apply(key_fn, row)).map_values(|x: i64| combine(apply(val_fn, row), x))
}

/// The join of the outer rows `rows` against the inner payloads per key.
pub open spec fn join<K: Fn(i64) -> i64, V: Fn(i64) -> i64>(rows: Seq<i64>, look: spec_fn(i64) -> Seq<i64>, key_fn: K, val_fn: V) -> Seq<i64> {
    rows.map_values(|o: i64| probe(o, look, key_fn, val_fn)).flatten()
}

/// Every combined row of outer rows `rows` with the payloads `look` gives fits in an `i64`.
pub open spec fn join_fits<K: Fn(i64) -> i64, V: Fn(i64) -> i64>(rows: Seq<i64>, look: spec_fn(i64) -> Seq<i64>, key_fn: K, val_fn: V) -> bool {
    forall|i: int, j: int|
        0 <= i < rows.len() && 0 <= j < look(apply(key_fn, rows[i])).len() ==> #[trigger] combine_fits(
            apply(val_fn, rows[i]),
            look(apply(key_fn, rows[i]))[j],
        )
}


/// Drains `inner` into `table`: for each join key, the payloads of the
/// rows with that key, in order.  O(n) expected.
fn fill_table<C: Stage, K: Fn(i64) -> i64, V: Fn(i64) -> i64>(
    inner: &mut C,
    table: &mut HashMap<i64, Vec<i64>>,
    key_fn: &K,
    val_fn: &V,
)
    requires
        old(inner).inv(),
        old(inner).pending() == old(inner).produced(),
        old(table)@ == Map::<i64, Vec<i64>>::empty(),
        lawful_fn(*key_fn),
        lawful_fn(*val_fn),
    ensures
        final(inner).inv(),
        final(inner).produced() == old(inner).produced(),
        forall|k: i64| #[trigger] lookup(final(table)@, k) == matches_of(old(inner).produced(), *key_fn, *val_fn, k),
{
    let ghost rows = inner.produced();
    let ghost mut n: int = 0;
    loop
        invariant
            inner.inv(),
            inner.produced() == rows,
            lawful_fn(*key_fn),
            lawful_fn(*val_fn),
            0 <= n <= rows.len(),
            inner.pending() == rows.skip(n),
            forall|k: i64| #[trigger] lookup(table@, k) == matches_of(rows.take(n), *key_fn, *val_fn, k),
        ensures
            inner.inv(),
            inner.produced() == rows,
            forall|k: i64| #[trigger] lookup(table@, k) == matches_of(rows, *key_fn, *val_fn, k),
        decreases rows.len() - n,
    {
        match inner.get_next() {
            (PlanState::Advanced, Some(row)) => {
                let key = key_fn(row);
                let val = val_fn(row);
                let ghost before = rows.take(n);
                let ghost after = rows.take(n + 1);
                proof {
                    assert(row == rows[n]);
                    assert(after.drop_last() =~= before);
                    assert(after.last() == row);
                }
                let ghost old_table = table@;
                let mut v: Vec<i64> = match table.remove(&key) {
                    Some(v) => v,
                    None => Vec::new(),
                };
                proof {
                    assert(v@ == lookup(old_table, key));
                }
                v.push(val);
                table.insert(key, v);
                proof {
                    assert forall|k: i64| #[trigger] lookup(table@, k) == matches_of(after, *key_fn, *val_fn, k) by {
                        assert(lookup(old_table, k) == matches_of(before, *key_fn, *val_fn, k));
                        if k != key {
                            assert(table@[k] == old_table[k]);
                        }
                    }
                    n = n + 1;
                    assert(inner.pending() =~= rows.skip(n));
                }
            },
            _ => {
                proof {
                    assert(rows.skip(n).len() == 0);
                    assert(rows.take(n) =~= rows);
                }
                break;
            },
        }
    }
}

/// Equi-join of `outer` with `inner`: the key of an outer row by
/// `outer_key_fn`, of an inner row by `inner_key_fn`; for each outer row and
/// each inner row with the same key, yields
/// `outer_val_fn(outer) * 1000 + inner_val_fn(inner)`.
pub struct HashJoinStage<
    O: Stage,
    I: Stage,
    OK: Fn(i64) -> i64,
    IK: Fn(i64) -> i64,
    OV: Fn(i64) -> i64,
    IV: Fn(i64) -> i64,
> {
    outer: O,
    inner: I,
    outer_key_fn: OK,
    inner_key_fn: IK,
    outer_val_fn: OV,
    inner_val_fn: IV,
    table: HashMap<i64, Vec<i64>>,
    match_buf: Vec<i64>,
    match_idx: usize,
    outer_val: i64,
    is_eof: bool,
}

impl<O: Stage, I: Stage, OK: Fn(i64) -> i64, IK: Fn(i64) -> i64, OV: Fn(i64) -> i64, IV: Fn(i64) -> i64>
    HashJoinStage<O, I, OK, IK, OV, IV> {
    /// The inner payloads per key that the table holds now.
    spec fn look(&self) -> spec_fn(i64) -> Seq<i64> {
        |k: i64| lookup(self.table@, k)
    }

    /// The inner payloads per key of everything the inner child produces.
    spec fn inner_look(&self) -> spec_fn(i64) -> Seq<i64> {
        |k: i64| matches_of(self.inner.produced(), self.inner_key_fn, self.inner_val_fn, k)
    }

    /// The combined rows still buffered for the current outer row.
    spec fn buffered(&self) -> Seq<i64> {
        if self.match_idx < self.match_buf@.len() {
            self.match_buf@.skip(self.match_idx as int).map_values(|x: i64| combine(self.outer_val, x))
        } else {
            Seq::empty()
        }
    }

    /// A join of `outer` with `inner`; nothing is read before `open`.  O(1).
    pub fn new(outer: O, inner: I, outer_key_fn: OK, inner_key_fn: IK, outer_val_fn: OV, inner_val_fn: IV) -> (s: Self)
        requires
            outer.inv(),
            inner.inv(),
            lawful_fn(outer_key_fn),
            lawful_fn(inner_key_fn),
            lawful_fn(outer_val_fn),
            lawful_fn(inner_val_fn),
            join_fits(
                outer.produced(),
                |k: i64| matches_of(inner.produced(), inner_key_fn, inner_val_fn, k),
                outer_key_fn,
                outer_val_fn,
            ),
        ensures
            s.inv(),
            s.produced() == join(
                outer.produced(),
                |k: i64| matches_of(inner.produced(), inner_key_fn, inner_val_fn, k),
                outer_key_fn,
                outer_val_fn,
            ),
            s.pending() == join(outer.pending(), |k: i64| Seq::<i64>::empty(), outer_key_fn, outer_val_fn),
    {
        let s = HashJoinStage {
            outer,
            inner,
            outer_key_fn,
            inner_key_fn,
            outer_val_fn,
            inner_val_fn,
            table: HashMap::new(),
            match_buf: Vec::new(),
            match_idx: 0,
            outer_val: 0,
            is_eof: false,
        };
        proof {
            assert(s.look() =~= |k: i64| Seq::<i64>::empty());
            assert(s.inner_look() =~= |k: i64| matches_of(s.inner.produced(), inner_key_fn, inner_val_fn, k));
        }
        s
    }
}

impl<O: Stage, I: Stage, OK: Fn(i64) -> i64, IK: Fn(i64) -> i64, OV: Fn(i64) -> i64, IV: Fn(i64) -> i64> Stage for HashJoinStage<
    O,
    I,
    OK,
    IK,
    OV,
    IV,
> {
    closed spec fn produced(&self) -> Seq<i64> {
        join(self.outer.produced(), self.inner_look(), self.outer_key_fn, self.outer_val_fn)
    }

    closed spec fn pending(&self) -> Seq<i64> {
        self.buffered() + if self.is_eof {
            Seq::empty()
        } else {
            join(self.outer.pending(), self.look(), self.outer_key_fn, self.outer_val_fn)
        }
    }

    closed spec fn inv(&self) -> bool {
        &&& self.outer.inv()
        &&& self.inner.inv()
        &&& lawful_fn(self.outer_key_fn)
        &&& lawful_fn(self.inner_key_fn)
        &&& lawful_fn(self.outer_val_fn)
        &&& lawful_fn(self.inner_val_fn)
        &&& join_fits(self.outer.produced(), self.inner_look(), self.outer_key_fn, self.outer_val_fn)
        &&& join_fits(self.outer.pending(), self.look(), self.outer_key_fn, self.outer_val_fn)
        &&& forall|j: int| 0 <= j < self.match_buf@.len() ==> #[trigger] combine_fits(self.outer_val, self.match_buf@[j])
    }

    /// Closing closes the outer child and empties the build table.
    closed spec fn closes_into(&self, after: &Self) -> bool {
        &&& self.outer.closes_into(&after.outer)
        &&& after.inner == self.inner
        &&& after.outer_key_fn == self.outer_key_fn
        &&& after.inner_key_fn == self.inner_key_fn
        &&& after.outer_val_fn == self.outer_val_fn
        &&& after.inner_val_fn == self.inner_val_fn
        &&& after.table@ == Map::<i64, Vec<i64>>::empty()
        &&& after.match_buf == self.match_buf
        &&& after.match_idx == self.match_idx
        &&& after.outer_val == self.outer_val
        &&& after.is_eof == self.is_eof
    }

    fn open(&mut self, re_open: bool) {
        self.inner.open(re_open);
        self.table.clear();
        fill_table(&mut self.inner, &mut self.table, &self.inner_key_fn, &self.inner_val_fn);
        self.inner.close();
        self.outer.open(re_open);
        self.match_buf.clear();
        self.match_idx = 0;
        self.is_eof = false;
        proof {
            assert(self.look() =~= self.inner_look());
            assert(self.buffered() =~= Seq::<i64>::empty());
        }
    }

    fn get_next(&mut self) -> (r: (PlanState, Option<i64>)) {
        loop
            invariant
                self.inv(),
                self.inner.produced() == old(self).inner.produced(),
                self.outer.produced() == old(self).outer.produced(),
                self.outer_key_fn == old(self).outer_key_fn,
                self.inner_key_fn == old(self).inner_key_fn,
                self.outer_val_fn == old(self).outer_val_fn,
                self.inner_val_fn == old(self).inner_val_fn,
                self.pending() == old(self).pending(),
            decreases self.outer.pending().len(),
        {
            if self.match_idx < self.match_buf.len() {
                let inner_val = self.match_buf[self.match_idx];
                let ghost b = self.buffered();
                assert(combine_fits(self.outer_val, self.match_buf@[int_of(self.match_idx)]));
                self.match_idx = self.match_idx + 1;
                proof {
                    assert(self.buffered() =~= b.drop_first());
                    assert(self.inner_look() == old(self).inner_look());
                }
                return (PlanState::Advanced, Some(self.outer_val * 1000 + inner_val));
            }
            if self.is_eof {
                return (PlanState::Eof, None);
            }
            let ghost rest = self.outer.pending();
            let ghost lk = self.look();
            match self.outer.get_next() {
                (PlanState::Eof, _) => {
                    self.is_eof = true;
                    proof {
                        assert(self.inner_look() == old(self).inner_look());
                    }
                    return (PlanState::Eof, None);
                },
                (PlanState::Advanced, Some(row)) => {
                    let key = (self.outer_key_fn)(row);
                    self.outer_val = (self.outer_val_fn)(row);
                    self.match_buf = match self.table.get(&key) {
                        Some(v) => v.clone(),
                        None => Vec::new(),
                    };
                    self.match_idx = 0;
                    proof {
                        assert(self.match_buf@ == lookup(self.table@, key));
                        assert(rest[0] == row);
                        let f = |o: i64| probe(o, lk, self.outer_key_fn, self.outer_val_fn);
                        assert(rest.map_values(f).drop_first() =~= self.outer.pending().map_values(f));
                        assert(self.buffered() =~= probe(row, lk, self.outer_key_fn, self.outer_val_fn));
                        assert forall|j: int| 0 <= j < self.match_buf@.len() implies #[trigger] combine_fits(self.outer_val, self.match_buf@[j]) by {
                            assert(combine_fits(apply(self.outer_val_fn, rest[0]), lk(apply(self.outer_key_fn, rest[0]))[j]));
                        }
                        assert forall|i: int, j: int|
                            0 <= i < self.outer.pending().len() && 0 <= j < lk(apply(self.outer_key_fn, self.outer.pending()[i])).len()
                            implies #[trigger] combine_fits(
                                apply(self.outer_val_fn, self.outer.pending()[i]),
                                lk(apply(self.outer_key_fn, self.outer.pending()[i]))[j],
                            ) by {
                            assert(self.outer.pending()[i] == rest[i + 1]);
                        }
                    }
                },
                _ => {},
            }
        }
    }

    fn close(&mut self) {
        self.outer.close();
        self.table.clear();
        proof {
            assert(self.look() =~= |k: i64| Seq::<i64>::empty());
        }
    }
}
} // verus!
