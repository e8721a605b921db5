//! A second family of execution stages.  It shares the stage interface, the
//! source, the filter and the join with `mongo`; here `collect_all` closes
//! the stage after draining it, the limit stage counts only the rows the
//! child actually produced, and the aggregation tags each sum with its
//! group key: `key * 1000 + sum`.
use vstd::prelude::*;
use crate::mongo::hash_agg_stage::{group_rows, groups_of, sums_fit, key_set, sorted_keys, ascending, group_sum};
use crate::mongo::limit_skip_stage::{window, at_most};
use crate::mongo::stages::lawful_fn;

pub use crate::mongo::stages::{PlanState, Stage, VecScan};
pub use crate::mongo::filter_stage::FilterStage;
pub use crate::mongo::hash_join_stage::HashJoinStage;

verus! {

/// Every row the stage still has, in order; then the stage is closed.  O(n).
pub fn collect_all<S: Stage>(stage: &mut S) -> (rows: Vec<i64>)
    requires
        old(stage).inv(),
    ensures
        rows@ == old(stage).pending(),
        final(stage).inv(),
        final(stage).produced() == old(stage).produced(),
        exists|drained: S| {
            &&& drained.inv()
            &&& drained.produced() == old(stage).produced()
            &&& drained.pending().len() == 0
            &&& #[trigger] drained.closes_into(final(stage))
        },
{
    let mut results: Vec<i64> = Vec::new();
    loop
        invariant
            stage.inv(),
            stage.produced() == old(stage).produced(),
            old(stage).pending() == results@ + stage.pending(),
        ensures
            stage.inv(),
            stage.produced() == old(stage).produced(),
            old(stage).pending() == results@,
        decreases stage.pending().len(),
    {
        let ghost before = stage.pending();
        match stage.get_next() {
            (PlanState::Advanced, Some(val)) => {
                results.push(val);
                assert(before == seq![val] + before.drop_first());
            },
            (PlanState::Advanced, None) => {
                assert(false);
            },
            (PlanState::Eof, _) => {
                assert(before.len() == 0);
                break;
            },
        }
    }
    let ghost drained = *stage;
    stage.close();
    assert(drained.closes_into(stage));
    results
}

/// Skips `skip` rows of `child`, then passes on at most `limit`; only rows
/// the child produced count towards the limit.
pub struct LimitSkipStage<C: Stage> {
    child: C,
    skip: usize,
    limit: usize,
    emitted: usize,
    is_eof: bool,
}

impl<C: Stage> LimitSkipStage<C> {
    /// A limit/skip stage over `child`.  O(1).
    pub fn new(child: C, skip: usize, limit: usize) -> (s: Self)
        requires
            child.inv(),
        ensures
            s.inv(),
            s.produced() == window(child.produced(), skip as int, limit as int),
            s.pending() == at_most(child.pending(), limit as int),
    {
        LimitSkipStage { child, skip, limit, emitted: 0, is_eof: false }
    }
}

impl<C: Stage> Stage for LimitSkipStage<C> {
    closed spec fn produced(&self) -> Seq<i64> {
        window(self.child.produced(), self.skip as int, self.limit as int)
    }

    closed spec fn pending(&self) -> Seq<i64> {
        if self.is_eof || self.emitted >= self.limit {
            Seq::empty()
        } else {
            at_most(self.child.pending(), self.limit - self.emitted)
        }
    }

    closed spec fn inv(&self) -> bool {
        self.child.inv() && self.emitted <= self.limit
    }

    /// Closing closes the child and keeps the counters.
    closed spec fn closes_into(&self, after: &Self) -> bool {
        &&& self.child.closes_into(&after.child)
        &&& after.skip == self.skip
        &&& after.limit == self.limit
        &&& after.emitted == self.emitted
        &&& after.is_eof == self.is_eof
    }

    fn open(&mut self, re_open: bool) {
        self.child.open(re_open);
        self.emitted = 0;
        self.is_eof = false;
        let mut i: usize = 0;
        while i < self.skip
            invariant
                self.child.inv(),
                self.emitted == 0,
                !self.is_eof,
                self.skip == old(self).skip,
                self.limit == old(self).limit,
                self.child.produced() == old(self).child.produced(),
                i <= self.skip,
                i <= self.child.produced().len(),
                self.child.pending() == self.child.produced().skip(i as int),
            decreases self.skip - i,
        {
            if let (PlanState::Eof, _) = self.child.get_next() {
                self.is_eof = true;
                assert(window(self.child.produced(), self.skip as int, self.limit as int) =~= Seq::<i64>::empty());
                return;
            }
            i = i + 1;
        }
        proof {
            let s = self.child.produced();
            let rest = s.skip(self.skip as int);
            assert(at_most(rest, self.limit as int) =~= window(s, self.skip as int, self.limit as int));
        }
    }

    fn get_next(&mut self) -> (r: (PlanState, Option<i64>)) {
        if self.is_eof || self.emitted >= self.limit {
            return (PlanState::Eof, None);
        }
        let ghost k = self.limit - self.emitted;
        let ghost before = self.child.pending();
        let result = self.child.get_next();
        if let (PlanState::Advanced, _) = result {
            self.emitted = self.emitted + 1;
        }
        proof {
            if before.len() > 0 {
                assert(at_most(before.drop_first(), k - 1) =~= at_most(before, k).drop_first());
            }
        }
        result
    }

    fn close(&mut self) {
        self.child.close();
    }
}

/// `key * 1000` and `key * 1000 + sum` fit in an `i64` for every group of `rows`.
pub open spec fn tags_fit<K: Fn(i64) -> i64, V: Fn(i64) -> i64>(rows: Seq<i64>, key_fn: K, val_fn: V) -> bool {
    forall|k: i64| #[trigger] key_set(rows, key_fn).contains(k) ==> {
        &&& i64::MIN <= k * 1000 <= i64::MAX
        &&& i64::MIN <= k * 1000 + group_sum(rows, key_fn, val_fn, k) <= i64::MAX
    }
}

/// The groups as single rows: `key * 1000 + sum`.
pub open spec fn tagged(groups: Seq<(i64, i64)>) -> Seq<i64> {
    groups.map_values(|g: (i64, i64)| (g.0 * 1000 + g.1) as i64)
}

/// GROUP BY over `child` that yields `key * 1000 + sum` per group, in
/// ascending key order.
pub struct HashAggStage<C: Stage, K: Fn(i64) -> i64, V: Fn(i64) -> i64> {
    child: C,
    key_fn: K,
    val_fn: V,
    groups: Vec<(i64, i64)>,
    cursor: usize,
}

impl<C: Stage, K: Fn(i64) -> i64, V: Fn(i64) -> i64> HashAggStage<C, K, V> {
    /// An aggregation over `child`; nothing is read before `open`.  O(1).
    pub fn new(child: C, key_fn: K, val_fn: V) -> (s: Self)
        requires
            child.inv(),
            lawful_fn(key_fn),
            lawful_fn(val_fn),
            sums_fit(child.produced(), key_fn, val_fn),
            tags_fit(child.produced(), key_fn, val_fn),
        ensures
            s.inv(),
            s.produced() == tagged(groups_of(child.produced(), key_fn, val_fn)),
            s.pending() == Seq::<i64>::empty(),
    {
        HashAggStage { child, key_fn, val_fn, groups: Vec::new(), cursor: 0 }
    }
}

impl<C: Stage, K: Fn(i64) -> i64, V: Fn(i64) -> i64> Stage for HashAggStage<C, K, V> {
    closed spec fn produced(&self) -> Seq<i64> {
        tagged(groups_of(self.child.produced(), self.key_fn, self.val_fn))
    }

    closed spec fn pending(&self) -> Seq<i64> {
        if self.cursor < self.groups@.len() {
            tagged(self.groups@.skip(self.cursor as int))
        } else {
            Seq::empty()
        }
    }

    closed spec fn inv(&self) -> bool {
        &&& self.child.inv()
        &&& lawful_fn(self.key_fn)
        &&& lawful_fn(self.val_fn)
        &&& sums_fit(self.child.produced(), self.key_fn, self.val_fn)
        &&& tags_fit(self.child.produced(), self.key_fn, self.val_fn)
        &&& (self.groups@.len() == 0 || {
            &&& self.groups@ == groups_of(self.child.produced(), self.key_fn, self.val_fn)
            &&& ascending(sorted_keys(self.child.produced(), self.key_fn))
            &&& sorted_keys(self.child.produced(), self.key_fn).to_set() == key_set(self.child.produced(), self.key_fn)
        })
    }

    /// Closing closes the child and drops the groups.
    closed spec fn closes_into(&self, after: &Self) -> bool {
        &&& self.child.closes_into(&after.child)
        &&& after.key_fn == self.key_fn
        &&& after.val_fn == self.val_fn
        &&& after.groups@.len() == 0
        &&& after.cursor == self.cursor
    }

    fn open(&mut self, re_open: bool) {
        self.child.open(re_open);
        let groups = group_rows(&mut self.child, &self.key_fn, &self.val_fn);
        self.groups = groups;
        self.cursor = 0;
        proof {
            assert(self.groups@.skip(0) =~= self.groups@);
        }
    }

    fn get_next(&mut self) -> (r: (PlanState, Option<i64>)) {
        if self.cursor >= self.groups.len() {
            return (PlanState::Eof, None);
        }
        let (key, sum) = self.groups[self.cursor];
        proof {
            let rows = self.child.produced();
            let ks = sorted_keys(rows, self.key_fn);
            let c = self.cursor as int;
            assert(key == ks[c]);
            assert(ks.to_set().contains(key));
            assert(key_set(rows, self.key_fn).contains(key));
            assert(rows.take(rows.len() as int) =~= rows);
            assert(i64::MIN <= group_sum(rows.take(rows.len() as int), self.key_fn, self.val_fn, key) <= i64::MAX);
            assert(sum == group_sum(rows, self.key_fn, self.val_fn, key));
        }
        self.cursor = self.cursor + 1;
        proof {
            let g = old(self).groups@.skip(old(self).cursor as int);
            assert(g.drop_first() =~= self.groups@.skip(self.cursor as int));
            assert(tagged(g).drop_first() =~= tagged(g.drop_first()));
        }
        (PlanState::Advanced, Some(key * 1000 + sum))
    }

    fn close(&mut self) {
        self.child.close();
        self.groups.clear();
    }
}

} // verus!
