//! Skip the first rows of a child, then pass on at most a given number.
//! `open` pulls the skipped rows; `get_next` counts the rest.
use vstd::prelude::*;
use super::stages::{PlanState, Stage};

verus! {

/// The rows of `s` after the first `skip`, at most `limit` of them.
pub open spec fn window(s: Seq<i64>, skip: int, limit: int) -> Seq<i64> {
    let lo = if skip < s.len() { skip } else { s.len() as int };
    let hi = if skip + limit < s.len() { skip + limit } else { s.len() as int };
    s.subrange(lo, hi)
}

/// At most the first `k` rows of `s`.
pub open spec fn at_most(s: Seq<i64>, k: int) -> Seq<i64> {
    if k < s.len() { s.take(k) } else { s }
}

/// Skips `skip` rows of `child`, then passes on at most `limit`.
pub struct LimitSkipStage<C: Stage> {
    child: C,
    skip: usize,
    limit: usize,
    current: usize,
    is_eof: bool,
}

impl<C: Stage> LimitSkipStage<C> {
    /// A limit/skip stage over `child`.  O(1).
    pub fn new(child: C, skip: usize, limit: usize) -> (s: Self)
        requires
            child.inv(),
        ensures
            s.inv(),
            s.produced() == window(child.produced(), skip as int, limit as int),
            s.pending() == at_most(child.pending(), limit as int),
    {
        LimitSkipStage { child, skip, limit, current: 0, is_eof: false }
    }
}

impl<C: Stage> Stage for LimitSkipStage<C> {
    closed spec fn produced(&self) -> Seq<i64> {
        window(self.child.produced(), self.skip as int, self.limit as int)
    }

    closed spec fn pending(&self) -> Seq<i64> {
        if self.is_eof || self.current >= self.limit {
            Seq::empty()
        } else {
            at_most(self.child.pending(), self.limit - self.current)
        }
    }

    closed spec fn inv(&self) -> bool {
        self.child.inv() && self.current <= self.limit
    }

    /// Closing closes the child and keeps the counters.
    closed spec fn closes_into(&self, after: &Self) -> bool {
        &&& self.child.closes_into(&after.child)
        &&& after.skip == self.skip
        &&& after.limit == self.limit
        &&& after.current == self.current
        &&& after.is_eof == self.is_eof
    }

    fn open(&mut self, re_open: bool) {
        self.child.open(re_open);
        self.current = 0;
        self.is_eof = false;
        let mut i: usize = 0;
        while i < self.skip
            invariant
                self.child.inv(),
                self.current == 0,
                !self.is_eof,
                self.skip == old(self).skip,
                self.limit == old(self).limit,
                self.child.produced() == old(self).child.produced(),
                i <= self.skip,
                i <= self.child.produced().len(),
                self.child.pending() == self.child.produced().skip(i as int),
            decreases self.skip - i,
        {
            if let (PlanState::Eof, _) = self.child.get_next() {
                self.is_eof = true;
                assert(window(self.child.produced(), self.skip as int, self.limit as int) =~= Seq::<i64>::empty());
                return;
            }
            i = i + 1;
        }
        proof {
            let s = self.child.produced();
            let rest = s.skip(self.skip as int);
            assert(at_most(rest, self.limit as int) =~= window(s, self.skip as int, self.limit as int));
        }
    }

    fn get_next(&mut self) -> (r: (PlanState, Option<i64>)) {
        if self.is_eof || self.current >= self.limit {
            return (PlanState::Eof, None);
        }
        let ghost k = self.limit - self.current;
        let ghost before = self.child.pending();
        self.current = self.current + 1;
        let r = self.child.get_next();
        proof {
            if before.len() > 0 {
                assert(at_most(before.drop_first(), k - 1) =~= at_most(before, k).drop_first());
            }
        }
        r
    }

    fn close(&mut self) {
        self.child.close();
    }
}

} // verus!
