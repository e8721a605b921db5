//! A streaming filter: passes on the rows of its child that a predicate
//! keeps.  O(1) memory; each `get_next` pulls until a match or the end.
use vstd::prelude::*;
use super::stages::{PlanState, Stage, keeps, kept, lawful_pred};

verus! {

/// Passes on the rows of `child` that `predicate` keeps.
pub struct FilterStage<C: Stage, P: Fn(i64) -> bool> {
    child: C,
    predicate: P,
    is_eof: bool,
}

impl<C: Stage, P: Fn(i64) -> bool> FilterStage<C, P> {
    /// A filter over `child`.  O(1).
    pub fn new(child: C, predicate: P) -> (s: Self)
        requires
            child.inv(),
            lawful_pred(predicate),
        ensures
            s.inv(),
            s.produced() == kept(predicate, child.produced()),
            s.pending() == kept(predicate, child.pending()),
    {
        FilterStage { child, predicate, is_eof: false }
    }
}

impl<C: Stage, P: Fn(i64) -> bool> Stage for FilterStage<C, P> {
    closed spec fn produced(&self) -> Seq<i64> {
        kept(self.predicate, self.child.produced())
    }

    closed spec fn pending(&self) -> Seq<i64> {
        if self.is_eof {
            Seq::empty()
        } else {
            kept(self.predicate, self.child.pending())
        }
    }

    closed spec fn inv(&self) -> bool {
        self.child.inv() && lawful_pred(self.predicate)
    }

    /// Closing closes the child and keeps the rest.
    closed spec fn closes_into(&self, after: &Self) -> bool {
        &&& self.child.closes_into(&after.child)
        &&& after.predicate == self.predicate
        &&& after.is_eof == self.is_eof
    }

    fn open(&mut self, re_open: bool) {
        self.child.open(re_open);
        self.is_eof = false;
    }

    fn get_next(&mut self) -> (r: (PlanState, Option<i64>)) {
        while !self.is_eof
            invariant
                self.child.inv(),
                self.predicate == old(self).predicate,
                lawful_pred(self.predicate),
                self.child.produced() == old(self).child.produced(),
                !self.is_eof ==> old(self).pending() == kept(self.predicate, self.child.pending()),
                self.is_eof ==> old(self).pending().len() == 0,
            decreases self.child.pending().len(),
        {
            let ghost before = self.child.pending();
            proof {
                if before.len() > 0 {
                    assert(before == seq![before[0]] + before.drop_first());
                    before.drop_first().lemma_filter_prepend(before[0], |x: i64| keeps(self.predicate, x));
                }
            }
            match self.child.get_next() {
                (PlanState::Eof, _) => {
                    self.is_eof = true;
                    return (PlanState::Eof, None);
                },
                (PlanState::Advanced, Some(val)) => {
                    if (self.predicate)(val) {
                        return (PlanState::Advanced, Some(val));
                    }
                },
                _ => {},
            }
        }
        (PlanState::Eof, None)
    }

    fn close(&mut self) {
        self.child.close();
    }
}

} // verus!
