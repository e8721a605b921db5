//! The stage interface and an in-memory source stage.
//!
//! A stage is described by two sequences: `produced`, what it yields from a
//! fresh `open` up to end of stream, and `pending`, what `get_next` will
//! still yield from its current state.  `open` resets `pending` to
//! `produced`; each `get_next` hands out the head of `pending`.
use vstd::prelude::*;

verus! {

/// What `get_next` reports.
#[derive(Debug, Clone, Copy, PartialEq, Eq, Structural)]
pub enum PlanState {
    Advanced,
    Eof,
}

/// The pull-based stage interface: `open`, then `get_next` until `Eof`,
/// then `close`.  `open(true)` resets a stage for another pass.
pub trait Stage {
    /// What the stage yields from a fresh `open` up to end of stream.
    spec fn produced(&self) -> Seq<i64>;

    /// What `get_next` will still yield from the current state.
    spec fn pending(&self) -> Seq<i64>;

    /// The stage's internal invariant.
    spec fn inv(&self) -> bool;

    /// `after` is what `close` leaves of this stage.
    spec fn closes_into(&self, after: &Self) -> bool;

    /// Acquire resources and rewind; with `re_open` reset without rebuilding.
    fn open(&mut self, re_open: bool)
        requires
            old(self).inv(),
        ensures
            final(self).inv(),
            final(self).produced() == old(self).produced(),
            final(self).pending() == final(self).produced(),
    ;

    /// The next row: `(Advanced, Some(row))`, or `(Eof, None)` at the end.
    fn get_next(&mut self) -> (r: (PlanState, Option<i64>))
        requires
            old(self).inv(),
        ensures
            final(self).inv(),
            final(self).produced() == old(self).produced(),
            old(self).pending().len() > 0 ==> r == (PlanState::Advanced, Some(old(self).pending()[0]))
                && final(self).pending() == old(self).pending().drop_first(),
            old(self).pending().len() == 0 ==> r == (PlanState::Eof, None::<i64>)
                && final(self).pending().len() == 0,
    ;

    /// Release resources.
    fn close(&mut self)
        requires
            old(self).inv(),
        ensures
            final(self).inv(),
            final(self).produced() == old(self).produced(),
            old(self).closes_into(final(self)),
    ;
}

/// Every row the stage still has, in order.  O(n).
pub fn collect_all<S: Stage>(stage: &mut S) -> (rows: Vec<i64>)
    requires
        old(stage).inv(),
    ensures
        rows@ == old(stage).pending(),
        final(stage).inv(),
        final(stage).produced() == old(stage).produced(),
        final(stage).pending().len() == 0,
{
    let mut results: Vec<i64> = Vec::new();
    loop
        invariant
            stage.inv(),
            stage.produced() == old(stage).produced(),
            old(stage).pending() == results@ + stage.pending(),
        ensures
            stage.inv(),
            stage.produced() == old(stage).produced(),
            old(stage).pending() == results@,
            stage.pending().len() == 0,
        decreases stage.pending().len(),
    {
        let ghost before = stage.pending();
        match stage.get_next() {
            (PlanState::Advanced, Some(val)) => {
                results.push(val);
                assert(before == seq![val] + before.drop_first());
            },
            _ => {
                assert(before.len() == 0);
                break;
            },
        }
    }
    results
}

/// Whether the predicate `p` keeps row `x`.
pub open spec fn keeps<P: Fn(i64) -> bool>(p: P, x: i64) -> bool {
    p.ensures((x,), true)
}

/// A predicate the filtering stages can run: it accepts every row and has
/// one answer for each.
pub open spec fn lawful_pred<P: Fn(i64) -> bool>(p: P) -> bool {
    &&& forall|x: i64| #[trigger] p.requires((x,))
    &&& forall|x: i64, b: bool| #[trigger] p.ensures((x,), b) ==> b == keeps(p, x)
}

/// The rows of `s` that `p` keeps, in order.
pub open spec fn kept<P: Fn(i64) -> bool>(p: P, s: Seq<i64>) -> Seq<i64> {
    s.filter(|x: i64| keeps(p, x))
}

/// What the row function `f` gives for `x`.
pub open spec fn apply<F: Fn(i64) -> i64>(f: F, x: i64) -> i64 {
    choose|y: i64| f.ensures((x,), y)
}

/// A row function the stages can run: it accepts every row and has one
/// result for each.
pub open spec fn lawful_fn<F: Fn(i64) -> i64>(f: F) -> bool {
    &&& forall|x: i64| #[trigger] f.requires((x,))
    &&& forall|x: i64, y: i64| #[trigger] f.ensures((x,), y) ==> y == apply(f, x)
}

/// A source stage that yields the rows of a vector.  O(1) per row.
pub struct VecScan {
    data: Vec<i64>,
    idx: usize,
}

impl VecScan {
    /// A source over `data`, positioned at its first row.  O(1).
    pub fn new(data: Vec<i64>) -> (s: Self)
        ensures
            s.inv(),
            s.produced() == data@,
            s.pending() == data@,
    {
        VecScan { data, idx: 0 }
    }
}

impl Stage for VecScan {
    closed spec fn produced(&self) -> Seq<i64> {
        self.data@
    }

    closed spec fn pending(&self) -> Seq<i64> {
        self.data@.skip(self.idx as int)
    }

    closed spec fn inv(&self) -> bool {
        self.idx <= self.data@.len()
    }

    /// Closing a source releases nothing: the scan stays where it is.
    closed spec fn closes_into(&self, after: &Self) -> bool {
        *after == *self
    }

    fn open(&mut self, re_open: bool) {
        self.idx = 0;
    }

    fn get_next(&mut self) -> (r: (PlanState, Option<i64>)) {
        if self.idx < self.data.len() {
            let val = self.data[self.idx];
            self.idx = self.idx + 1;
            (PlanState::Advanced, Some(val))
        } else {
            (PlanState::Eof, None)
        }
    }

    fn close(&mut self) {
    }
}

} // verus!
