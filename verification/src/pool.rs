//! The bookkeeping behind the bounded worker pool that drives the external
//! embed primitive.
//!
//! One operation has one work item per container. Workers, however many and
//! in whatever interleaving, pull items one at a time with `next_item` and
//! hand the result of each embed call back with `record_outcome`. The pool
//! is the single shared structure; it delivers each item at most once,
//! keeps one container's failure from touching its siblings, and reports
//! completion only when every item's outcome is in — the bulk synchronous
//! barrier the write path ends on.

use vstd::prelude::*;

verus! {

/// Work-item bookkeeping for one embed operation: which items have been
/// handed to a worker, and which outcomes have come back.
pub struct WorkPool {
    dispatched: usize,
    outcomes: Vec<Option<bool>>,
}

impl WorkPool {
    /// Number of work items (one per container).
    pub closed spec fn total(self) -> int {
        self.outcomes@.len() as int
    }

    /// Number of items handed out so far; items `0..dispatched()` are the
    /// ones a worker has taken.
    pub closed spec fn dispatched(self) -> int {
        self.dispatched as int
    }

    /// The recorded outcome of item `i`: `None` while outstanding, then
    /// `Some(ok)`.
    pub closed spec fn outcome(self, i: int) -> Option<bool> {
        self.outcomes@[i]
    }

    /// An outcome can exist only for a dispatched item.
    pub open spec fn wf(self) -> bool {
        &&& 0 <= self.dispatched() <= self.total()
        &&& forall|i: int| self.dispatched() <= i < self.total() ==> self.outcome(i) is None
    }

    /// The operation is complete: every item was dispatched and every
    /// outcome is in.
    pub open spec fn complete(self) -> bool {
        &&& self.dispatched() == self.total()
        &&& forall|i: int| 0 <= i < self.total() ==> !(self.outcome(i) is None)
    }

    /// The items whose embed call failed.
    pub open spec fn failed_set(self) -> Set<int> {
        Set::new(|i: int| 0 <= i < self.total() && self.outcome(i) == Some(false))
    }

    /// A fresh pool with `count` outstanding items and nothing dispatched.
    pub fn new(count: usize) -> (r: WorkPool)
        ensures
            r.wf(),
            r.total() == count,
            r.dispatched() == 0,
            forall|i: int| 0 <= i < count ==> r.outcome(i) is None,
    {
        let mut outcomes: Vec<Option<bool>> = Vec::new();
        while outcomes.len() < count
            invariant
                outcomes@.len() <= count,
                forall|i: int| 0 <= i < outcomes@.len() ==> outcomes@[i] is None,
            decreases count - outcomes@.len(),
        {
            outcomes.push(None);
        }
        WorkPool { dispatched: 0, outcomes }
    }

    /// Number of work items, as a value.
    pub fn item_count(&self) -> (r: usize)
        ensures
            r == self.total(),
    {
        self.outcomes.len()
    }

    /// Number of items handed out so far, as a value.
    pub fn dispatched_count(&self) -> (r: usize)
        ensures
            r == self.dispatched(),
    {
        self.dispatched
    }

    /// Whether item `item`'s outcome has been recorded.
    pub fn outcome_recorded(&self, item: usize) -> (r: bool)
        requires
            item < self.total(),
        ensures
            r == !(self.outcome(item as int) is None),
    {
        match self.outcomes[item] {
            Some(_) => true,
            None => false,
        }
    }

    /// Hand out the next undispatched item, if one is left. Each item is
    /// delivered to exactly one caller: the frontier only moves forward.
    pub fn next_item(&mut self) -> (r: Option<usize>)
        requires
            old(self).wf(),
        ensures
            final(self).wf(),
            final(self).total() == old(self).total(),
            forall|i: int|
                0 <= i < old(self).total() ==> final(self).outcome(i) == old(self).outcome(i),
            old(self).dispatched() < old(self).total() ==> r is Some && r->Some_0 == old(
                self,
            ).dispatched() && final(self).dispatched() == old(self).dispatched() + 1,
            old(self).dispatched() == old(self).total() ==> r is None && final(self).dispatched()
                == old(self).dispatched(),
    {
        if self.dispatched < self.outcomes.len() {
            let item = self.dispatched;
            self.dispatched = self.dispatched + 1;
            proof {
                assert forall|i: int|
                    self.dispatched() <= i < self.total() implies self.outcome(i) is None by {
                    assert(old(self).outcome(i) is None);
                }
            }
            Some(item)
        } else {
            None
        }
    }

    /// Record the outcome of a dispatched item whose outcome is not in yet.
    /// Nothing else changes: not the frontier, and no other item's outcome.
    pub fn record_outcome(&mut self, item: usize, ok: bool)
        requires
            old(self).wf(),
            item < old(self).dispatched(),
            old(self).outcome(item as int) is None,
        ensures
            final(self).wf(),
            final(self).total() == old(self).total(),
            final(self).dispatched() == old(self).dispatched(),
            final(self).outcome(item as int) == Some(ok),
            forall|i: int|
                0 <= i < old(self).total() && i != item ==> final(self).outcome(i) == old(
                    self,
                ).outcome(i),
    {
        self.outcomes[item] = Some(ok);
        proof {
            assert forall|i: int|
                self.dispatched() <= i < self.total() implies self.outcome(i) is None by {
                assert(old(self).outcome(i) is None);
            }
            assert forall|i: int|
                0 <= i < old(self).total() && i != item implies self.outcome(i) == old(
                self,
            ).outcome(i) by {
                assert(self.outcomes@ == old(self).outcomes@.update(item as int, Some(ok)));
            }
        }
    }

    /// Whether the operation may report completion: true exactly when every
    /// item was dispatched and every outcome recorded.
    pub fn is_complete(&self) -> (r: bool)
        requires
            self.wf(),
        ensures
            r == self.complete(),
    {
        if self.dispatched < self.outcomes.len() {
            return false;
        }
        let mut i: usize = 0;
        #[verifier::loop_isolation(false)]
        while i < self.outcomes.len()
            invariant
                i <= self.total(),
                forall|j: int| 0 <= j < i ==> !(self.outcome(j) is None),
            decreases self.total() - i,
        {
            match self.outcomes[i] {
                Some(_) => {},
                None => {
                    assert(self.outcome(i as int) is None);
                    return false;
                },
            }
            i = i + 1;
        }
        true
    }

    /// The items whose embed call failed, in increasing order.
    pub fn failed_items(&self) -> (r: Vec<usize>)
        ensures
            forall|t: int|
                0 <= t < r@.len() ==> 0 <= #[trigger] r@[t] < self.total() && self.outcome(
                    r@[t] as int,
                ) == Some(false),
            forall|i: int|
                0 <= i < self.total() && self.outcome(i) == Some(false) ==> r@.contains(
                    i as usize,
                ),
            forall|t1: int, t2: int| 0 <= t1 < t2 < r@.len() ==> r@[t1] < r@[t2],
    {
        let mut r: Vec<usize> = Vec::new();
        let mut i: usize = 0;
        #[verifier::loop_isolation(false)]
        while i < self.outcomes.len()
            invariant
                i <= self.total(),
                forall|t: int|
                    0 <= t < r@.len() ==> 0 <= #[trigger] r@[t] < i && self.outcome(r@[t] as int)
                        == Some(false),
                forall|j: int|
                    0 <= j < i && self.outcome(j) == Some(false) ==> r@.contains(j as usize),
                forall|t1: int, t2: int| 0 <= t1 < t2 < r@.len() ==> r@[t1] < r@[t2],
            decreases self.total() - i,
        {
            let is_failure = match self.outcomes[i] {
                Some(ok) => !ok,
                None => false,
            };
            let ghost r_before = r@;
            if is_failure {
                r.push(i);
            }
            proof {
                assert forall|j: int|
                    0 <= j < i + 1 && self.outcome(j) == Some(false) implies r@.contains(
                    j as usize,
                ) by {
                    if j < i {
                        let t = choose|t: int| 0 <= t < r_before.len() && r_before[t] == j as usize;
                        assert(r@[t] == j as usize);
                    } else {
                        assert(r@[r@.len() - 1] == j as usize);
                    }
                }
            }
            i = i + 1;
        }
        r
    }
}

/// One pull from the pool, as seen from outside: what `next_item` does to
/// the state and hands back.
pub open spec fn dispatch_step(before: WorkPool, after: WorkPool, r: Option<int>) -> bool {
    &&& after.total() == before.total()
    &&& (forall|i: int| 0 <= i < before.total() ==> after.outcome(i) == before.outcome(i))
    &&& if before.dispatched() < before.total() {
        r == Some(before.dispatched()) && after.dispatched() == before.dispatched() + 1
    } else {
        r is None && after.dispatched() == before.dispatched()
    }
}

/// The dispatch frontier never moves backwards over a run of pulls.
proof fn lemma_dispatch_monotone(states: Seq<WorkPool>, results: Seq<Option<int>>, t1: int, t2: int)
    requires
        states.len() == results.len() + 1,
        forall|t: int|
            0 <= t < results.len() ==> #[trigger] dispatch_step(states[t], states[t + 1], results[t]),
        0 <= t1 <= t2 <= results.len(),
    ensures
        states[t1].dispatched() <= states[t2].dispatched(),
    decreases t2 - t1,
{
    if t1 < t2 {
        assert(dispatch_step(states[t1], states[t1 + 1], results[t1]));
        lemma_dispatch_monotone(states, results, t1 + 1, t2);
    }
}

/// Worker-pool at-most-once delivery: over any run of pulls from the pool —
/// by however many workers, in whatever interleaving — no work item is
/// handed out twice, and the items handed out are the consecutive indices
/// from the starting frontier.
pub proof fn lemma_dispatch_exactly_once(states: Seq<WorkPool>, results: Seq<Option<int>>)
    requires
        states.len() == results.len() + 1,
        forall|t: int|
            0 <= t < results.len() ==> #[trigger] dispatch_step(states[t], states[t + 1], results[t]),
    ensures
        forall|t: int|
            0 <= t < results.len() && results[t] is Some ==> #[trigger] results[t]->Some_0
                == states[t].dispatched(),
        forall|t1: int, t2: int|
            0 <= t1 < t2 < results.len() && results[t1] is Some && results[t2] is Some
                ==> results[t1]->Some_0 != results[t2]->Some_0,
{
    assert forall|t: int| 0 <= t < results.len() && results[t] is Some implies #[trigger] results[t]->Some_0
        == states[t].dispatched() by {
        assert(dispatch_step(states[t], states[t + 1], results[t]));
    }
    assert forall|t1: int, t2: int|
        0 <= t1 < t2 < results.len() && results[t1] is Some && results[t2] is Some implies results[t1]->Some_0
        != results[t2]->Some_0 by {
        assert(dispatch_step(states[t1], states[t1 + 1], results[t1]));
        assert(dispatch_step(states[t2], states[t2 + 1], results[t2]));
        lemma_dispatch_monotone(states, results, t1 + 1, t2);
    }
}

/// The barrier half of worker-pool completeness: while any work item's
/// outcome is outstanding, the pool does not report completion; the
/// operation ends only after every embed call has returned.
pub proof fn lemma_no_completion_while_outstanding(p: WorkPool, i: int)
    requires
        p.wf(),
        0 <= i < p.total(),
        p.outcome(i) is None,
    ensures
        !p.complete(),
{
}

/// One recorded outcome, as seen from outside: what `record_outcome` does
/// to the state.
pub open spec fn record_step(before: WorkPool, after: WorkPool, item: int, ok: bool) -> bool {
    &&& 0 <= item < before.dispatched()
    &&& before.outcome(item) is None
    &&& after.total() == before.total()
    &&& after.dispatched() == before.dispatched()
    &&& after.outcome(item) == Some(ok)
    &&& (forall|i: int|
        0 <= i < before.total() && i != item ==> after.outcome(i) == before.outcome(i))
}

/// Partial-failure containment: recording one container's failed embed call
/// touches that item alone. Every other item's outcome stands, every
/// outstanding item stays outstanding and deliverable, and the failed set
/// afterwards is the old failed set plus exactly the one item — so the
/// final summary identifies it.
pub proof fn lemma_partial_failure_containment(
    before: WorkPool,
    after: WorkPool,
    item: int,
)
    requires
        before.wf(),
        record_step(before, after, item, false),
    ensures
        after.wf(),
        after.dispatched() == before.dispatched(),
        forall|i: int|
            0 <= i < before.total() && i != item ==> after.outcome(i) == before.outcome(i),
        forall|i: int|
            0 <= i < before.total() && i != item && before.outcome(i) is None ==> after.outcome(
                i,
            ) is None,
        after.failed_set() == before.failed_set().insert(item),
{
    assert(after.failed_set() =~= before.failed_set().insert(item));
}

} // verus!
