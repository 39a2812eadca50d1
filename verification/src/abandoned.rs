//! The abandoned stack: sealed quarantine waiting for adoption.
//!
//! An exiting thread pushes its sealed bag queues here in one step; any
//! surviving thread that observes an epoch advance takes the whole stack in
//! one step and sorts each sealed queue into its own ring by age.

use crate::retired::Retired;
use crate::sealed::{sealed_recs, SealedList, SealedQueue};
use vstd::prelude::*;

verus! {

/// The process-wide stack of abandoned sealed queues.
pub struct AbandonedQueue {
    queues: Vec<SealedQueue>,
}

impl AbandonedQueue {
    /// The abandoned sealed queues.
    pub closed spec fn spec_queues(self) -> Seq<SealedQueue> {
        self.queues@
    }

    /// All records waiting on the stack.
    pub open spec fn recs(self) -> Seq<Retired> {
        sealed_recs(self.spec_queues())
    }

    /// Every sealed queue on the stack is well-formed.
    pub open spec fn wf(self) -> bool {
        forall|i: int| 0 <= i < self.spec_queues().len() ==> #[trigger] self.spec_queues()[i].wf()
    }

    /// Creates an empty stack.
    pub fn new() -> (r: AbandonedQueue)
        ensures
            r.wf(),
            r.spec_queues().len() == 0,
            r.recs().len() == 0,
    {
        AbandonedQueue { queues: Vec::new() }
    }

    /// Pushes an exiting thread's sealed queues in one step, on top of the
    /// stack: a later take-all hands them back before everything pushed
    /// earlier.
    pub fn push(&mut self, sealed: SealedList)
        requires
            old(self).wf(),
            sealed.wf(),
        ensures
            final(self).wf(),
            final(self).spec_queues() == sealed.spec_queues() + old(self).spec_queues(),
            final(self).recs() == sealed_recs(sealed.spec_queues()) + old(self).recs(),
    {
        let ghost pre = *self;
        let ghost added = sealed.spec_queues();
        let mut qs = sealed.into_inner();
        core::mem::swap(&mut self.queues, &mut qs);
        self.queues.append(&mut qs);
        proof {
            crate::sealed::lemma_sealed_recs_concat(added, pre.spec_queues());
            assert forall|i: int| 0 <= i < self.spec_queues().len() implies #[trigger] self
                .spec_queues()[i].wf() by {
                if i < added.len() {
                    assert(added[i].wf());
                } else {
                    assert(self.spec_queues()[i] == pre.spec_queues()[i - added.len()]);
                }
            }
        }
    }

    /// Takes the whole stack in one step, leaving it empty: the sealed
    /// queues come back most recent push first.
    pub fn take_all(&mut self) -> (r: Vec<SealedQueue>)
        requires
            old(self).wf(),
        ensures
            final(self).wf(),
            final(self).spec_queues().len() == 0,
            final(self).recs().len() == 0,
            r@ == old(self).spec_queues(),
            forall|i: int| 0 <= i < r@.len() ==> #[trigger] r@[i].wf(),
    {
        let mut out: Vec<SealedQueue> = Vec::new();
        core::mem::swap(&mut self.queues, &mut out);
        out
    }

    /// The number of sealed queues waiting.
    pub fn len(&self) -> (r: usize)
        ensures
            r == self.spec_queues().len(),
    {
        self.queues.len()
    }
}

} // verus!
