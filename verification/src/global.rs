//! The process-wide singletons: the global epoch, the thread registry, the
//! abandoned stack, the write-once configuration, and the destruction log.
//!
//! In a running process these are statics; here they form one value that
//! every operation takes explicitly. The extra `destroyed` vector records
//! every destruction the engine performs, so that callers and tests can
//! observe reclamation; its invariant carries the central safety fact: no
//! record is ever destroyed less than three epoch advances after it was
//! retired.

use crate::abandoned::AbandonedQueue;
use crate::config::Config;
use crate::epoch::{AtomicEpoch, Epoch, ThreadState};
use crate::list::List;
use crate::retired::{all_stamps_le, Retired};
use vstd::prelude::*;

verus! {

/// The shared state of the reclamation scheme.
pub struct Global {
    /// The global epoch counter.
    pub epoch: AtomicEpoch,
    /// The registry of live threads' announcements.
    pub threads: List<ThreadState>,
    /// Sealed quarantine left behind by exited threads.
    pub abandoned: AbandonedQueue,
    /// The write-once configuration slot.
    pub config: Option<Config>,
    /// Every record destroyed so far, in destruction order.
    pub destroyed: Vec<Retired>,
}

impl Global {
    /// The advance count of the global epoch.
    pub open spec fn count(self) -> int {
        self.epoch.value().count()
    }

    /// The shared-state invariant.
    ///
    /// Announced epochs and abandoned seals never lie ahead of the global
    /// epoch, and every destroyed record was retired at least three advances
    /// before the current epoch — so its quarantine had fully elapsed when
    /// it was destroyed, and has only grown since.
    pub open spec fn wf(self) -> bool {
        &&& self.epoch.value().wf()
        &&& self.threads.wf()
        &&& forall|i: int|
            0 <= i < self.threads.view().len() ==> (#[trigger] self.threads.view()[
                i
            ].spec_elem()).wf() && self.threads.view()[i].spec_elem().count() <= self.count()
        &&& self.abandoned.wf()
        &&& forall|i: int|
            0 <= i < self.abandoned.spec_queues().len() ==> (#[trigger] self.abandoned
                .spec_queues()[i]).spec_seal().count() <= self.count()
        &&& all_stamps_le(self.destroyed@, self.count() - 3)
    }

    /// Creates the shared state at epoch zero.
    pub fn new() -> (r: Global)
        ensures
            r.wf(),
            r.count() == 0,
            r.threads.view().len() == 0,
            r.abandoned.spec_queues().len() == 0,
            r.destroyed@.len() == 0,
            r.config is None,
    {
        Global {
            epoch: AtomicEpoch::new(),
            threads: List::new(),
            abandoned: AbandonedQueue::new(),
            config: None,
            destroyed: Vec::new(),
        }
    }

    /// Creates the shared state with the epoch counter already at `epoch`,
    /// as a process would stand after that many advances.
    pub fn starting_at(epoch: Epoch) -> (r: Global)
        requires
            epoch.wf(),
        ensures
            r.wf(),
            r.epoch.value() == epoch,
            r.threads.view().len() == 0,
            r.abandoned.spec_queues().len() == 0,
            r.destroyed@.len() == 0,
            r.config is None,
    {
        Global {
            epoch: AtomicEpoch::starting_at(epoch),
            threads: List::new(),
            abandoned: AbandonedQueue::new(),
            config: None,
            destroyed: Vec::new(),
        }
    }

    /// Sets the configuration once; later calls change nothing.
    pub fn init_config(&mut self, config: Config)
        ensures
            final(self).config == match old(self).config {
                Some(c) => Some(c),
                None => Some(config),
            },
            final(self).epoch == old(self).epoch,
            final(self).threads == old(self).threads,
            final(self).abandoned == old(self).abandoned,
            final(self).destroyed == old(self).destroyed,
    {
        if self.config.is_none() {
            self.config = Some(config);
        }
    }

    /// What a thread snapshots at creation: the configuration that was
    /// set, or the defaults.
    pub open spec fn config_snapshot_spec(self) -> Config {
        match self.config {
            Some(c) => c,
            None => Config::spec_default(),
        }
    }

    /// The configuration to snapshot at thread creation: what was set, or
    /// the defaults.
    pub fn config_snapshot(&self) -> (r: Config)
        ensures
            r == self.config_snapshot_spec(),
    {
        match &self.config {
            Some(c) => *c,
            None => Config::new(),
        }
    }

    /// The current epoch's word.
    pub fn epoch_word(&self) -> (r: u64)
        ensures
            r == self.epoch.value().spec_word(),
    {
        self.epoch.load().into_inner()
    }

    /// Destruction happens only after quarantine: every record ever
    /// destroyed was retired at least three epoch advances before the
    /// current global epoch — in particular, the epoch had advanced at
    /// least twice past the record's retirement epoch when it was
    /// destroyed, and destruction only ever looks safer as the epoch grows.
    pub proof fn lemma_destroyed_after_quarantine(self, i: int)
        requires
            self.wf(),
            0 <= i < self.destroyed@.len(),
        ensures
            self.destroyed@[i].stamp() + 3 <= self.count(),
    {
    }

    /// How many records have been destroyed so far.
    pub fn destroyed_len(&self) -> (r: usize)
        ensures
            r == self.destroyed@.len(),
    {
        self.destroyed.len()
    }
}

} // verus!
