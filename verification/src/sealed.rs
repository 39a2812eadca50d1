//! Sealed bag queues: the quarantine an exiting thread leaves behind.
//!
//! When a thread exits, each non-empty queue of its bag ring is flattened
//! into a sealed queue labelled with the epoch during which that queue was
//! current. The label lets an adopting thread place the records at the
//! right distance from its own cursor, so they wait exactly as long as
//! freshly retired ones.

use crate::epoch::{count_age, Epoch};
use crate::retired::{all_stamps_le, Retired};
use vstd::multiset::Multiset;
use vstd::prelude::*;

verus! {

/// A flattened bag queue sealed with the epoch of its retirements.
pub struct SealedQueue {
    seal: Epoch,
    records: Vec<Retired>,
}

impl SealedQueue {
    /// The epoch during which the sealed records were retired.
    pub closed spec fn spec_seal(self) -> Epoch {
        self.seal
    }

    /// The sealed records.
    pub closed spec fn recs(self) -> Seq<Retired> {
        self.records@
    }

    /// The seal is a valid epoch and bounds the stamps of the records.
    pub open spec fn wf(self) -> bool {
        &&& self.spec_seal().wf()
        &&& all_stamps_le(self.recs(), self.spec_seal().count())
    }

    /// Seals `records` with the epoch `seal`.
    pub fn from_parts(seal: Epoch, records: Vec<Retired>) -> (r: SealedQueue)
        requires
            seal.wf(),
            all_stamps_le(records@, seal.count()),
        ensures
            r.wf(),
            r.spec_seal() == seal,
            r.recs() == records@,
    {
        SealedQueue { seal, records }
    }

    /// Returns the seal epoch.
    pub fn seal(&self) -> (r: Epoch)
        ensures
            r == self.spec_seal(),
    {
        self.seal
    }

    /// The number of sealed records.
    pub fn len(&self) -> (r: usize)
        ensures
            r == self.recs().len(),
    {
        self.records.len()
    }

    /// Consumes the sealed queue, returning its records.
    pub fn into_records(self) -> (r: Vec<Retired>)
        ensures
            r@ == self.recs(),
    {
        self.records
    }
}

/// The up-to-three sealed queues an exiting thread pushes onto the
/// abandoned stack in one step, newest first.
pub struct SealedList {
    queues: Vec<SealedQueue>,
}

impl SealedList {
    /// The sealed queues, newest first.
    pub closed spec fn spec_queues(self) -> Seq<SealedQueue> {
        self.queues@
    }

    /// Every sealed queue is well-formed.
    pub open spec fn wf(self) -> bool {
        forall|i: int| 0 <= i < self.spec_queues().len() ==> #[trigger] self.spec_queues()[i].wf()
    }

    /// Bundles the given sealed queues.
    pub fn from_queues(queues: Vec<SealedQueue>) -> (r: SealedList)
        requires
            forall|i: int| 0 <= i < queues@.len() ==> #[trigger] queues@[i].wf(),
        ensures
            r.wf(),
            r.spec_queues() == queues@,
    {
        SealedList { queues }
    }

    /// Consumes the list, returning its sealed queues, newest first.
    pub fn into_inner(self) -> (r: Vec<SealedQueue>)
        ensures
            r@ == self.spec_queues(),
    {
        self.queues
    }
}

/// The records of all sealed queues of `s`, concatenated.
pub open spec fn sealed_recs(s: Seq<SealedQueue>) -> Seq<Retired>
    decreases s.len(),
{
    if s.len() == 0 {
        Seq::empty()
    } else {
        s[0].recs() + sealed_recs(s.skip(1))
    }
}

/// Concatenating sealed-queue sequences concatenates their records.
pub proof fn lemma_sealed_recs_concat(a: Seq<SealedQueue>, b: Seq<SealedQueue>)
    ensures
        sealed_recs(a + b) == sealed_recs(a) + sealed_recs(b),
    decreases a.len(),
{
    if a.len() == 0 {
        assert(a + b =~= b);
        assert(sealed_recs(a) + sealed_recs(b) =~= sealed_recs(b));
    } else {
        assert((a + b).skip(1) =~= a.skip(1) + b);
        lemma_sealed_recs_concat(a.skip(1), b);
        assert(sealed_recs(a + b) =~= sealed_recs(a) + sealed_recs(b));
    }
}


/// The records of the sealed queues of `s` that are too old to adopt
/// relative to advance count `c`: at least three advances behind, hence
/// destroyed immediately on adoption.
pub open spec fn stale_recs(s: Seq<SealedQueue>, c: int) -> Multiset<Retired>
    decreases s.len(),
{
    if s.len() == 0 {
        Multiset::empty()
    } else {
        (if count_age(s[0].spec_seal().count(), c) >= 3 {
            s[0].recs().to_multiset()
        } else {
            Multiset::empty()
        }).add(stale_recs(s.skip(1), c))
    }
}

/// Appending a sealed queue adds its stale records, if any.
pub proof fn lemma_stale_recs_push(s: Seq<SealedQueue>, q: SealedQueue, c: int)
    ensures
        stale_recs(s.push(q), c) == stale_recs(s, c).add(
            if count_age(q.spec_seal().count(), c) >= 3 {
                q.recs().to_multiset()
            } else {
                Multiset::empty()
            },
        ),
    decreases s.len(),
{
    let part = if count_age(q.spec_seal().count(), c) >= 3 {
        q.recs().to_multiset()
    } else {
        Multiset::<Retired>::empty()
    };
    let t = s.push(q);
    if s.len() == 0 {
        assert(t.skip(1) =~= Seq::<SealedQueue>::empty());
        assert(stale_recs(t.skip(1), c) =~= Multiset::<Retired>::empty());
        assert(t[0] == q);
        assert(stale_recs(t, c) =~= stale_recs(s, c).add(part));
    } else {
        assert(t.skip(1) =~= s.skip(1).push(q));
        lemma_stale_recs_push(s.skip(1), q, c);
        assert(t[0] == s[0]);
        assert(stale_recs(t, c) == (if count_age(s[0].spec_seal().count(), c) >= 3 {
            s[0].recs().to_multiset()
        } else {
            Multiset::<Retired>::empty()
        }).add(stale_recs(t.skip(1), c)));
        assert(stale_recs(t, c) =~= stale_recs(s, c).add(part));
    }
}

/// Appending one sealed queue appends its records.
pub proof fn lemma_sealed_recs_push(s: Seq<SealedQueue>, q: SealedQueue)
    ensures
        sealed_recs(s.push(q)) == sealed_recs(s) + q.recs(),
{
    let single = seq![q];
    assert(s.push(q) =~= s + single);
    lemma_sealed_recs_concat(s, single);
    assert(sealed_recs(single.skip(1)) =~= Seq::<Retired>::empty()) by {
        assert(single.skip(1) =~= Seq::<SealedQueue>::empty());
    }
    assert(sealed_recs(single) =~= q.recs());
    assert(sealed_recs(s.push(q)) =~= sealed_recs(s) + q.recs());
}


} // verus!
