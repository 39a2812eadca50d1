//! Retired records: the unit of quarantine.
//!
//! A retired record stands for an unlinked heap object that may not be freed
//! yet; it is identified by its address. Each record carries a ghost stamp:
//! the global advance count at the moment it was retired. The stamp never
//! exists at run time, but it lets every container of records state how old
//! its contents are, and lets destruction sites prove that the epoch has
//! moved far enough past the stamp.

use vstd::prelude::*;

verus! {

/// An owned, type-erased record awaiting destruction.
pub struct Retired {
    addr: usize,
    stamp: Ghost<int>,
}

impl Retired {
    /// The address of the retired object.
    pub closed spec fn spec_addr(self) -> int {
        self.addr as int
    }

    /// The advance count at which the record was retired.
    pub closed spec fn stamp(self) -> int {
        self.stamp@
    }

    /// Takes ownership of the record at `addr`.
    ///
    /// The stamp is set by the bag ring when the record enters quarantine.
    pub fn new(addr: usize) -> (r: Retired)
        ensures
            r.spec_addr() == addr,
            r.stamp() == 0,
    {
        Retired { addr, stamp: Ghost(0int) }
    }

    /// The record `self` with its stamp set to `stamp`.
    pub closed spec fn stamped(self, stamp: int) -> Retired {
        Retired { addr: self.addr, stamp: Ghost(stamp) }
    }

    /// What stamping leaves unchanged and what it sets.
    pub broadcast proof fn lemma_stamped(self, stamp: int)
        ensures
            (#[trigger] self.stamped(stamp)).spec_addr() == self.spec_addr(),
            self.stamped(stamp).stamp() == stamp,
    {
    }

    /// The same record, stamped with the given advance count.
    pub fn with_stamp(self, Ghost(stamp): Ghost<int>) -> (r: Retired)
        ensures
            r == self.stamped(stamp),
            r.spec_addr() == self.spec_addr(),
            r.stamp() == stamp,
    {
        Retired { addr: self.addr, stamp: Ghost(stamp) }
    }

    /// Returns the address of the retired object.
    pub fn address(&self) -> (r: usize)
        ensures
            r as int == self.spec_addr(),
    {
        self.addr
    }

    /// Destroys the record, returning the address it held.
    pub fn reclaim(self) -> (r: usize)
        ensures
            r as int == self.spec_addr(),
    {
        self.addr
    }
}

/// Every record in `s` was retired no later than advance count `bound`.
pub open spec fn all_stamps_le(s: Seq<Retired>, bound: int) -> bool {
    forall|i: int| 0 <= i < s.len() ==> #[trigger] s[i].stamp() <= bound
}

/// A stamp bound carries over to any sequence drawn from the same records.
pub proof fn lemma_stamps_le_of_submultiset(t: Seq<Retired>, s: Seq<Retired>, bound: int)
    requires
        all_stamps_le(s, bound),
        t.to_multiset().subset_of(s.to_multiset()),
    ensures
        all_stamps_le(t, bound),
{
    broadcast use vstd::seq_lib::group_to_multiset_ensures;

    assert forall|i: int| 0 <= i < t.len() implies #[trigger] t[i].stamp() <= bound by {
        assert(t.contains(t[i]));
        assert(s.to_multiset().count(t[i]) > 0);
        assert(s.contains(t[i]));
        let j = choose|j: int| 0 <= j < s.len() && s[j] == t[i];
        assert(s[j].stamp() <= bound);
    }
}

} // verus!
