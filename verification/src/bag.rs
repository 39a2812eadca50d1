//! Bags of retired records, bag queues, the bag pool, and the three-queue
//! ring that gives records their two-epoch quarantine.
//!
//! A bag is a bounded array of retired records. A bag queue is a stack of
//! bags whose top (the head) always has room for one more record while every
//! other bag is full. The ring holds three queues and a cursor; retirements
//! go to the current queue and each epoch advance rotates the cursor onto
//! the oldest queue, whose full bags are then drained. The ring also carries
//! a ghost epoch count, and its invariant bounds the stamp of every record
//! by the age of the slot it sits in — which is what makes the drain's
//! contract provable: drained records are always at least three advances
//! old.

use crate::epoch::{Epoch, PossibleAge};
use crate::retired::{all_stamps_le, lemma_stamps_le_of_submultiset, Retired};
use crate::sealed::{sealed_recs, SealedList, SealedQueue};
use vstd::prelude::*;
use vstd::multiset::{group_multiset_axioms, Multiset};
use vstd::seq_lib::{group_to_multiset_ensures, lemma_multiset_commutative};

verus! {

broadcast use group_to_multiset_ensures, lemma_multiset_commutative, group_multiset_axioms;

/// Retired records per bag, by default.
pub const DEFAULT_BAG_SIZE: usize = 256;

/// Empty bags a thread keeps for reuse, at most.
pub const BAG_POOL_SIZE: usize = 16;

/// A bounded array of retired records.
pub struct Bag {
    records: Vec<Retired>,
    cap: usize,
}

impl Bag {
    /// The records in the bag.
    pub closed spec fn recs(self) -> Seq<Retired> {
        self.records@
    }

    /// The bag's capacity.
    pub closed spec fn spec_cap(self) -> int {
        self.cap as int
    }

    /// The capacity is positive and never exceeded.
    pub open spec fn wf(self) -> bool {
        1 <= self.spec_cap() && self.recs().len() <= self.spec_cap()
    }

    /// Creates an empty bag of capacity `cap`.
    pub fn new(cap: usize) -> (r: Bag)
        requires
            cap >= 1,
        ensures
            r.wf(),
            r.spec_cap() == cap,
            r.recs().len() == 0,
    {
        Bag { records: Vec::new(), cap }
    }

    /// The number of records in the bag.
    pub fn len(&self) -> (r: usize)
        ensures
            r == self.recs().len(),
    {
        self.records.len()
    }

    /// Whether the bag is at capacity.
    pub fn is_full(&self) -> (r: bool)
        ensures
            r == (self.recs().len() == self.spec_cap()),
    {
        self.records.len() == self.cap
    }

    /// Adds a record to a bag that has room.
    pub fn push(&mut self, record: Retired)
        requires
            old(self).wf(),
            old(self).recs().len() < old(self).spec_cap(),
        ensures
            final(self).wf(),
            final(self).spec_cap() == old(self).spec_cap(),
            final(self).recs() == old(self).recs().push(record),
    {
        self.records.push(record);
    }

    /// Removes the most recent record, if any.
    pub fn pop(&mut self) -> (r: Option<Retired>)
        requires
            old(self).wf(),
        ensures
            final(self).wf(),
            final(self).spec_cap() == old(self).spec_cap(),
            old(self).recs().len() == 0 ==> r is None && final(self).recs() == old(self).recs(),
            old(self).recs().len() > 0 ==> r == Some(old(self).recs().last()) && final(self).recs() == old(self).recs().drop_last(),
    {
        self.records.pop()
    }
}

/// The records of a stack of bags, oldest bag first.
pub open spec fn concat_bags(bs: Seq<Bag>) -> Seq<Retired>
    decreases bs.len(),
{
    if bs.len() == 0 {
        Seq::empty()
    } else {
        concat_bags(bs.drop_last()) + bs.last().recs()
    }
}

/// The record count of a concatenation is at least each bag's count.
proof fn lemma_concat_bags_le(bs: Seq<Bag>, i: int)
    requires
        0 <= i < bs.len(),
    ensures
        concat_bags(bs).len() >= bs[i].recs().len(),
    decreases bs.len(),
{
    if i == bs.len() - 1 {
    } else {
        lemma_concat_bags_le(bs.drop_last(), i);
    }
}

/// A one-bag stack holds exactly that bag's records.
proof fn lemma_concat_bags_singleton(bs: Seq<Bag>)
    requires
        bs.len() == 1,
    ensures
        concat_bags(bs) == bs[0].recs(),
{
    assert(bs.drop_last() =~= Seq::<Bag>::empty());
    assert(concat_bags(bs.drop_last()) =~= Seq::<Retired>::empty());
    assert(concat_bags(bs) =~= bs[0].recs());
}

/// Pushing a bag appends its records.
proof fn lemma_concat_bags_push(bs: Seq<Bag>, b: Bag)
    ensures
        concat_bags(bs.push(b)) == concat_bags(bs) + b.recs(),
{
    assert(bs.push(b).drop_last() =~= bs);
    assert(bs.push(b).last() == b);
}

/// A stack of bags: the top (last) is the head and always has room, every
/// bag below it is full.
pub struct BagQueue {
    bags: Vec<Bag>,
    cap: usize,
}

impl BagQueue {
    /// The bags, oldest first; the last is the head.
    pub closed spec fn bags_view(self) -> Seq<Bag> {
        self.bags@
    }

    /// The common capacity of the bags.
    pub closed spec fn spec_cap(self) -> int {
        self.cap as int
    }

    /// All records in the queue, oldest bag first.
    pub open spec fn recs(self) -> Seq<Retired> {
        concat_bags(self.bags_view())
    }

    /// The number of bags.
    pub open spec fn num_bags(self) -> int {
        self.bags_view().len() as int
    }

    /// The number of records in the head bag.
    pub open spec fn head_len(self) -> int {
        self.bags_view().last().recs().len() as int
    }

    /// Shared shape: a positive capacity, at least one bag, all bags of that
    /// capacity, and all bags below the head full.
    pub open spec fn wf_base(self) -> bool {
        &&& 1 <= self.spec_cap()
        &&& self.num_bags() >= 1
        &&& forall|i: int|
            0 <= i < self.num_bags() ==> #[trigger] self.bags_view()[i].wf()
                && self.bags_view()[i].spec_cap() == self.spec_cap()
        &&& forall|i: int|
            0 <= i < self.num_bags() - 1 ==> #[trigger] self.bags_view()[i].recs().len()
                == self.spec_cap()
    }

    /// The queue's invariant: the head has room for one more record.
    pub open spec fn wf(self) -> bool {
        self.wf_base() && self.head_len() < self.spec_cap()
    }

    /// After a final retirement the head may be exactly full.
    pub open spec fn wf_loose(self) -> bool {
        self.wf_base()
    }

    /// Creates an empty queue of bags with capacity `cap`.
    pub fn new(cap: usize) -> (r: BagQueue)
        requires
            cap >= 1,
        ensures
            r.wf(),
            r.spec_cap() == cap,
            r.recs().len() == 0,
            r.num_bags() == 1,
    {
        let mut bags: Vec<Bag> = Vec::new();
        bags.push(Bag::new(cap));
        let r = BagQueue { bags, cap };
        proof {
            lemma_concat_bags_singleton(r.bags_view());
        }
        r
    }

    /// Whether the queue holds no records: one bag, and it is empty.
    pub fn is_empty(&self) -> (r: bool)
        requires
            self.wf_loose(),
        ensures
            r == (self.recs().len() == 0),
    {
        let n = self.bags.len();
        let empty = n == 1 && self.bags[0].len() == 0;
        proof {
            if n == 1 {
                lemma_concat_bags_singleton(self.bags_view());
            } else {
                lemma_concat_bags_le(self.bags_view(), 0);
                assert(self.bags_view()[0].recs().len() == self.spec_cap());
            }
        }
        empty
    }

    /// The number of bags, as a value.
    pub fn bag_count(&self) -> (r: usize)
        ensures
            r == self.num_bags(),
    {
        self.bags.len()
    }

    /// Retires one record into the head bag; when that fills the head, a
    /// fresh bag from the pool becomes the new head.
    #[verifier::rlimit(30)]
    pub fn retire_record(&mut self, record: Retired, pool: &mut BagPool)
        requires
            old(self).wf(),
            old(pool).wf(),
            old(pool).spec_cap() == old(self).spec_cap(),
        ensures
            final(self).wf(),
            final(self).spec_cap() == old(self).spec_cap(),
            final(self).recs().to_multiset() == old(self).recs().to_multiset().insert(record),
            final(pool).wf(),
            final(pool).spec_cap() == old(pool).spec_cap(),
            old(self).head_len() + 1 == old(self).spec_cap() ==> final(self).num_bags() == old(self).num_bags() + 1 && final(self).head_len() == 0,
            old(self).head_len() + 1 < old(self).spec_cap() ==> final(self).num_bags() == old(self).num_bags() && final(self).head_len() == old(self).head_len() + 1,
    {
        let ghost pre = *self;
        let mut head = match self.bags.pop() {
            Some(h) => h,
            None => {
                proof {
                    assert(false);
                }
                Bag::new(1)
            },
        };
        proof {
            assert(pre.bags_view()[pre.num_bags() - 1].wf());
        }
        head.push(record);
        let full = head.is_full();
        self.bags.push(head);
        proof {
            assert(self.bags_view().drop_last() =~= pre.bags_view().drop_last());
            assert(self.recs() =~= concat_bags(pre.bags_view().drop_last()) + pre.bags_view()
                .last().recs().push(record));
            assert(pre.recs().to_multiset().insert(record) == (concat_bags(
                pre.bags_view().drop_last(),
            ) + pre.bags_view().last().recs()).to_multiset().insert(record));
            assert(self.recs().to_multiset() =~= pre.recs().to_multiset().insert(record));
        }
        if full {
            let fresh = pool.allocate_bag();
            let ghost mid = *self;
            self.bags.push(fresh);
            proof {
                assert(self.bags_view().drop_last() =~= mid.bags_view());
                assert(self.recs() =~= mid.recs());
                assert(self.wf());
            }
        } else {
            proof {
                assert(self.wf());
            }
        }
    }

    /// Retires one record into the head bag without replacing a filled head;
    /// the caller promises this is the thread's last retirement.
    pub fn retire_final(&mut self, record: Retired)
        requires
            old(self).wf(),
        ensures
            final(self).wf_loose(),
            final(self).spec_cap() == old(self).spec_cap(),
            final(self).num_bags() == old(self).num_bags(),
            final(self).bags_view().drop_last() == old(self).bags_view().drop_last(),
            final(self).bags_view().last().recs() == old(self).bags_view().last().recs().push(
                record,
            ),
            final(self).recs().to_multiset() == old(self).recs().to_multiset().insert(record),
    {
        let ghost pre = *self;
        let mut head = match self.bags.pop() {
            Some(h) => h,
            None => {
                proof {
                    assert(false);
                }
                Bag::new(1)
            },
        };
        proof {
            assert(pre.bags_view()[pre.num_bags() - 1].wf());
        }
        head.push(record);
        self.bags.push(head);
        proof {
            assert(self.bags_view().drop_last() =~= pre.bags_view().drop_last());
            assert(self.recs() =~= concat_bags(pre.bags_view().drop_last()) + pre.bags_view()
                .last().recs().push(record));
            assert(self.recs().to_multiset() =~= pre.recs().to_multiset().insert(record));
        }
    }

    /// Drains the queue: destroys every record, head bag included, in
    /// last-retired-first order, and recycles the emptied bag shells,
    /// leaving one empty head bag.
    #[verifier::loop_isolation(false)]
    pub fn reclaim_full_bags(&mut self, pool: &mut BagPool) -> (out: Vec<Retired>)
        requires
            old(self).wf(),
            old(pool).wf(),
            old(pool).spec_cap() == old(self).spec_cap(),
        ensures
            final(self).wf(),
            final(self).spec_cap() == old(self).spec_cap(),
            final(self).num_bags() == 1,
            final(self).recs().len() == 0,
            out@ == old(self).recs().reverse(),
            out@.to_multiset() == old(self).recs().to_multiset(),
            final(pool).wf(),
            final(pool).spec_cap() == old(pool).spec_cap(),
    {
        let ghost pre = *self;
        let mut out: Vec<Retired> = Vec::new();
        proof {
            assert(out@.reverse() =~= Seq::<Retired>::empty());
            assert(pre.recs() =~= concat_bags(self.bags@) + out@.reverse());
        }
        while self.bags.len() > 0
            invariant
                forall|i: int|
                    0 <= i < self.bags@.len() ==> #[trigger] self.bags@[i].wf()
                        && self.bags@[i].spec_cap() == pre.spec_cap(),
                self.cap == pre.spec_cap(),
                pool.wf(),
                pool.spec_cap() == pre.spec_cap(),
                pre.recs() == concat_bags(self.bags@) + out@.reverse(),
            decreases self.bags@.len(),
        {
            let ghost before = self.bags@;
            let mut bag = match self.bags.pop() {
                Some(b) => b,
                None => {
                    proof {
                        assert(false);
                    }
                    Bag::new(1)
                },
            };
            proof {
                assert(before[before.len() - 1].wf());
                assert(before =~= self.bags@.push(bag));
                lemma_concat_bags_push(self.bags@, bag);
                assert forall|i: int| 0 <= i < self.bags@.len() implies #[trigger] self
                    .bags@[i].wf() && self.bags@[i].spec_cap() == pre.spec_cap() by {
                    assert(before[i].wf());
                    assert(before[i].spec_cap() == pre.spec_cap());
                }
                assert(pre.recs() =~= concat_bags(self.bags@) + bag.recs() + out@.reverse());
            }
            let ghost bags_left = self.bags@;
            while bag.len() > 0
                invariant
                    bag.wf(),
                    bag.spec_cap() == pre.spec_cap(),
                    self.bags@ == bags_left,
                    pre.recs() == concat_bags(bags_left) + bag.recs() + out@.reverse(),
                decreases bag.recs().len(),
            {
                let ghost out0 = out@;
                let ghost brecs = bag.recs();
                let r = match bag.pop() {
                    Some(r) => r,
                    None => {
                        proof {
                            assert(false);
                        }
                        Retired::new(0)
                    },
                };
                out.push(r);
                proof {
                    assert(brecs =~= bag.recs().push(r));
                    assert(out@.reverse() =~= seq![r] + out0.reverse());
                    assert(bag.recs() + out@.reverse() =~= brecs + out0.reverse());
                    assert(pre.recs() =~= concat_bags(bags_left) + bag.recs() + out@.reverse());
                }
            }
            proof {
                assert(bag.recs() =~= Seq::<Retired>::empty());
                assert(concat_bags(self.bags@) + out@.reverse() =~= concat_bags(bags_left)
                    + bag.recs() + out@.reverse());
                assert(pre.recs() =~= concat_bags(self.bags@) + out@.reverse());
            }
            pool.recycle_bag(bag);
        }
        let fresh = pool.allocate_bag();
        self.bags.push(fresh);
        proof {
            lemma_concat_bags_singleton(self.bags@);
            assert(concat_bags(Seq::<Bag>::empty()) =~= Seq::<Retired>::empty());
            assert(pre.recs() =~= out@.reverse());
            assert(out@ =~= pre.recs().reverse());
            vstd::seq_lib::lemma_multiset_commutative(Seq::<Retired>::empty(), out@);
            out@.lemma_reverse_to_multiset();
            assert(out@.to_multiset() =~= pre.recs().to_multiset());
        }
        out
    }

    /// Flattens the queue into a single vector of records.
    #[verifier::loop_isolation(false)]
    pub fn into_records(self) -> (out: Vec<Retired>)
        requires
            self.wf_loose(),
        ensures
            out@.to_multiset() == self.recs().to_multiset(),
    {
        let ghost all = self.recs();
        let ghost cap0 = self.spec_cap();
        let BagQueue { mut bags, cap: _ } = self;
        let mut out: Vec<Retired> = Vec::new();
        while bags.len() > 0
            invariant
                forall|i: int| 0 <= i < bags@.len() ==> #[trigger] bags@[i].wf(),
                out@.to_multiset().add(concat_bags(bags@).to_multiset()) == all.to_multiset(),
            decreases bags@.len(),
        {
            let ghost before = bags@;
            let mut bag = match bags.pop() {
                Some(b) => b,
                None => {
                    proof {
                        assert(false);
                    }
                    Bag::new(1)
                },
            };
            proof {
                assert(before[before.len() - 1].wf());
                assert(before =~= bags@.push(bag));
                lemma_concat_bags_push(bags@, bag);
            }
            let ghost bags_left = bags@;
            while bag.len() > 0
                invariant
                    bag.wf(),
                    bags@ == bags_left,
                    out@.to_multiset().add(concat_bags(bags_left).to_multiset()).add(
                        bag.recs().to_multiset(),
                    ) == all.to_multiset(),
                decreases bag.recs().len(),
            {
                let ghost out0 = out@;
                let ghost brecs = bag.recs();
                let r = match bag.pop() {
                    Some(r) => r,
                    None => {
                        proof {
                            assert(false);
                        }
                        Retired::new(0)
                    },
                };
                out.push(r);
                proof {
                    assert(brecs =~= bag.recs().push(r));
                    assert(out@.to_multiset().add(concat_bags(bags_left).to_multiset()).add(
                        bag.recs().to_multiset(),
                    ) =~= out0.to_multiset().add(concat_bags(bags_left).to_multiset()).add(
                        brecs.to_multiset(),
                    ));
                }
            }
            proof {
                assert(bag.recs().to_multiset() =~= Multiset::<Retired>::empty());
                assert(out@.to_multiset().add(concat_bags(bags@).to_multiset())
                    =~= out@.to_multiset().add(concat_bags(bags_left).to_multiset()).add(
                    bag.recs().to_multiset(),
                ));
            }
        }
        proof {
            assert(concat_bags(bags@).to_multiset() =~= Multiset::<Retired>::empty());
            assert(out@.to_multiset() =~= all.to_multiset());
        }
        out
    }

    /// Seals the queue with `epoch` when it holds records; an empty queue
    /// yields nothing.
    pub fn into_sealed(self, epoch: Epoch) -> (r: Option<SealedQueue>)
        requires
            self.wf_loose(),
            epoch.wf(),
            all_stamps_le(self.recs(), epoch.count()),
        ensures
            r is None <==> self.recs().len() == 0,
            match r {
                Some(q) => q.wf() && q.spec_seal() == epoch && q.recs().to_multiset()
                    == self.recs().to_multiset(),
                None => true,
            },
    {
        if self.is_empty_loose() {
            None
        } else {
            let ghost pre = self;
            let records = self.into_records();
            proof {
                lemma_stamps_le_of_submultiset(records@, pre.recs(), epoch.count());
                assert(records@.to_multiset().len() == records@.len());
                assert(pre.recs().to_multiset().len() == pre.recs().len());
            }
            Some(SealedQueue::from_parts(epoch, records))
        }
    }

    /// Whether the queue holds no records, under the loose invariant.
    fn is_empty_loose(&self) -> (r: bool)
        requires
            self.wf_loose(),
        ensures
            r == (self.recs().len() == 0),
    {
        let n = self.bags.len();
        let empty = n == 1 && self.bags[0].len() == 0;
        proof {
            if n == 1 {
                lemma_concat_bags_singleton(self.bags_view());
            } else {
                lemma_concat_bags_le(self.bags_view(), 0);
                assert(self.bags_view()[0].recs().len() == self.spec_cap());
            }
        }
        empty
    }
}


/// The slot that absorbs an adopted sealed queue of age `a`: the current
/// slot for age zero, the slot drained two rotations from now for age one,
/// and the slot drained next for age two.
pub open spec fn sealed_slot(curr: int, a: int) -> int {
    if a == 0 {
        curr
    } else if a == 1 {
        (curr + 2) % 3
    } else {
        (curr + 1) % 3
    }
}

/// The ring of three bag queues rotated under a cursor.
///
/// Retirements go to the current queue; each observed epoch advance rotates
/// the cursor forward and drains the queue it lands on, which the invariant
/// shows holds only records at least three advances old. The ghost `epoch`
/// is the advance count the owning thread has last observed; every record in
/// the slot of age `k` was stamped at most `epoch - k`.
pub struct EpochBagQueues {
    queues: Vec<BagQueue>,
    curr_idx: usize,
    cap: usize,
    epoch: Ghost<int>,
}

impl EpochBagQueues {
    /// The three queues, by fixed slot index.
    pub closed spec fn spec_queues(self) -> Seq<BagQueue> {
        self.queues@
    }

    /// The slot retirements currently go to.
    pub closed spec fn spec_curr(self) -> int {
        self.curr_idx as int
    }

    /// The common bag capacity.
    pub closed spec fn spec_cap(self) -> int {
        self.cap as int
    }

    /// The advance count of the owner's last observed epoch.
    pub closed spec fn epoch(self) -> int {
        self.epoch@
    }

    /// How many rotations ago slot `i` was the current slot.
    pub open spec fn slot_age(self, i: int) -> int {
        (self.spec_curr() + 3 - i) % 3
    }

    /// All quarantined records, in slot order.
    pub open spec fn all_recs(self) -> Seq<Retired> {
        self.spec_queues()[0].recs() + self.spec_queues()[1].recs() + self.spec_queues()[2].recs()
    }

    /// Shape: three queues of one capacity, the cursor in range.
    pub open spec fn wf_shape(self) -> bool {
        &&& self.spec_queues().len() == 3
        &&& 0 <= self.spec_curr() < 3
        &&& 1 <= self.spec_cap()
        &&& forall|i: int|
            0 <= i < 3 ==> #[trigger] self.spec_queues()[i].spec_cap() == self.spec_cap()
    }

    /// Every record is no younger than its slot: stamped at most
    /// `epoch - slot_age`.
    pub open spec fn stamps_ok(self) -> bool {
        forall|i: int|
            0 <= i < 3 ==> all_stamps_le(
                #[trigger] self.spec_queues()[i].recs(),
                self.epoch() - self.slot_age(i),
            )
    }

    /// The ring invariant.
    pub open spec fn wf(self) -> bool {
        &&& self.wf_shape()
        &&& forall|i: int| 0 <= i < 3 ==> (#[trigger] self.spec_queues()[i]).wf()
        &&& self.stamps_ok()
    }

    /// After the final retirement a head bag may be exactly full.
    pub open spec fn wf_loose(self) -> bool {
        &&& self.wf_shape()
        &&& forall|i: int| 0 <= i < 3 ==> (#[trigger] self.spec_queues()[i]).wf_loose()
        &&& self.stamps_ok()
    }

    /// Creates an empty ring for bags of capacity `cap`, owned by a thread
    /// whose observed epoch has advance count `count`.
    pub fn new(cap: usize, Ghost(count): Ghost<int>) -> (r: EpochBagQueues)
        requires
            cap >= 1,
        ensures
            r.wf(),
            r.spec_cap() == cap,
            r.spec_curr() == 0,
            r.epoch() == count,
            r.all_recs().len() == 0,
    {
        let mut queues: Vec<BagQueue> = Vec::new();
        queues.push(BagQueue::new(cap));
        queues.push(BagQueue::new(cap));
        queues.push(BagQueue::new(cap));
        let r = EpochBagQueues { queues, curr_idx: 0, cap, epoch: Ghost(count) };
        r
    }

    /// Retires one stamped record into the current queue.
    pub fn retire_record(&mut self, record: Retired, pool: &mut BagPool)
        requires
            old(self).wf(),
            record.stamp() <= old(self).epoch(),
            old(pool).wf(),
            old(pool).spec_cap() == old(self).spec_cap(),
        ensures
            final(self).wf(),
            final(self).spec_cap() == old(self).spec_cap(),
            final(self).spec_curr() == old(self).spec_curr(),
            final(self).epoch() == old(self).epoch(),
            final(self).all_recs().to_multiset() == old(self).all_recs().to_multiset().insert(
                record,
            ),
            final(pool).wf(),
            final(pool).spec_cap() == old(pool).spec_cap(),
            forall|i: int|
                0 <= i < 3 && i != old(self).spec_curr() ==> #[trigger] final(self).spec_queues()[i] == old(self).spec_queues()[i],
            old(self).spec_queues()[old(self).spec_curr()].head_len() + 1 == old(self).spec_cap()
                ==> final(self).spec_queues()[old(self).spec_curr()].num_bags() == old(self).spec_queues()[old(self).spec_curr()].num_bags() + 1 && final(self).spec_queues()[old(self).spec_curr()].head_len() == 0,
            old(self).spec_queues()[old(self).spec_curr()].head_len() + 1 < old(self).spec_cap()
                ==> final(self).spec_queues()[old(self).spec_curr()].num_bags() == old(self).spec_queues()[old(self).spec_curr()].num_bags() && final(self).spec_queues()[old(self).spec_curr()].head_len() == old(self).spec_queues()[old(self).spec_curr()].head_len() + 1,
    {
        let ghost pre = *self;
        let idx = self.curr_idx;
        let mut q = self.queues.remove(idx);
        let ghost q0 = q;
        q.retire_record(record, pool);
        self.queues.insert(idx, q);
        proof {
            assert(self.queues@ =~= pre.spec_queues().update(idx as int, q));
            self.lemma_update_multiset(pre, idx as int, q0, q, record);
            assert(all_stamps_le(q0.recs().push(record), pre.epoch() - pre.slot_age(idx as int)))
                by {
                assert((pre.spec_curr() + 3 - idx as int) % 3 == 0);
                assert(forall|j: int|
                    0 <= j < q0.recs().len() ==> #[trigger] q0.recs()[j].stamp() <= pre.epoch());
            }
            lemma_stamps_le_of_submultiset(
                q.recs(),
                q0.recs().push(record),
                pre.epoch() - pre.slot_age(idx as int),
            );
        }
    }

    /// The update of one slot changes the record multiset by that slot's
    /// change.
    proof fn lemma_update_multiset(
        self,
        pre: EpochBagQueues,
        idx: int,
        q0: BagQueue,
        q1: BagQueue,
        record: Retired,
    )
        requires
            pre.wf_shape(),
            0 <= idx < 3,
            self.spec_queues() == pre.spec_queues().update(idx, q1),
            q0 == pre.spec_queues()[idx],
            q1.recs().to_multiset() == q0.recs().to_multiset().insert(record),
        ensures
            self.all_recs().to_multiset() == pre.all_recs().to_multiset().insert(record),
    {
        assert(self.all_recs().to_multiset() =~= pre.all_recs().to_multiset().insert(record));
    }

    /// The update of one slot changes the record multiset by whatever the
    /// slot absorbed.
    proof fn lemma_update_add(
        self,
        pre: EpochBagQueues,
        idx: int,
        q0: BagQueue,
        q1: BagQueue,
        added: Multiset<Retired>,
    )
        requires
            pre.wf_shape(),
            0 <= idx < 3,
            self.spec_queues() == pre.spec_queues().update(idx, q1),
            q0 == pre.spec_queues()[idx],
            q1.recs().to_multiset() == q0.recs().to_multiset().add(added),
        ensures
            self.all_recs().to_multiset() == pre.all_recs().to_multiset().add(added),
    {
        assert(self.all_recs().to_multiset() =~= pre.all_recs().to_multiset().add(added));
    }

    /// Retires the final record of an exiting thread into the current
    /// queue's head bag, which afterwards may be exactly full.
    pub fn retire_final_record(&mut self, record: Retired)
        requires
            old(self).wf(),
            record.stamp() <= old(self).epoch(),
        ensures
            final(self).wf_loose(),
            final(self).spec_cap() == old(self).spec_cap(),
            final(self).spec_curr() == old(self).spec_curr(),
            final(self).epoch() == old(self).epoch(),
            forall|i: int|
                0 <= i < 3 && i != old(self).spec_curr() ==> #[trigger] final(self).spec_queues()[i] == old(self).spec_queues()[i],
            final(self).spec_queues()[old(self).spec_curr()].num_bags() == old(self).spec_queues()[old(self).spec_curr()].num_bags(),
            final(self).spec_queues()[old(self).spec_curr()].recs().to_multiset() == old(self).spec_queues()[old(self).spec_curr()].recs().to_multiset().insert(record),
            final(self).all_recs().to_multiset() == old(self).all_recs().to_multiset().insert(
                record,
            ),
    {
        let ghost pre = *self;
        let idx = self.curr_idx;
        let mut q = self.queues.remove(idx);
        let ghost q0 = q;
        q.retire_final(record);
        self.queues.insert(idx, q);
        proof {
            assert(self.queues@ =~= pre.spec_queues().update(idx as int, q));
            self.lemma_update_multiset(pre, idx as int, q0, q, record);
            assert(all_stamps_le(q0.recs().push(record), pre.epoch() - pre.slot_age(idx as int)))
                by {
                assert((pre.spec_curr() + 3 - idx as int) % 3 == 0);
                assert(forall|j: int|
                    0 <= j < q0.recs().len() ==> #[trigger] q0.recs()[j].stamp() <= pre.epoch());
            }
            lemma_stamps_le_of_submultiset(
                q.recs(),
                q0.recs().push(record),
                pre.epoch() - pre.slot_age(idx as int),
            );
        }
    }

    /// Rotates the cursor onto the oldest slot and drains it: exactly that
    /// slot's records come back, last retired first, the slot is left
    /// empty, and the other two slots are untouched.
    ///
    /// The caller has observed the epoch advance to `new_count`; every
    /// drained record was stamped at least three advances before that, which
    /// is the central safety fact of the scheme.
    pub fn rotate_and_reclaim(
        &mut self,
        pool: &mut BagPool,
        Ghost(new_count): Ghost<int>,
    ) -> (out: Vec<Retired>)
        requires
            old(self).wf(),
            old(self).epoch() < new_count,
            old(pool).wf(),
            old(pool).spec_cap() == old(self).spec_cap(),
        ensures
            final(self).wf(),
            final(self).spec_cap() == old(self).spec_cap(),
            final(self).spec_curr() == (old(self).spec_curr() + 1) % 3,
            final(self).epoch() == new_count,
            out@ == old(self).spec_queues()[(old(self).spec_curr() + 1) % 3].recs().reverse(),
            out@.to_multiset() == old(self).spec_queues()[(old(self).spec_curr() + 1)
                % 3].recs().to_multiset(),
            final(self).spec_queues()[(old(self).spec_curr() + 1) % 3].recs().len() == 0,
            forall|i: int|
                0 <= i < 3 && i != (old(self).spec_curr() + 1) % 3 ==> #[trigger] final(self).spec_queues()[i] == old(self).spec_queues()[i],
            final(self).all_recs().to_multiset().add(out@.to_multiset()) == old(self).all_recs().to_multiset(),
            all_stamps_le(out@, new_count - 3),
            final(pool).wf(),
            final(pool).spec_cap() == old(pool).spec_cap(),
    {
        let ghost pre = *self;
        let idx = (self.curr_idx + 1) % 3;
        self.curr_idx = idx;
        let mut q = self.queues.remove(idx);
        let ghost q0 = q;
        let out = q.reclaim_full_bags(pool);
        self.queues.insert(idx, q);
        self.epoch = Ghost(new_count);
        proof {
            assert(self.queues@ =~= pre.spec_queues().update(idx as int, q));
            assert(pre.slot_age(idx as int) == 2) by {
                assert((pre.spec_curr() + 3 - (pre.spec_curr() + 1) % 3) % 3 == 2);
            }
            assert(all_stamps_le(q0.recs(), pre.epoch() - 2));
            assert(out@.to_multiset().subset_of(q0.recs().to_multiset()));
            lemma_stamps_le_of_submultiset(out@, q0.recs(), pre.epoch() - 2);
            assert(all_stamps_le(out@, new_count - 3));
            assert(q.recs().to_multiset().subset_of(q0.recs().to_multiset()));
            lemma_stamps_le_of_submultiset(q.recs(), q0.recs(), pre.epoch() - 2);
            assert(self.all_recs().to_multiset().add(out@.to_multiset()) =~= pre.all_recs()
                .to_multiset());
            assert forall|i: int| 0 <= i < 3 implies all_stamps_le(
                #[trigger] self.spec_queues()[i].recs(),
                self.epoch() - self.slot_age(i),
            ) by {
                if i == idx as int {
                    assert(self.slot_age(i) == 0);
                    assert(all_stamps_le(self.spec_queues()[i].recs(), new_count - 3));
                } else {
                    assert(self.spec_queues()[i] == pre.spec_queues()[i]);
                    assert(self.slot_age(i) == pre.slot_age(i) + 1);
                    assert(all_stamps_le(
                        pre.spec_queues()[i].recs(),
                        pre.epoch() - pre.slot_age(i),
                    ));
                }
            }
        }
        out
    }

    /// Takes in one sealed queue left by an exited thread.
    ///
    /// A seal within the two-epoch window places the records in the slot
    /// with the matching age, so they are destroyed on the same schedule as
    /// records retired at the sealed epoch; an older seal has its records
    /// returned for immediate destruction, which is safe because they are at
    /// least three advances old.
    #[verifier::loop_isolation(false)]
    #[verifier::rlimit(60)]
    pub fn retire_sealed(
        &mut self,
        global_epoch: Epoch,
        sealed: SealedQueue,
        pool: &mut BagPool,
    ) -> (out: Vec<Retired>)
        requires
            old(self).wf(),
            old(pool).wf(),
            old(pool).spec_cap() == old(self).spec_cap(),
            global_epoch.wf(),
            global_epoch.count() == old(self).epoch(),
            sealed.wf(),
            sealed.spec_seal().count() <= global_epoch.count(),
        ensures
            final(self).wf(),
            final(self).spec_cap() == old(self).spec_cap(),
            final(self).spec_curr() == old(self).spec_curr(),
            final(self).epoch() == old(self).epoch(),
            crate::epoch::count_age(sealed.spec_seal().count(), global_epoch.count()) >= 3 ==> {
                &&& out@ == sealed.recs()
                &&& final(self).spec_queues() == old(self).spec_queues()
            },
            crate::epoch::count_age(sealed.spec_seal().count(), global_epoch.count()) <= 2 ==> {
                let dst = sealed_slot(
                    old(self).spec_curr(),
                    crate::epoch::count_age(sealed.spec_seal().count(), global_epoch.count()),
                );
                &&& out@ == Seq::<Retired>::empty()
                &&& final(self).spec_queues()[dst].recs().to_multiset() == old(self).spec_queues()[dst].recs().to_multiset().add(sealed.recs().to_multiset())
                &&& forall|i: int|
                    0 <= i < 3 && i != dst ==> #[trigger] final(self).spec_queues()[i] == old(self).spec_queues()[i]
            },
            final(self).all_recs().to_multiset().add(out@.to_multiset()) == old(self).all_recs().to_multiset().add(sealed.recs().to_multiset()),
            all_stamps_le(out@, old(self).epoch() - 3),
            final(pool).wf(),
            final(pool).spec_cap() == old(pool).spec_cap(),
    {
        let ghost pre = *self;
        let seal = sealed.seal();
        match seal.relative_age(global_epoch) {
            Err(_) => {
                let ghost srecs = sealed.recs();
                let out = sealed.into_records();
                proof {
                    lemma_stamps_le_of_submultiset(out@, srecs, seal.count());
                    assert(out@.to_multiset() == srecs.to_multiset());
                    assert(self.all_recs() == pre.all_recs());
                    assert(self.all_recs().to_multiset().add(out@.to_multiset())
                        =~= pre.all_recs().to_multiset().add(srecs.to_multiset()));
                }
                out
            },
            Ok(age) => {
                let idx = match age {
                    PossibleAge::SameEpoch => self.curr_idx,
                    PossibleAge::OneEpoch => (self.curr_idx + 2) % 3,
                    PossibleAge::TwoEpochs => (self.curr_idx + 1) % 3,
                };
                let ghost bound = pre.epoch() - pre.slot_age(idx as int);
                proof {
                    assert(seal.count() <= bound);
                }
                let mut q = self.queues.remove(idx);
                let ghost q0 = q;
                let ghost srecs = sealed.recs();
                let mut rs = sealed.into_records();
                let ghost rs0 = rs@;
                proof {
                    lemma_stamps_le_of_submultiset(rs@, srecs, seal.count());
                }
                while rs.len() > 0
                    invariant
                        q.wf(),
                        q.spec_cap() == pre.spec_cap(),
                        pool.wf(),
                        pool.spec_cap() == pre.spec_cap(),
                        all_stamps_le(rs@, seal.count()),
                        all_stamps_le(q.recs(), bound),
                        q.recs().to_multiset().add(rs@.to_multiset()) == q0.recs().to_multiset()
                            .add(rs0.to_multiset()),
                    decreases rs@.len(),
                {
                    let ghost rsbefore = rs@;
                    let ghost qrecs = q.recs();
                    let r = match rs.pop() {
                        Some(r) => r,
                        None => {
                            proof {
                                assert(false);
                            }
                            Retired::new(0)
                        },
                    };
                    q.retire_record(r, pool);
                    proof {
                        assert(rsbefore =~= rs@.push(r));
                        assert(q.recs().to_multiset().add(rs@.to_multiset()) =~= qrecs
                            .to_multiset().add(rsbefore.to_multiset()));
                        lemma_stamps_le_of_submultiset(q.recs(), qrecs.push(r), bound);
                        assert(forall|j: int|
                            0 <= j < rs@.len() ==> #[trigger] rs@[j].stamp() <= seal.count());
                    }
                }
                self.queues.insert(idx, q);
                proof {
                    assert(rs@.to_multiset() =~= Multiset::<Retired>::empty());
                    assert(q.recs().to_multiset() =~= q0.recs().to_multiset().add(
                        rs0.to_multiset(),
                    ));
                    assert(rs0.to_multiset() == srecs.to_multiset());
                    assert(self.queues@ =~= pre.spec_queues().update(idx as int, q));
                    self.lemma_update_add(pre, idx as int, q0, q, srecs.to_multiset());
                    assert forall|i: int| 0 <= i < 3 implies all_stamps_le(
                        #[trigger] self.spec_queues()[i].recs(),
                        self.epoch() - self.slot_age(i),
                    ) by {
                        if i != idx as int {
                            assert(self.spec_queues()[i] == pre.spec_queues()[i]);
                            assert(all_stamps_le(
                                pre.spec_queues()[i].recs(),
                                pre.epoch() - pre.slot_age(i),
                            ));
                        }
                    }
                    assert(self.all_recs().to_multiset().add(Seq::<Retired>::empty().to_multiset())
                        =~= pre.all_recs().to_multiset().add(srecs.to_multiset()));
                }
                Vec::new()
            },
        }
    }

    /// The number of bags in the current queue.
    pub fn current_bag_count(&self) -> (r: usize)
        requires
            self.wf_shape(),
        ensures
            r == self.spec_queues()[self.spec_curr()].num_bags(),
    {
        self.queues[self.curr_idx].bag_count()
    }

    /// The queues reordered as current first, then one and two rotations
    /// old.
    fn into_sorted(self) -> (r: Vec<BagQueue>)
        requires
            self.wf_shape(),
        ensures
            r@.len() == 3,
            r@[0] == self.spec_queues()[self.spec_curr()],
            r@[1] == self.spec_queues()[(self.spec_curr() + 2) % 3],
            r@[2] == self.spec_queues()[(self.spec_curr() + 1) % 3],
    {
        let EpochBagQueues { mut queues, curr_idx, cap: _, epoch: _ } = self;
        let q2 = match queues.pop() {
            Some(q) => q,
            None => {
                proof {
                    assert(false);
                }
                BagQueue::new(1)
            },
        };
        let q1 = match queues.pop() {
            Some(q) => q,
            None => {
                proof {
                    assert(false);
                }
                BagQueue::new(1)
            },
        };
        let q0 = match queues.pop() {
            Some(q) => q,
            None => {
                proof {
                    assert(false);
                }
                BagQueue::new(1)
            },
        };
        let mut r: Vec<BagQueue> = Vec::new();
        if curr_idx == 0 {
            r.push(q0);
            r.push(q2);
            r.push(q1);
        } else if curr_idx == 1 {
            r.push(q1);
            r.push(q0);
            r.push(q2);
        } else {
            r.push(q2);
            r.push(q1);
            r.push(q0);
        }
        r
    }

    /// Seals the ring into up to three non-empty sealed queues, newest
    /// first, stamped with the epochs during which each was current.
    #[verifier::rlimit(80)]
    #[verifier::spinoff_prover]
    pub fn into_sealed(self, current_epoch: Epoch) -> (r: Option<SealedList>)
        requires
            self.wf_loose(),
            current_epoch.wf(),
            current_epoch.count() == self.epoch(),
        ensures
            match r {
                None => self.all_recs().len() == 0,
                Some(l) => {
                    &&& l.wf()
                    &&& sealed_recs(l.spec_queues()).to_multiset() == self.all_recs().to_multiset()
                    &&& 1 <= l.spec_queues().len() <= 3
                    &&& forall|i: int|
                        0 <= i < l.spec_queues().len() ==> self.epoch() - 2 <= (#[trigger] l
                            .spec_queues()[i]).spec_seal().count() <= self.epoch()
                    &&& forall|i: int, j: int|
                        0 <= i < j < l.spec_queues().len() ==> (#[trigger] l.spec_queues()[
                            i
                        ]).spec_seal().count() > (#[trigger] l.spec_queues()[
                            j
                        ]).spec_seal().count()
                    &&& forall|i: int|
                        0 <= i < l.spec_queues().len() ==> {
                            let k = self.epoch() - (#[trigger] l.spec_queues()[
                                i
                            ]).spec_seal().count();
                            &&& l.spec_queues()[i].recs().to_multiset() == self.spec_queues()[sealed_slot(self.spec_curr(), k)].recs().to_multiset()
                            &&& self.spec_queues()[sealed_slot(
                                self.spec_curr(),
                                k,
                            )].recs().len() > 0
                        }
                    &&& forall|k: int|
                        0 <= k <= 2 && (#[trigger] self.spec_queues()[sealed_slot(
                            self.spec_curr(),
                            k,
                        )]).recs().len() > 0 ==> exists|i: int|
                            0 <= i < l.spec_queues().len() && (#[trigger] l.spec_queues()[
                                i
                            ]).spec_seal().count() == self.epoch() - k
                },
            },
    {
        let ghost pre = self;
        let e1 = current_epoch.decrement();
        let e2 = e1.decrement();
        let mut sorted = self.into_sorted();
        let s2 = match sorted.pop() {
            Some(q) => q,
            None => {
                proof {
                    assert(false);
                }
                BagQueue::new(1)
            },
        };
        let s1 = match sorted.pop() {
            Some(q) => q,
            None => {
                proof {
                    assert(false);
                }
                BagQueue::new(1)
            },
        };
        let s0 = match sorted.pop() {
            Some(q) => q,
            None => {
                proof {
                    assert(false);
                }
                BagQueue::new(1)
            },
        };
        proof {
            assert(pre.slot_age(pre.spec_curr()) == 0);
            assert(pre.slot_age((pre.spec_curr() + 2) % 3) == 1);
            assert(pre.slot_age((pre.spec_curr() + 1) % 3) == 2);
        }
        let ghost total = s0.recs().to_multiset().add(s1.recs().to_multiset()).add(
            s2.recs().to_multiset(),
        );
        proof {
            assert(pre.spec_queues()[0].wf_loose());
            assert(pre.spec_queues()[1].wf_loose());
            assert(pre.spec_queues()[2].wf_loose());
            if pre.spec_curr() == 0 {
                assert(total =~= pre.all_recs().to_multiset());
            } else if pre.spec_curr() == 1 {
                assert(total =~= pre.all_recs().to_multiset());
            } else {
                assert(total =~= pre.all_recs().to_multiset());
            }
        }
        let mut queues: Vec<SealedQueue> = Vec::new();
        let n0 = s0.is_empty();
        let ghost s0recs = s0.recs();
        if !n0 {
            let q = match s0.into_sealed(current_epoch) {
                Some(q) => q,
                None => {
                    proof {
                        assert(false);
                    }
                    SealedQueue::from_parts(current_epoch, Vec::new())
                },
            };
            queues.push(q);
            proof {
                assert(queues@.drop_last() =~= Seq::<SealedQueue>::empty());
                lemma_push_accounting(queues@, Seq::<SealedQueue>::empty(), s0recs, false);
            }
        } else {
            proof {
                lemma_push_accounting(queues@, Seq::<SealedQueue>::empty(), s0recs, true);
            }
        }
        let ghost acc1 = queues@;
        let n1 = s1.is_empty();
        let ghost s1recs = s1.recs();
        if !n1 {
            let q = match s1.into_sealed(e1) {
                Some(q) => q,
                None => {
                    proof {
                        assert(false);
                    }
                    SealedQueue::from_parts(e1, Vec::new())
                },
            };
            queues.push(q);
            proof {
                assert(queues@.drop_last() =~= acc1);
                lemma_push_accounting(queues@, acc1, s1recs, false);
            }
        } else {
            proof {
                lemma_push_accounting(queues@, acc1, s1recs, true);
            }
        }
        let ghost acc2 = queues@;
        let n2 = s2.is_empty();
        let ghost s2recs = s2.recs();
        if !n2 {
            let q = match s2.into_sealed(e2) {
                Some(q) => q,
                None => {
                    proof {
                        assert(false);
                    }
                    SealedQueue::from_parts(e2, Vec::new())
                },
            };
            queues.push(q);
            proof {
                assert(queues@.drop_last() =~= acc2);
                lemma_push_accounting(queues@, acc2, s2recs, false);
            }
        } else {
            proof {
                lemma_push_accounting(queues@, acc2, s2recs, true);
            }
        }
        if queues.len() == 0 {
            proof {
                assert(pre.all_recs().to_multiset().len() == 0);
                assert(pre.all_recs().len() == 0);
            }
            None
        } else {
            proof {
                let c = pre.spec_curr();
                let ep = pre.epoch();
                let qs = queues@;
                let b1 = acc1.len() as int;
                let b2 = acc2.len() as int;
                assert(!n0 ==> b1 == 1 && qs[0] == acc1[0] && acc1[0].spec_seal().count() == ep
                    && acc1[0].recs().to_multiset() == pre.spec_queues()[sealed_slot(
                    c,
                    0,
                )].recs().to_multiset() && pre.spec_queues()[sealed_slot(c, 0)].recs().len()
                    > 0);
                assert(n0 ==> b1 == 0 && pre.spec_queues()[sealed_slot(c, 0)].recs().len()
                    == 0);
                assert(!n1 ==> b2 == b1 + 1 && qs[b1] == acc2[b1]
                    && acc2[b1].spec_seal().count() == ep - 1 && acc2[b1].recs().to_multiset()
                    == pre.spec_queues()[sealed_slot(c, 1)].recs().to_multiset()
                    && pre.spec_queues()[sealed_slot(c, 1)].recs().len() > 0);
                assert(n1 ==> b2 == b1 && pre.spec_queues()[sealed_slot(c, 1)].recs().len()
                    == 0);
                assert(!n2 ==> qs.len() == b2 + 1 && qs[b2].spec_seal().count() == ep - 2
                    && qs[b2].recs().to_multiset() == pre.spec_queues()[sealed_slot(
                    c,
                    2,
                )].recs().to_multiset() && pre.spec_queues()[sealed_slot(c, 2)].recs().len()
                    > 0);
                assert(n2 ==> qs.len() == b2 && pre.spec_queues()[sealed_slot(c, 2)].recs()
                    .len() == 0);
                assert forall|i: int| 0 <= i < qs.len() implies ({
                    let k = ep - (#[trigger] qs[i]).spec_seal().count();
                    &&& 0 <= k <= 2
                    &&& qs[i].recs().to_multiset() == pre.spec_queues()[sealed_slot(
                        c,
                        k,
                    )].recs().to_multiset()
                    &&& pre.spec_queues()[sealed_slot(c, k)].recs().len() > 0
                }) by {
                    if i < b1 {
                        assert(ep - qs[i].spec_seal().count() == 0);
                    } else if i < b2 {
                        assert(ep - qs[i].spec_seal().count() == 1);
                    } else {
                        assert(ep - qs[i].spec_seal().count() == 2);
                    }
                }
                assert forall|i: int, j: int| 0 <= i < j < qs.len() implies (#[trigger] qs[
                    i
                ]).spec_seal().count() > (#[trigger] qs[j]).spec_seal().count() by {
                    if i < b1 {
                        assert(qs[i].spec_seal().count() == ep);
                    } else if i < b2 {
                        assert(qs[i].spec_seal().count() == ep - 1);
                    }
                    if j < b2 {
                        assert(qs[j].spec_seal().count() == ep - 1);
                    } else {
                        assert(qs[j].spec_seal().count() == ep - 2);
                    }
                }
                assert forall|k: int|
                    0 <= k <= 2 && (#[trigger] pre.spec_queues()[sealed_slot(
                        c,
                        k,
                    )]).recs().len() > 0 implies exists|i: int|
                        0 <= i < qs.len() && (#[trigger] qs[i]).spec_seal().count() == ep
                            - k by {
                    if k == 0 {
                        assert(qs[0].spec_seal().count() == ep - 0);
                    } else if k == 1 {
                        assert(qs[b1].spec_seal().count() == ep - 1);
                    } else {
                        assert(qs[b2].spec_seal().count() == ep - 2);
                    }
                }
            }
            Some(SealedList::from_queues(queues))
        }
    }
}

/// Accounting helper: after optionally sealing one queue, the sealed
/// records grew by exactly that queue's records.
proof fn lemma_push_accounting(
    now: Seq<SealedQueue>,
    before: Seq<SealedQueue>,
    recs: Seq<Retired>,
    skipped: bool,
)
    requires
        skipped ==> now == before && recs.len() == 0,
        !skipped ==> now.len() == before.len() + 1 && now.drop_last() == before && now.last()
            .recs().to_multiset() == recs.to_multiset(),
    ensures
        sealed_recs(now).to_multiset() == sealed_recs(before).to_multiset().add(
            recs.to_multiset(),
        ),
{
    if skipped {
        assert(recs.to_multiset() =~= Multiset::<Retired>::empty());
        assert(sealed_recs(now).to_multiset() =~= sealed_recs(before).to_multiset().add(
            recs.to_multiset(),
        ));
    } else {
        assert(now =~= before.push(now.last()));
        crate::sealed::lemma_sealed_recs_push(before, now.last());
        assert(sealed_recs(now).to_multiset() =~= sealed_recs(before).to_multiset().add(
            recs.to_multiset(),
        ));
    }
}

/// A bounded pool of empty bags kept for reuse.
pub struct BagPool {
    bags: Vec<Bag>,
    cap: usize,
}

impl BagPool {
    /// The pooled bags.
    pub closed spec fn bags_view(self) -> Seq<Bag> {
        self.bags@
    }

    /// The capacity of every pooled bag.
    pub closed spec fn spec_cap(self) -> int {
        self.cap as int
    }

    /// Pooled bags are empty, share the capacity, and stay within the pool
    /// bound.
    pub open spec fn wf(self) -> bool {
        &&& 1 <= self.spec_cap()
        &&& self.bags_view().len() <= BAG_POOL_SIZE
        &&& forall|i: int|
            0 <= i < self.bags_view().len() ==> #[trigger] self.bags_view()[i].wf()
                && self.bags_view()[i].spec_cap() == self.spec_cap()
                && self.bags_view()[i].recs().len() == 0
    }

    /// Creates an empty pool for bags of capacity `cap`.
    pub fn new(cap: usize) -> (r: BagPool)
        requires
            cap >= 1,
        ensures
            r.wf(),
            r.spec_cap() == cap,
    {
        BagPool { bags: Vec::new(), cap }
    }

    /// Takes an empty bag from the pool, or allocates one.
    pub fn allocate_bag(&mut self) -> (r: Bag)
        requires
            old(self).wf(),
        ensures
            final(self).wf(),
            final(self).spec_cap() == old(self).spec_cap(),
            r.wf(),
            r.spec_cap() == old(self).spec_cap(),
            r.recs().len() == 0,
    {
        let ghost pre = *self;
        match self.bags.pop() {
            Some(b) => {
                proof {
                    assert(pre.bags_view()[pre.bags_view().len() - 1].wf());
                    assert forall|i: int| 0 <= i < self.bags_view().len() implies #[trigger] self
                        .bags_view()[i].wf() && self.bags_view()[i].spec_cap() == pre.spec_cap()
                        && self.bags_view()[i].recs().len() == 0 by {
                        assert(self.bags_view()[i] == pre.bags_view()[i]);
                        assert(pre.bags_view()[i].wf());
                    }
                    assert(1 <= self.spec_cap());
                    assert(self.spec_cap() == pre.spec_cap());
                    assert(self.bags_view().len() <= BAG_POOL_SIZE);
                    assert(self.wf());
                }
                b
            },
            None => Bag::new(self.cap),
        }
    }

    /// Returns an emptied bag to the pool; beyond the bound it is dropped.
    pub fn recycle_bag(&mut self, bag: Bag)
        requires
            old(self).wf(),
            bag.wf(),
            bag.spec_cap() == old(self).spec_cap(),
            bag.recs().len() == 0,
        ensures
            final(self).wf(),
            final(self).spec_cap() == old(self).spec_cap(),
    {
        if self.bags.len() < BAG_POOL_SIZE {
            self.bags.push(bag);
        }
    }
}

} // verus!
