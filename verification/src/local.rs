//! Per-thread state and the guard-entry state machine.
//!
//! A `Local` owns one registry entry, the nesting count of its guards, the
//! cached copy of the last observed global epoch, the incremental
//! advance-check cursor and counters, the three-queue bag ring and the bag
//! pool, and a configuration snapshot. Entering the outermost guard loads
//! the global epoch, reclaims and adopts quarantine when the epoch moved,
//! steps the advance check on schedule, and announces the thread active;
//! leaving it announces the thread quiescent.
//!
//! Every operation takes the shared [`Global`] explicitly and states in its
//! contract how both values change, including the conservation of records:
//! nothing the engine does loses a record or destroys one twice.

use crate::bag::{BagPool, EpochBagQueues, DEFAULT_BAG_SIZE};
use crate::config::Config;
use crate::epoch::{Epoch, State, ThreadState};
use crate::global::Global;
use crate::list::{Iter, IterPos, ListEntry};
use crate::retired::{all_stamps_le, Retired};
use crate::sealed::{lemma_stale_recs_push, sealed_recs, stale_recs, SealedQueue};
use vstd::multiset::{group_multiset_axioms, Multiset};
use vstd::prelude::*;
use vstd::seq_lib::{group_to_multiset_ensures, lemma_multiset_commutative};

verus! {

broadcast use group_to_multiset_ensures, lemma_multiset_commutative, group_multiset_axioms;

/// The thread-local state of one participating thread.
pub struct Local {
    entry: ListEntry,
    guard_count: usize,
    can_advance: bool,
    ops_count: u32,
    check_count: u32,
    cached_local_epoch: Epoch,
    bags: EpochBagQueues,
    bag_pool: BagPool,
    thread_iter: Iter,
    config: Config,
    pass_floor: Ghost<int>,
}

impl Local {
    /// The identifier of this thread's registry entry.
    pub closed spec fn id(self) -> int {
        self.entry.spec_id()
    }

    /// The nesting depth of live guards.
    pub closed spec fn guards(self) -> int {
        self.guard_count as int
    }

    /// Whether the thread has completed a full registry sweep this epoch.
    pub closed spec fn spec_can_advance(self) -> bool {
        self.can_advance
    }

    /// Enters since the advance check last ran.
    pub closed spec fn spec_ops_count(self) -> int {
        self.ops_count as int
    }

    /// Threads checked successfully during this epoch's sweeps.
    pub closed spec fn spec_check_count(self) -> int {
        self.check_count as int
    }

    /// The last observed global epoch.
    pub closed spec fn cached(self) -> Epoch {
        self.cached_local_epoch
    }

    /// The bag ring.
    pub closed spec fn ring(self) -> EpochBagQueues {
        self.bags
    }

    /// The bag pool.
    pub closed spec fn pool(self) -> BagPool {
        self.bag_pool
    }

    /// The advance-check cursor's position.
    pub closed spec fn iter_pos(self) -> IterPos {
        self.thread_iter.spec_pos()
    }

    /// The configuration snapshot.
    pub closed spec fn spec_config(self) -> Config {
        self.config
    }

    /// Entries with identifiers at or above this were registered after the
    /// thread last reset its sweep, so they were born announcing no epoch
    /// older than the one the sweep is checking for.
    pub closed spec fn pass_floor(self) -> int {
        self.pass_floor@
    }

    /// This thread's quarantined records.
    pub open spec fn pending(self) -> Seq<Retired> {
        self.ring().all_recs()
    }

    /// The nesting depth is a machine integer: never negative, never
    /// beyond the pointer width.
    pub broadcast proof fn lemma_guards_nonneg(self)
        ensures
            0 <= #[trigger] self.guards() <= usize::MAX,
    {
    }

    /// The same state with a different guard nesting depth.
    pub closed spec fn with_guards(self, n: int) -> Local {
        Local { guard_count: n as usize, ..self }
    }

    /// Changing the nesting depth changes nothing else.
    pub broadcast proof fn lemma_with_guards(self, n: int)
        requires
            0 <= n <= usize::MAX,
        ensures
            (#[trigger] self.with_guards(n)).guards() == n,
            self.with_guards(n).id() == self.id(),
            self.with_guards(n).spec_can_advance() == self.spec_can_advance(),
            self.with_guards(n).spec_ops_count() == self.spec_ops_count(),
            self.with_guards(n).spec_check_count() == self.spec_check_count(),
            self.with_guards(n).cached() == self.cached(),
            self.with_guards(n).ring() == self.ring(),
            self.with_guards(n).pool() == self.pool(),
            self.with_guards(n).iter_pos() == self.iter_pos(),
            self.with_guards(n).spec_config() == self.spec_config(),
            self.with_guards(n).pass_floor() == self.pass_floor(),
    {
    }

    /// The state the thread owns on its own, apart from the registry.
    pub open spec fn wf_own(self) -> bool {
        &&& self.cached().wf()
        &&& self.ring().wf()
        &&& self.ring().epoch() == self.cached().count()
        &&& self.pool().wf()
        &&& self.pool().spec_cap() == self.ring().spec_cap()
        &&& self.spec_config().spec_check_threshold() > 0 ==> self.spec_ops_count()
            < self.spec_config().spec_check_threshold()
        &&& self.spec_config().spec_check_threshold() == 0 ==> self.spec_ops_count() == 0
    }

    /// The state is consistent with the shared state: the entry is
    /// registered and the cached epoch does not lie ahead of the global one.
    pub open spec fn wf(self, g: Global) -> bool {
        &&& self.wf_own()
        &&& g.threads.contains_id(self.id())
        &&& self.cached().count() <= g.count()
    }

    /// Registers a new thread with bags of capacity `bag_capacity`.
    ///
    /// The bag capacity is the scheme's third tunable; it is chosen here,
    /// per thread, rather than carried in [`Config`]. The announcement is
    /// born quiescent at the current global epoch; the configuration is
    /// snapshotted once, here.
    pub fn new_with_capacity(global: &mut Global, bag_capacity: usize) -> (r: Local)
        requires
            old(global).wf(),
            old(global).threads.spec_next_id() < usize::MAX,
            bag_capacity >= 1,
        ensures
            final(global).wf(),
            r.wf(*final(global)),
            r.id() == old(global).threads.spec_next_id(),
            r.guards() == 0,
            !r.spec_can_advance(),
            r.spec_ops_count() == 0,
            r.spec_check_count() == 0,
            r.cached() == old(global).epoch.value(),
            r.pending().len() == 0,
            r.iter_pos() == IterPos::Head,
            r.ring().spec_cap() == bag_capacity,
            r.spec_config() == old(global).config_snapshot_spec(),
            r.pass_floor() == final(global).threads.spec_next_id(),
            final(global).threads.spec_next_id() == old(global).threads.spec_next_id() + 1,
            own_ok(r, *final(global)),
            sweep_ok(r, *final(global)),
            epoch_close(*old(global)) ==> epoch_close(*final(global)),
            final(global).epoch == old(global).epoch,
            final(global).abandoned == old(global).abandoned,
            final(global).destroyed == old(global).destroyed,
            final(global).config == old(global).config,
            final(global).threads.view().len() == old(global).threads.view().len() + 1,
            final(global).threads.view()[0].spec_id() == r.id(),
            final(global).threads.view()[0].spec_elem().count() == old(global).count(),
            final(global).threads.view()[0].spec_elem().spec_state() == State::Quiescent,
            final(global).threads.view().skip(1) == old(global).threads.view(),
    {
        let ge = global.epoch.load();
        let ts = ThreadState::new(ge);
        let entry = global.threads.insert(ts);
        let config = global.config_snapshot();
        let r = Local {
            entry,
            guard_count: 0,
            can_advance: false,
            ops_count: 0,
            check_count: 0,
            cached_local_epoch: ge,
            bags: EpochBagQueues::new(bag_capacity, Ghost(ge.count())),
            bag_pool: BagPool::new(bag_capacity),
            thread_iter: Iter::new(),
            config,
            pass_floor: Ghost(global.threads.spec_next_id()),
        };
        proof {
            assert forall|i: int| 0 <= i < global.threads.view().len() implies (#[trigger] global
                .threads.view()[i].spec_elem()).wf() && global.threads.view()[i].spec_elem().count()
                <= global.count() by {
                if i > 0 {
                    assert(global.threads.view()[i] == old(global).threads.view()[i - 1]);
                    assert(old(global).threads.view()[i - 1].spec_elem().wf());
                }
            }
            assert forall|i: int|
                0 <= i < global.threads.view().len() && i != 0 implies #[trigger] global
                .threads.view()[i].spec_id() != r.id() && global.threads.view()[i].spec_id()
                < global.threads.spec_next_id() by {
                assert(global.threads.view()[i] == old(global).threads.view()[i - 1]);
                assert(old(global).threads.ids()[i - 1] == global.threads.view()[i].spec_id());
                assert(old(global).threads.ids()[i - 1] < old(global).threads.spec_next_id());
            }
            assert(own_ok(r, *global));
            assert(sweep_ok(r, *global));
            if epoch_close(*old(global)) {
                assert forall|i: int|
                    0 <= i < global.threads.view().len() && (#[trigger] global.threads.view()[
                        i
                    ]).spec_elem().spec_state() == State::Active implies global.threads.view()[
                    i
                ].spec_elem().count() >= global.count() - 1 by {
                    assert(i != 0);
                    assert(global.threads.view()[i] == old(global).threads.view()[i - 1]);
                }
                assert(epoch_close(*global));
            }
        }
        r
    }

    /// Registers a new thread with the default bag capacity.
    pub fn new(global: &mut Global) -> (r: Local)
        requires
            old(global).wf(),
            old(global).threads.spec_next_id() < usize::MAX,
        ensures
            final(global).wf(),
            r.wf(*final(global)),
            r.id() == old(global).threads.spec_next_id(),
            r.guards() == 0,
            r.cached() == old(global).epoch.value(),
            r.pending().len() == 0,
            final(global).epoch == old(global).epoch,
            final(global).abandoned == old(global).abandoned,
            final(global).destroyed == old(global).destroyed,
            final(global).config == old(global).config,
            final(global).threads.view().skip(1) == old(global).threads.view(),
            final(global).threads.view().len() == old(global).threads.view().len() + 1,
            final(global).threads.view()[0].spec_id() == r.id(),
            final(global).threads.view()[0].spec_elem().count() == old(global).count(),
            final(global).threads.view()[0].spec_elem().spec_state() == State::Quiescent,
            final(global).threads.spec_next_id() == old(global).threads.spec_next_id() + 1,
            r.guards() == 0,
            !r.spec_can_advance(),
            r.spec_ops_count() == 0,
            r.spec_check_count() == 0,
            r.iter_pos() == IterPos::Head,
            r.ring().spec_cap() == DEFAULT_BAG_SIZE,
            r.spec_config() == old(global).config_snapshot_spec(),
            own_ok(r, *final(global)),
            sweep_ok(r, *final(global)),
            epoch_close(*old(global)) ==> epoch_close(*final(global)),
    {
        Local::new_with_capacity(global, DEFAULT_BAG_SIZE)
    }

    /// The identifier of this thread's registry entry, as a value.
    pub fn thread_id(&self) -> (r: usize)
        ensures
            r as int == self.id(),
    {
        self.entry.id()
    }

    /// The word of the last observed global epoch.
    pub fn cached_epoch_word(&self) -> (r: u64)
        ensures
            r == self.cached().spec_word(),
    {
        self.cached_local_epoch.into_inner()
    }

    /// The number of bags in the queue retirements currently go to.
    pub fn current_bag_count(&self) -> (r: usize)
        requires
            self.wf_own(),
        ensures
            r == self.ring().spec_queues()[self.ring().spec_curr()].num_bags(),
    {
        self.bags.current_bag_count()
    }

    /// Whether the thread is inside a guarded section.
    pub fn is_active(&self) -> (r: bool)
        ensures
            r == (self.guards() > 0),
    {
        self.guard_count > 0
    }

    /// The current guard nesting depth.
    pub fn guard_depth(&self) -> (r: usize)
        ensures
            r as int == self.guards(),
    {
        self.guard_count
    }
}


/// Everything the scheme is holding for a thread: its quarantine, the
/// process's destruction log, and the abandoned stack.
///
/// Each operation's contract conserves this multiset (or grows it by
/// exactly the record being retired), so no record is ever lost or
/// destroyed twice.
pub open spec fn holdings(l: Local, g: Global) -> Multiset<Retired> {
    l.pending().to_multiset().add(g.destroyed@.to_multiset()).add(g.abandoned.recs().to_multiset())
}

/// An announcement that cannot block an epoch advance from `gcount`:
/// quiescent, or announcing `gcount` itself.
pub open spec fn good(n: ThreadState, gcount: int) -> bool {
    n.spec_state() == State::Quiescent || n.count() == gcount
}

/// The central protection invariant: the global epoch is never more than
/// one advance ahead of any active thread's announcement. Destruction
/// requires a stamp at least three advances behind the global epoch, so
/// under this invariant no record retired at an active thread's announced
/// epoch, or at the epoch before it, is ever destroyed.
pub open spec fn epoch_close(g: Global) -> bool {
    forall|i: int|
        0 <= i < g.threads.view().len() && (#[trigger] g.threads.view()[
            i
        ]).spec_elem().spec_state() == State::Active ==> g.threads.view()[i].spec_elem().count()
            >= g.count() - 1
}

/// A thread's registry entry reflects its guard nesting: quiescent while
/// no guard is held, active while one is.
pub open spec fn own_ok(l: Local, g: Global) -> bool {
    forall|i: int|
        0 <= i < g.threads.view().len() && (#[trigger] g.threads.view()[i]).spec_id() == l.id()
            ==> (l.guards() == 0 ==> g.threads.view()[i].spec_elem().spec_state()
            == State::Quiescent) && (l.guards() > 0 ==> g.threads.view()[i].spec_elem().spec_state()
            == State::Active)
}

/// What a thread's incremental sweep has established, while its cached
/// epoch still equals the global one.
///
/// Entries above the pass floor were registered after the sweep began and
/// are good from birth onward; entries the cursor has passed this pass are
/// good; and once a full pass is recorded, every entry below the floor is
/// good. Together these justify the epoch advance: when the thread bumps
/// the epoch, every registered entry is good.
pub open spec fn sweep_ok(l: Local, g: Global) -> bool {
    &&& l.pass_floor() <= g.threads.spec_next_id()
    &&& l.cached().count() == g.count() ==> {
        &&& forall|i: int|
            0 <= i < g.threads.view().len() && (#[trigger] g.threads.view()[i]).spec_id()
                >= l.pass_floor() ==> good(g.threads.view()[i].spec_elem(), g.count())
        &&& match l.iter_pos() {
            IterPos::After(cid) => forall|i: int|
                0 <= i < g.threads.view().len() && cid as int <= (#[trigger] g.threads.view()[
                    i
                ]).spec_id() < l.pass_floor() ==> good(g.threads.view()[i].spec_elem(), g.count()),
            IterPos::Head => true,
        }
        &&& l.spec_can_advance() ==> forall|i: int|
            0 <= i < g.threads.view().len() && (#[trigger] g.threads.view()[i]).spec_id()
                < l.pass_floor() ==> good(g.threads.view()[i].spec_elem(), g.count())
    }
}

/// A saturating 32-bit counter increment, as a value.
pub open spec fn bump32(c: int) -> int {
    if c < u32::MAX {
        c + 1
    } else {
        c
    }
}

/// Whether the advance check may move past an observed entry: it is the
/// checking thread itself, it announces the loaded epoch's word, or it is
/// quiescent.
pub open spec fn check_passes(me: int, ge: Epoch, oid: int, o: ThreadState) -> bool {
    oid == me || o.announced_word() == ge.spec_word() as int || o.spec_state()
        == State::Quiescent
}

/// The complete outcome of one advance-check step from cursor `pos` with
/// `check` threads checked and full-pass flag `ca`, against registry `g`
/// and loaded epoch `ge`: the new cursor, checked count and flag, and
/// whether the epoch is advanced.
///
/// A vanished cursor position changes nothing. Reaching the end of the
/// registry records the full pass and restarts at the head, whose entry is
/// then the one observed. An observed entry that passes the check is
/// stepped past; with a recorded full pass and `thr` threads checked, the
/// epoch advances.
pub open spec fn advance_check_outcome(
    me: int,
    g: Global,
    ge: Epoch,
    pos: IterPos,
    check: int,
    ca: bool,
    thr: int,
) -> (IterPos, int, bool, bool) {
    match g.threads.load_current_spec(pos) {
        Result::Err(_) => (pos, check, ca, false),
        Result::Ok(opt) => {
            let (pos1, ca1, oid, o) = match opt {
                Option::Some(p) => (pos, ca, p.0, p.1),
                Option::None => (
                    IterPos::Head,
                    true,
                    g.threads.ids()[0],
                    g.threads.view()[0].spec_elem(),
                ),
            };
            if check_passes(me, ge, oid, o) {
                let check2 = bump32(check);
                (g.threads.advance_spec(pos1), check2, ca1, ca1 && check2 >= thr)
            } else {
                (pos1, check, ca1, false)
            }
        },
    }
}

/// A process with a single registered thread advances the epoch on
/// schedule: from a fresh cursor, the first due check observes the
/// thread's own entry and steps past it, and the second reaches the end of
/// the registry, records the full pass, re-observes the own entry and
/// advances the epoch — whatever the thread announces and however many
/// threads the configuration demands, once enough checks have run.
pub proof fn lemma_single_thread_advances(mid: usize, g: Global, ge: Epoch, check: int, thr: int)
    requires
        g.threads.wf(),
        g.threads.view().len() == 1,
        g.threads.ids()[0] == mid as int,
        bump32(check) >= thr,
    ensures
        advance_check_outcome(mid as int, g, ge, IterPos::Head, check, false, thr).0
            == IterPos::After(mid),
        advance_check_outcome(mid as int, g, ge, IterPos::After(mid), check, false, thr).2,
        advance_check_outcome(mid as int, g, ge, IterPos::After(mid), check, false, thr).3,
{
    let v = g.threads.view();
    assert(v[0].spec_id() == mid as int);
    assert(g.threads.load_current_spec(IterPos::Head) == Ok::<Option<(int, ThreadState)>, crate::list::IterError>(
        Some((mid as int, v[0].spec_elem())),
    ));
    assert(check_passes(mid as int, ge, mid as int, v[0].spec_elem()));
    assert(g.threads.advance_spec(IterPos::Head) == IterPos::After(mid));
    assert(g.threads.contains_id(mid as int));
    g.threads.lemma_idx_of(0);
    assert(g.threads.idx_of(mid as int) == 0);
    assert(g.threads.load_current_spec(IterPos::After(mid)) == Ok::<Option<(int, ThreadState)>, crate::list::IterError>(None));
}

/// Writing a good announcement to one entry preserves the protection
/// invariant and a thread's sweep facts.
proof fn lemma_write_good(l: Local, pre: Global, post: Global, st: ThreadState, id: int)
    requires
        pre.wf(),
        epoch_close(pre),
        sweep_ok(l, pre),
        good(st, post.count()),
        st.spec_state() == State::Active ==> st.count() >= post.count() - 1,
        post.epoch == pre.epoch,
        post.abandoned == pre.abandoned,
        post.destroyed == pre.destroyed,
        post.threads.view().len() == pre.threads.view().len(),
        post.threads.ids() == pre.threads.ids(),
        post.threads.spec_next_id() == pre.threads.spec_next_id(),
        forall|j: int|
            0 <= j < pre.threads.view().len() && pre.threads.ids()[j] != id ==> #[trigger] post
                .threads.view()[j] == pre.threads.view()[j],
        forall|j: int|
            0 <= j < pre.threads.view().len() && pre.threads.ids()[j] == id ==> (#[trigger] post
                .threads.view()[j]).spec_elem() == st && post.threads.view()[j].spec_id() == id,
    ensures
        epoch_close(post),
        sweep_ok(l, post),
{
    assert forall|i: int|
        0 <= i < post.threads.view().len() && (#[trigger] post.threads.view()[
            i
        ]).spec_elem().spec_state() == State::Active implies post.threads.view()[
        i
    ].spec_elem().count() >= post.count() - 1 by {
        if pre.threads.ids()[i] != id {
            assert(post.threads.view()[i] == pre.threads.view()[i]);
        }
    }
    if l.cached().count() == post.count() {
        assert forall|i: int|
            0 <= i < post.threads.view().len() && (#[trigger] post.threads.view()[i]).spec_id()
                >= l.pass_floor() implies good(post.threads.view()[i].spec_elem(), post.count())
            by {
            if pre.threads.ids()[i] != id {
                assert(post.threads.view()[i] == pre.threads.view()[i]);
                assert(pre.threads.view()[i].spec_id() >= l.pass_floor());
            }
        }
        match l.iter_pos() {
            IterPos::After(cid) => {
                assert forall|i: int|
                    0 <= i < post.threads.view().len() && cid as int <= (#[trigger] post.threads
                        .view()[i]).spec_id() < l.pass_floor() implies good(
                    post.threads.view()[i].spec_elem(),
                    post.count(),
                ) by {
                    if pre.threads.ids()[i] != id {
                        assert(post.threads.view()[i] == pre.threads.view()[i]);
                    }
                }
            },
            IterPos::Head => {},
        }
        if l.spec_can_advance() {
            assert forall|i: int|
                0 <= i < post.threads.view().len() && (#[trigger] post.threads.view()[
                    i
                ]).spec_id() < l.pass_floor() implies good(
                post.threads.view()[i].spec_elem(),
                post.count(),
            ) by {
                if pre.threads.ids()[i] != id {
                    assert(post.threads.view()[i] == pre.threads.view()[i]);
                }
            }
        }
    }
}

impl Local {
    /// Restarts the incremental checks and advances the local epoch to the
    /// newly observed `ge`: rotates the ring, drains the now-oldest queue,
    /// then adopts the abandoned stack, classifying each sealed queue by
    /// its age.
    #[verifier::loop_isolation(false)]
    fn advance_local_epoch(&mut self, global: &mut Global, ge: Epoch)
        requires
            old(self).wf_own(),
            old(global).wf(),
            ge == old(global).epoch.value(),
            ge.spec_word() != old(self).cached().spec_word(),
            old(self).cached().count() <= old(global).count(),
        ensures
            final(self).wf_own(),
            final(global).wf(),
            final(self).cached() == ge,
            final(self).iter_pos() == IterPos::Head,
            !final(self).spec_can_advance(),
            final(self).spec_ops_count() == 0,
            final(self).spec_check_count() == 0,
            final(self).id() == old(self).id(),
            final(self).guards() == old(self).guards(),
            final(self).spec_config() == old(self).spec_config(),
            final(self).ring().spec_cap() == old(self).ring().spec_cap(),
            final(self).pass_floor() == final(global).threads.spec_next_id(),
            sweep_ok(*final(self), *final(global)),
            final(global).epoch == old(global).epoch,
            final(global).threads == old(global).threads,
            final(global).config == old(global).config,
            final(global).abandoned.spec_queues().len() == 0,
            old(global).destroyed@.is_prefix_of(final(global).destroyed@),
            final(global).destroyed@.to_multiset() == old(global).destroyed@.to_multiset().add(
                old(self).ring().spec_queues()[(old(self).ring().spec_curr() + 1)
                    % 3].recs().to_multiset(),
            ).add(stale_recs(old(global).abandoned.spec_queues(), ge.count())),
            holdings(*final(self), *final(global)) == holdings(*old(self), *old(global)),
    {
        let ghost total = holdings(*old(self), *old(global));
        self.can_advance = false;
        self.ops_count = 0;
        self.check_count = 0;
        self.thread_iter.restart();
        proof {
            if self.cached_local_epoch.count() == ge.count() {
                assert(self.cached_local_epoch.spec_word() == ge.spec_word());
            }
        }
        let mut drained = self.bags.rotate_and_reclaim(&mut self.bag_pool, Ghost(ge.count()));
        let ghost drained0 = drained@;
        global.destroyed.append(&mut drained);
        self.cached_local_epoch = ge;
        let mut taken = global.abandoned.take_all();
        let ghost d1 = global.destroyed@;
        let ghost stale_total = stale_recs(old(global).abandoned.spec_queues(), ge.count());
        proof {
            assert(global.abandoned.recs().to_multiset() =~= Multiset::<Retired>::empty());
            assert(d1.to_multiset() =~= old(global).destroyed@.to_multiset().add(
                drained0.to_multiset(),
            ));
            assert(old(global).destroyed@.is_prefix_of(global.destroyed@)) by {
                assert(global.destroyed@.subrange(0, old(global).destroyed@.len() as int)
                    =~= old(global).destroyed@);
            }
            assert(all_stamps_le(global.destroyed@, ge.count() - 3)) by {
                assert forall|i: int| 0 <= i < global.destroyed@.len() implies #[trigger] global
                    .destroyed@[i].stamp() <= ge.count() - 3 by {
                    if i < old(global).destroyed@.len() {
                        assert(global.destroyed@[i] == old(global).destroyed@[i]);
                        assert(old(global).destroyed@[i].stamp() <= old(global).count() - 3);
                    } else {
                        assert(global.destroyed@[i] == drained0[i - old(global).destroyed@.len()]);
                    }
                }
            }
            assert forall|i: int| 0 <= i < taken@.len() implies (#[trigger] taken@[i]).wf()
                && taken@[i].spec_seal().count() <= ge.count() by {
                assert(taken@[i] == old(global).abandoned.spec_queues()[i]);
                assert(old(global).abandoned.spec_queues()[i].wf());
                assert(old(global).abandoned.spec_queues()[i].spec_seal().count() <= old(global).count());
            }
            assert(self.bags.all_recs().to_multiset().add(global.destroyed@.to_multiset()).add(
                sealed_recs(taken@).to_multiset(),
            ) =~= total);
        }
        while taken.len() > 0
            invariant
                self.entry == old(self).entry,
                self.guard_count == old(self).guard_count,
                self.config == old(self).config,
                self.cached_local_epoch == ge,
                self.can_advance == false,
                self.ops_count == 0,
                self.check_count == 0,
                self.thread_iter.spec_pos() == IterPos::Head,
                self.bags.wf(),
                self.bags.epoch() == ge.count(),
                self.bags.spec_cap() == old(self).ring().spec_cap(),
                self.bag_pool.wf(),
                self.bag_pool.spec_cap() == self.bags.spec_cap(),
                forall|i: int| 0 <= i < taken@.len() ==> (#[trigger] taken@[i]).wf(),
                forall|i: int|
                    0 <= i < taken@.len() ==> (#[trigger] taken@[i]).spec_seal().count()
                        <= ge.count(),
                global.epoch == old(global).epoch,
                global.threads == old(global).threads,
                global.config == old(global).config,
                global.abandoned.spec_queues().len() == 0,
                global.abandoned.wf(),
                old(global).destroyed@.is_prefix_of(global.destroyed@),
                all_stamps_le(global.destroyed@, ge.count() - 3),
                global.destroyed@.to_multiset().add(stale_recs(taken@, ge.count()))
                    == d1.to_multiset().add(stale_total),
                self.bags.all_recs().to_multiset().add(global.destroyed@.to_multiset()).add(
                    sealed_recs(taken@).to_multiset(),
                ) == total,
            decreases taken@.len(),
        {
            let ghost before = taken@;
            let sealed = match taken.pop() {
                Some(s) => s,
                None => {
                    proof {
                        assert(false);
                    }
                    SealedQueue::from_parts(Epoch::zero(), Vec::new())
                },
            };
            proof {
                assert(before[before.len() - 1].wf());
                assert(before[before.len() - 1].spec_seal().count() <= ge.count());
                assert(before =~= taken@.push(sealed));
                crate::sealed::lemma_sealed_recs_push(taken@, sealed);
            }
            let ghost srecs = sealed.recs();
            let ghost dpre = global.destroyed@;
            let ghost bpre = self.bags.all_recs();
            let mut outs = self.bags.retire_sealed(ge, sealed, &mut self.bag_pool);
            let ghost outs0 = outs@;
            global.destroyed.append(&mut outs);
            proof {
                assert(all_stamps_le(global.destroyed@, ge.count() - 3)) by {
                    assert forall|i: int| 0 <= i < global.destroyed@.len() implies #[trigger]
                    global.destroyed@[i].stamp() <= ge.count() - 3 by {
                        if i < dpre.len() {
                            assert(global.destroyed@[i] == dpre[i]);
                            assert(dpre[i].stamp() <= ge.count() - 3);
                        } else {
                            assert(global.destroyed@[i] == outs0[i - dpre.len()]);
                        }
                    }
                }
                assert(old(global).destroyed@.is_prefix_of(global.destroyed@)) by {
                    assert(global.destroyed@.subrange(0, old(global).destroyed@.len() as int)
                        =~= old(global).destroyed@);
                }
                assert(global.destroyed@ == dpre + outs0);
                assert(global.destroyed@.to_multiset() =~= dpre.to_multiset().add(
                    outs0.to_multiset(),
                ));
                assert(sealed_recs(before) == sealed_recs(taken@) + srecs);
                assert(sealed_recs(before).to_multiset() =~= sealed_recs(taken@).to_multiset()
                    .add(srecs.to_multiset()));
                assert(self.bags.all_recs().to_multiset().add(outs0.to_multiset()) == bpre
                    .to_multiset().add(srecs.to_multiset()));
                assert(self.bags.all_recs().to_multiset().add(global.destroyed@.to_multiset())
                    =~= self.bags.all_recs().to_multiset().add(outs0.to_multiset()).add(
                    dpre.to_multiset(),
                ));
                assert(self.bags.all_recs().to_multiset().add(outs0.to_multiset()).add(
                    dpre.to_multiset(),
                ) == bpre.to_multiset().add(srecs.to_multiset()).add(dpre.to_multiset()));
                assert(bpre.to_multiset().add(srecs.to_multiset()).add(dpre.to_multiset()).add(
                    sealed_recs(taken@).to_multiset(),
                ) =~= bpre.to_multiset().add(dpre.to_multiset()).add(
                    sealed_recs(before).to_multiset(),
                ));
                assert(self.bags.all_recs().to_multiset().add(global.destroyed@.to_multiset())
                    .add(sealed_recs(taken@).to_multiset()) == bpre.to_multiset().add(
                    dpre.to_multiset(),
                ).add(sealed_recs(before).to_multiset()));
                lemma_stale_recs_push(taken@, sealed, ge.count());
                assert(stale_recs(before, ge.count()) == stale_recs(taken@, ge.count()).add(
                    if crate::epoch::count_age(sealed.spec_seal().count(), ge.count()) >= 3 {
                        srecs.to_multiset()
                    } else {
                        Multiset::empty()
                    },
                ));
                assert(outs0.to_multiset() =~= (
                if crate::epoch::count_age(sealed.spec_seal().count(), ge.count()) >= 3 {
                    srecs.to_multiset()
                } else {
                    Multiset::empty()
                }));
                assert(global.destroyed@.to_multiset().add(stale_recs(taken@, ge.count()))
                    =~= dpre.to_multiset().add(stale_recs(before, ge.count())));
            }
        }
        self.pass_floor = Ghost(global.threads.spec_next_id());
        proof {
            assert(sealed_recs(taken@).to_multiset() =~= Multiset::<Retired>::empty()) by {
                assert(taken@ =~= Seq::<SealedQueue>::empty());
            }
            assert(stale_recs(taken@, ge.count()) =~= Multiset::<Retired>::empty()) by {
                assert(taken@ =~= Seq::<SealedQueue>::empty());
            }
            assert(global.destroyed@.to_multiset() =~= old(global).destroyed@.to_multiset().add(
                drained0.to_multiset(),
            ).add(stale_total));
            assert(holdings(*self, *global) =~= total);
            assert forall|i: int| 0 <= i < global.threads.view().len() implies (#[trigger] global
                .threads.view()[i]).spec_id() < global.threads.spec_next_id() by {
                assert(global.threads.ids()[i] == global.threads.view()[i].spec_id());
                assert(global.threads.ids()[i] < global.threads.spec_next_id());
            }
            assert(sweep_ok(*self, *global));
        }
    }

    /// One step of the incremental advance check.
    ///
    /// Reads the thread under the cursor; if the sweep has reached the end,
    /// the full pass is recorded and the cursor restarts at the head. The
    /// cursor moves past the observed thread only if it is this thread
    /// itself, announces the current global epoch, or is quiescent; once a
    /// full pass is recorded and enough threads have been checked, the
    /// global epoch is advanced by compare-and-swap. The contract carries
    /// the sweep invariant and the protection invariant [`epoch_close`]
    /// through the step: the epoch is bumped only once every registered
    /// thread has been observed safe for it.
    #[verifier::rlimit(60)]
    fn try_advance(&mut self, global: &mut Global, ge: Epoch)
        requires
            old(self).wf_own(),
            old(global).wf(),
            ge == old(global).epoch.value(),
            old(global).threads.contains_id(old(self).id()),
            old(self).guards() == 0,
            old(self).cached().count() == old(global).count(),
            own_ok(*old(self), *old(global)),
            sweep_ok(*old(self), *old(global)),
            epoch_close(*old(global)),
        ensures
            final(self).wf_own(),
            final(global).wf(),
            final(global).threads == old(global).threads,
            final(global).destroyed == old(global).destroyed,
            final(global).abandoned == old(global).abandoned,
            final(global).config == old(global).config,
            old(global).count() <= final(global).count() <= old(global).count() + 1,
            final(self).id() == old(self).id(),
            final(self).guards() == old(self).guards(),
            final(self).cached() == old(self).cached(),
            final(self).ring() == old(self).ring(),
            final(self).pool() == old(self).pool(),
            final(self).spec_config() == old(self).spec_config(),
            final(self).spec_ops_count() == old(self).spec_ops_count(),
            final(self).pass_floor() == old(self).pass_floor(),
            own_ok(*final(self), *final(global)),
            sweep_ok(*final(self), *final(global)),
            epoch_close(*final(global)),
            ({
                let (p2, c2, a2, adv) = advance_check_outcome(
                    old(self).id(),
                    *old(global),
                    ge,
                    old(self).iter_pos(),
                    old(self).spec_check_count(),
                    old(self).spec_can_advance(),
                    old(self).spec_config().spec_advance_threshold() as int,
                );
                &&& final(self).iter_pos() == p2
                &&& final(self).spec_check_count() == c2
                &&& final(self).spec_can_advance() == a2
                &&& adv ==> final(global).count() == old(global).count() + 1
                &&& !adv ==> final(global).epoch == old(global).epoch
            }),
    {
        let ghost v = global.threads.view();
        let ghost outcome = advance_check_outcome(
            old(self).id(),
            *old(global),
            ge,
            old(self).iter_pos(),
            old(self).spec_check_count(),
            old(self).spec_can_advance(),
            old(self).spec_config().spec_advance_threshold() as int,
        );
        let current = match self.thread_iter.load_current(&global.threads) {
            Err(_) => {
                return ;
            },
            Ok(c) => c,
        };
        let (oid, other) = match current {
            Some(p) => {
                proof {
                    match self.thread_iter.spec_pos() {
                        IterPos::Head => {
                            assert(v[0].spec_id() == p.0 as int && v[0].spec_elem() == p.1);
                        },
                        IterPos::After(id) => {
                            assert(global.threads.contains_id(id as int));
                            let i = global.threads.idx_of(id as int);
                            assert(global.threads.ids()[i] == id as int);
                            assert(i + 1 < v.len());
                            assert(v[i + 1].spec_id() == p.0 as int && v[i + 1].spec_elem()
                                == p.1);
                        },
                    }
                    assert(exists|j: int|
                        0 <= j < v.len() && (#[trigger] v[j]).spec_id() == p.0 as int
                            && v[j].spec_elem() == p.1);
                }
                p
            },
            None => {
                self.can_advance = true;
                proof {
                    // the cursor sat just past the lowest identifier, so the
                    // whole pass below the floor has been observed safe
                    match old(self).iter_pos() {
                        IterPos::Head => {
                            assert(global.threads.ids().contains(self.id()));
                            let k = global.threads.ids().index_of(self.id());
                            assert(false);
                        },
                        IterPos::After(cid) => {
                            assert(global.threads.contains_id(cid as int));
                            let i = global.threads.idx_of(cid as int);
                            assert(global.threads.ids()[i] == cid as int);
                            assert(i + 1 == v.len());
                            assert forall|j: int|
                                0 <= j < v.len() && (#[trigger] v[j]).spec_id() < old(self).pass_floor() implies good(v[j].spec_elem(), global.count()) by {
                                if j < i {
                                    assert(global.threads.ids()[j] > global.threads.ids()[i]);
                                }
                                assert(v[j].spec_id() >= cid as int);
                            }
                        },
                    }
                }
                self.thread_iter.restart();
                proof {
                    assert(global.threads.ids().contains(self.id()));
                    let k = global.threads.ids().index_of(self.id());
                    assert(global.threads.view().len() > 0);
                }
                match self.thread_iter.load_head(&global.threads) {
                    Some(p) => {
                        proof {
                            assert(v[0].spec_id() == p.0 as int && v[0].spec_elem() == p.1);
                            assert(exists|j: int|
                                0 <= j < v.len() && (#[trigger] v[j]).spec_id() == p.0 as int
                                    && v[j].spec_elem() == p.1);
                        }
                        p
                    },
                    None => {
                        proof {
                            assert(false);
                        }
                        (0, ThreadState::new(Epoch::zero()))
                    },
                }
            },
        };
        let ghost jx = choose|j: int|
            0 <= j < v.len() && (#[trigger] v[j]).spec_id() == oid as int && v[j].spec_elem()
                == other;
        proof {
            assert(other.wf() && other.count() <= global.count()) by {
                assert(v[jx].spec_elem().wf());
            }
        }
        let (oe, ostate) = other.load_decompose();
        if oid == self.entry.id() || oe.into_inner() == ge.into_inner() || ostate
            == State::Quiescent {
            proof {
                // the observed thread cannot block an advance: it is this
                // thread (quiescent while entering), it announces the
                // current epoch, or it is quiescent
                if oid as int == self.id() {
                    assert(v[jx].spec_elem().spec_state() == State::Quiescent);
                } else if ostate != State::Quiescent {
                    assert(other.spec_state() == State::Active);
                    assert(other.count() >= global.count() - 1) by {
                        assert(v[jx].spec_elem().spec_state() == State::Active);
                    }
                    crate::epoch::lemma_word_equal_close(oe, ge);
                    assert(other.count() == global.count());
                }
                assert(good(v[jx].spec_elem(), global.count()));
            }
            if self.check_count < u32::MAX {
                self.check_count = self.check_count + 1;
            }
            let ghost pos_before = self.thread_iter.spec_pos();
            self.thread_iter.advance(&global.threads);
            proof {
                // the freshly observed thread extends the safe interval of
                // the current pass down to its identifier
                match pos_before {
                    IterPos::Head => {
                        assert(jx == 0) by {
                            if jx != 0 {
                                assert(global.threads.ids()[0] > global.threads.ids()[jx]);
                            }
                        }
                        assert(self.thread_iter.spec_pos() == IterPos::After(
                            v[0].spec_id() as usize,
                        ));
                        assert forall|i: int|
                            0 <= i < v.len() && v[0].spec_id() <= (#[trigger] v[i]).spec_id()
                                < self.pass_floor() implies good(
                            v[i].spec_elem(),
                            global.count(),
                        ) by {
                            if i != 0 {
                                assert(global.threads.ids()[0] > global.threads.ids()[i]);
                            }
                        }
                    },
                    IterPos::After(cid) => {
                        assert(global.threads.contains_id(cid as int));
                        let k = global.threads.idx_of(cid as int);
                        assert(global.threads.ids()[k] == cid as int);
                        assert(k + 1 < v.len());
                        assert(jx == k + 1) by {
                            if jx < k + 1 {
                                assert(global.threads.ids()[jx] > global.threads.ids()[k + 1]);
                            } else if jx > k + 1 {
                                assert(global.threads.ids()[k + 1] > global.threads.ids()[jx]);
                            }
                        }
                        assert(self.thread_iter.spec_pos() == IterPos::After(
                            v[k + 1].spec_id() as usize,
                        ));
                        assert forall|i: int|
                            0 <= i < v.len() && v[k + 1].spec_id() <= (#[trigger] v[
                                i
                            ]).spec_id() < self.pass_floor() implies good(
                            v[i].spec_elem(),
                            global.count(),
                        ) by {
                            if i < k + 1 {
                                assert(global.threads.ids()[i] >= global.threads.ids()[k]) by {
                                    if i < k {
                                        assert(global.threads.ids()[i] > global.threads.ids()[
                                            k
                                        ]);
                                    }
                                }
                            } else if i > k + 1 {
                                assert(global.threads.ids()[k + 1] > global.threads.ids()[i]);
                            }
                        }
                    },
                }
            }
            if self.can_advance && self.check_count >= self.config.advance_threshold() {
                proof {
                    // a recorded full pass plus the floor fact make every
                    // registered thread safe for the advance
                    assert forall|i: int| 0 <= i < v.len() implies good(
                        (#[trigger] v[i]).spec_elem(),
                        global.count(),
                    ) by {
                        assert(v[i].spec_id() >= self.pass_floor() || v[i].spec_id()
                            < self.pass_floor());
                    }
                }
                let next = ge.increment();
                let _ = global.epoch.compare_and_swap(ge, next);
                proof {
                    assert forall|i: int| 0 <= i < global.threads.view().len() implies (
                    #[trigger] global.threads.view()[i].spec_elem()).wf() && global.threads.view()[
                        i
                    ].spec_elem().count() <= global.count() by {
                        assert(old(global).threads.view()[i].spec_elem().wf());
                        assert(good(v[i].spec_elem(), old(global).count()));
                    }
                    assert(epoch_close(*global)) by {
                        assert forall|i: int|
                            0 <= i < global.threads.view().len() && (#[trigger] global.threads
                                .view()[i]).spec_elem().spec_state() == State::Active implies
                        global.threads.view()[i].spec_elem().count() >= global.count() - 1 by {
                            assert(good(v[i].spec_elem(), old(global).count()));
                        }
                    }
                }
            }
        }
    }
}


impl Local {
    /// Enters a guarded section.
    ///
    /// Nested entries only deepen the nesting. The outermost entry loads
    /// the global epoch; when it moved, the ring rotates, its oldest full
    /// bags are destroyed and the abandoned stack is adopted; the advance
    /// check runs once every `check_threshold` enters; finally the thread
    /// announces the loaded epoch, active. The contract threads the
    /// protection invariant through: the epoch never moves more than one
    /// advance ahead of any active announcement. The last requirement
    /// encodes the scheme's wrap assumption — a thread does not sleep
    /// through half the epoch space between two enters, so a word-equal
    /// epoch comparison really means an equal epoch.
    #[verifier::rlimit(60)]
    pub fn set_active(&mut self, global: &mut Global)
        requires
            old(self).wf(*old(global)),
            old(global).wf(),
            old(self).guards() < usize::MAX,
            own_ok(*old(self), *old(global)),
            sweep_ok(*old(self), *old(global)),
            epoch_close(*old(global)),
            old(global).count() - old(self).cached().count() < crate::epoch::half_modulus(),
        ensures
            final(global).wf(),
            final(self).wf(*final(global)),
            final(self).guards() == old(self).guards() + 1,
            final(self).id() == old(self).id(),
            final(self).spec_config() == old(self).spec_config(),
            own_ok(*final(self), *final(global)),
            sweep_ok(*final(self), *final(global)),
            epoch_close(*final(global)),
            final(global).threads.spec_next_id() == old(global).threads.spec_next_id(),
            final(global).threads.view().len() == old(global).threads.view().len(),
            final(global).threads.ids() == old(global).threads.ids(),
            old(self).guards() > 0 ==> *final(self) == old(self).with_guards(
                old(self).guards() + 1,
            ) && *final(global) == *old(global),
            old(self).guards() == 0 ==> {
                &&& holdings(*final(self), *final(global)) == holdings(*old(self), *old(global))
                &&& old(global).destroyed@.is_prefix_of(final(global).destroyed@)
                &&& final(global).threads.ids() == old(global).threads.ids()
                &&& final(global).config == old(global).config
                &&& old(global).count() <= final(global).count() <= old(global).count() + 1
                &&& final(self).cached().spec_word() == old(global).epoch.value().spec_word()
                &&& forall|j: int|
                    0 <= j < final(global).threads.view().len() && final(global).threads.view()[
                        j
                    ].spec_id() == old(self).id() ==> (#[trigger] final(global).threads.view()[
                        j
                    ].spec_elem()).count() == old(global).count() && final(global).threads.view()[
                        j
                    ].spec_elem().spec_state() == State::Active
                &&& forall|j: int|
                    0 <= j < final(global).threads.view().len() && final(global).threads.view()[
                        j
                    ].spec_id() != old(self).id() ==> #[trigger] final(global).threads.view()[j]
                        == old(global).threads.view()[j]
            },
            old(self).guards() == 0 ==> ({
                let ge0 = old(global).epoch.value();
                let changed = ge0.spec_word() != old(self).cached().spec_word();
                let pos0 = if changed {
                    IterPos::Head
                } else {
                    old(self).iter_pos()
                };
                let cc0 = if changed {
                    0int
                } else {
                    old(self).spec_check_count()
                };
                let ca0 = if changed {
                    false
                } else {
                    old(self).spec_can_advance()
                };
                let ops0 = (if changed {
                    0int
                } else {
                    old(self).spec_ops_count()
                }) + 1;
                let due = ops0 >= old(self).spec_config().spec_check_threshold() as int;
                let (p2, c2, a2, adv) = advance_check_outcome(
                    old(self).id(),
                    *old(global),
                    ge0,
                    pos0,
                    cc0,
                    ca0,
                    old(self).spec_config().spec_advance_threshold() as int,
                );
                &&& changed ==> final(global).abandoned.spec_queues().len() == 0 && final(self).cached() == ge0 && final(global).destroyed@.to_multiset() == old(global).destroyed@.to_multiset().add(
                    old(self).ring().spec_queues()[(old(self).ring().spec_curr() + 1)
                        % 3].recs().to_multiset(),
                ).add(stale_recs(old(global).abandoned.spec_queues(), ge0.count()))
                &&& !changed ==> final(self).cached() == old(self).cached() && final(global).abandoned == old(global).abandoned && final(global).destroyed == old(global).destroyed && final(self).ring() == old(self).ring()
                &&& final(self).spec_ops_count() == (if due {
                    0int
                } else {
                    ops0
                })
                &&& final(self).iter_pos() == (if due {
                    p2
                } else {
                    pos0
                })
                &&& final(self).spec_check_count() == (if due {
                    c2
                } else {
                    cc0
                })
                &&& final(self).spec_can_advance() == (if due {
                    a2
                } else {
                    ca0
                })
                &&& final(global).count() == old(global).count() + (if due && adv {
                    1int
                } else {
                    0int
                })
                &&& !(due && adv) ==> final(global).epoch == old(global).epoch
            }),
    {
        let count = self.guard_count;
        if count == 0 {
            let ge = global.epoch.load();
            if ge.into_inner() != self.cached_local_epoch.into_inner() {
                self.advance_local_epoch(global, ge);
            } else {
                proof {
                    crate::epoch::lemma_word_equal_close(self.cached_local_epoch, ge);
                }
            }
            proof {
                assert(self.cached_local_epoch.count() == global.count());
                assert(sweep_ok(*self, *global));
                assert(own_ok(*self, *global));
                assert(epoch_close(*global));
            }
            self.ops_count = self.ops_count + 1;
            let ghost gmid = *global;
            let ghost smid = *self;
            if self.ops_count >= self.config.check_threshold() {
                self.ops_count = 0;
                self.try_advance(global, ge);
                proof {
                    assert(gmid.threads == old(global).threads);
                    assert(advance_check_outcome(
                        smid.id(),
                        gmid,
                        ge,
                        smid.iter_pos(),
                        smid.spec_check_count(),
                        smid.spec_can_advance(),
                        smid.spec_config().spec_advance_threshold() as int,
                    ) == advance_check_outcome(
                        old(self).id(),
                        *old(global),
                        ge,
                        smid.iter_pos(),
                        smid.spec_check_count(),
                        smid.spec_can_advance(),
                        old(self).spec_config().spec_advance_threshold() as int,
                    ));
                }
            }
            let mut st = ThreadState::new(ge);
            st.store(ge, State::Active);
            let ghost gpre = *global;
            global.threads.set_elem(self.entry.id(), st);
            self.guard_count = count + 1;
            proof {
                assert(global.threads.ids() == gpre.threads.ids());
                assert forall|i: int| 0 <= i < global.threads.view().len() implies (#[trigger]
                global.threads.view()[i].spec_elem()).wf() && global.threads.view()[
                    i
                ].spec_elem().count() <= global.count() by {
                    if gpre.threads.ids()[i] == self.entry.spec_id() {
                        assert(global.threads.view()[i].spec_elem() == st);
                    } else {
                        assert(global.threads.view()[i] == gpre.threads.view()[i]);
                        assert(gpre.threads.view()[i].spec_elem().wf());
                    }
                }
                assert(holdings(*self, *global) =~= holdings(*old(self), *old(global)));
                assert(epoch_close(*global)) by {
                    assert forall|i: int|
                        0 <= i < global.threads.view().len() && (#[trigger] global.threads
                            .view()[i]).spec_elem().spec_state() == State::Active implies global
                        .threads.view()[i].spec_elem().count() >= global.count() - 1 by {
                        if gpre.threads.ids()[i] == self.entry.spec_id() {
                            assert(global.threads.view()[i].spec_elem() == st);
                        } else {
                            assert(global.threads.view()[i] == gpre.threads.view()[i]);
                        }
                    }
                }
                assert(own_ok(*self, *global)) by {
                    assert forall|i: int|
                        0 <= i < global.threads.view().len() && (#[trigger] global.threads
                            .view()[i]).spec_id() == self.id() implies global.threads.view()[
                        i
                    ].spec_elem().spec_state() == State::Active by {
                        assert(gpre.threads.ids()[i] == self.entry.spec_id());
                        assert(global.threads.view()[i].spec_elem() == st);
                    }
                }
                assert(sweep_ok(*self, *global)) by {
                    if self.cached_local_epoch.count() == global.count() {
                        assert forall|i: int| 0 <= i < global.threads.view().len() implies good(
                            (#[trigger] global.threads.view()[i]).spec_elem(),
                            global.count(),
                        ) == good(gpre.threads.view()[i].spec_elem(), global.count())
                            || global.threads.view()[i].spec_elem() == st by {
                            if gpre.threads.ids()[i] == self.entry.spec_id() {
                                assert(global.threads.view()[i].spec_elem() == st);
                            } else {
                                assert(global.threads.view()[i] == gpre.threads.view()[i]);
                            }
                        }
                        assert(good(st, global.count()));
                        assert forall|i: int|
                            0 <= i < global.threads.view().len() && (#[trigger] global.threads
                                .view()[i]).spec_id() >= self.pass_floor() implies good(
                            global.threads.view()[i].spec_elem(),
                            global.count(),
                        ) by {
                            if gpre.threads.ids()[i] != self.entry.spec_id() {
                                assert(global.threads.view()[i] == gpre.threads.view()[i]);
                                assert(gpre.threads.view()[i].spec_id() >= self.pass_floor());
                            }
                        }
                        match self.thread_iter.spec_pos() {
                            IterPos::After(cid) => {
                                assert forall|i: int|
                                    0 <= i < global.threads.view().len() && cid as int <= (
                                    #[trigger] global.threads.view()[i]).spec_id()
                                        < self.pass_floor() implies good(
                                    global.threads.view()[i].spec_elem(),
                                    global.count(),
                                ) by {
                                    if gpre.threads.ids()[i] != self.entry.spec_id() {
                                        assert(global.threads.view()[i] == gpre.threads.view()[
                                            i
                                        ]);
                                    }
                                }
                            },
                            IterPos::Head => {},
                        }
                        if self.can_advance {
                            assert forall|i: int|
                                0 <= i < global.threads.view().len() && (#[trigger] global
                                    .threads.view()[i]).spec_id() < self.pass_floor() implies
                            good(global.threads.view()[i].spec_elem(), global.count()) by {
                                if gpre.threads.ids()[i] != self.entry.spec_id() {
                                    assert(global.threads.view()[i] == gpre.threads.view()[i]);
                                }
                            }
                        }
                    }
                }
            }
        } else {
            self.guard_count = count + 1;
            proof {
                assert(*self =~= old(self).with_guards(old(self).guards() + 1));
                assert(own_ok(*self, *global));
                assert(sweep_ok(*self, *global));
            }
        }
    }

    /// Leaves a guarded section.
    ///
    /// The outermost exit announces the thread quiescent at its cached
    /// epoch; nested exits only shrink the nesting.
    pub fn set_inactive(&mut self, global: &mut Global)
        requires
            old(self).wf(*old(global)),
            old(global).wf(),
            old(self).guards() >= 1,
            own_ok(*old(self), *old(global)),
            sweep_ok(*old(self), *old(global)),
            epoch_close(*old(global)),
        ensures
            final(global).wf(),
            final(self).wf(*final(global)),
            *final(self) == old(self).with_guards(old(self).guards() - 1),
            own_ok(*final(self), *final(global)),
            sweep_ok(*final(self), *final(global)),
            epoch_close(*final(global)),
            final(global).threads.spec_next_id() == old(global).threads.spec_next_id(),
            final(global).threads.view().len() == old(global).threads.view().len(),
            final(global).threads.ids() == old(global).threads.ids(),
            final(global).count() == old(global).count(),
            old(self).guards() > 1 ==> *final(global) == *old(global),
            old(self).guards() == 1 ==> {
                &&& final(global).threads.ids() == old(global).threads.ids()
                &&& final(global).epoch == old(global).epoch
                &&& final(global).destroyed == old(global).destroyed
                &&& final(global).abandoned == old(global).abandoned
                &&& final(global).config == old(global).config
                &&& forall|j: int|
                    0 <= j < final(global).threads.view().len() && final(global).threads.view()[
                        j
                    ].spec_id() == old(self).id() ==> (#[trigger] final(global).threads.view()[
                        j
                    ].spec_elem()).count() == old(self).cached().count() && final(global).threads.view()[j].spec_elem().spec_state() == State::Quiescent
                &&& forall|j: int|
                    0 <= j < final(global).threads.view().len() && final(global).threads.view()[
                        j
                    ].spec_id() != old(self).id() ==> #[trigger] final(global).threads.view()[j]
                        == old(global).threads.view()[j]
            },
    {
        let count = self.guard_count;
        self.guard_count = count - 1;
        if count == 1 {
            let st = ThreadState::new(self.cached_local_epoch);
            let ghost gpre = *global;
            global.threads.set_elem(self.entry.id(), st);
            proof {
                assert(global.threads.ids() == gpre.threads.ids());
                assert forall|i: int| 0 <= i < global.threads.view().len() implies (#[trigger]
                global.threads.view()[i].spec_elem()).wf() && global.threads.view()[
                    i
                ].spec_elem().count() <= global.count() by {
                    if gpre.threads.ids()[i] == self.entry.spec_id() {
                        assert(global.threads.view()[i].spec_elem() == st);
                    } else {
                        assert(global.threads.view()[i] == gpre.threads.view()[i]);
                        assert(gpre.threads.view()[i].spec_elem().wf());
                    }
                }
                assert(*self =~= old(self).with_guards(old(self).guards() - 1));
                lemma_write_good(*old(self), gpre, *global, st, self.entry.spec_id());
                assert(own_ok(*self, *global)) by {
                    assert forall|i: int|
                        0 <= i < global.threads.view().len() && (#[trigger] global.threads
                            .view()[i]).spec_id() == self.id() implies global.threads.view()[
                        i
                    ].spec_elem().spec_state() == State::Quiescent by {
                        assert(gpre.threads.ids()[i] == self.entry.spec_id());
                        assert(global.threads.view()[i].spec_elem() == st);
                    }
                }
            }
        } else {
            proof {
                assert(*self =~= old(self).with_guards(old(self).guards() - 1));
                assert(own_ok(*self, *global));
                assert(sweep_ok(*self, *global));
            }
        }
    }

    /// Retires a record into the current queue, stamped with the cached
    /// epoch.
    ///
    /// The caller has unlinked the record from every shared path; the
    /// engine owes it a destruction no earlier than two full epoch advances
    /// from now.
    pub fn retire_record(&mut self, record: Retired)
        requires
            old(self).wf_own(),
        ensures
            final(self).wf_own(),
            final(self).pending().to_multiset() == old(self).pending().to_multiset().insert(
                record.stamped(old(self).cached().count()),
            ),
            final(self).id() == old(self).id(),
            final(self).guards() == old(self).guards(),
            final(self).cached() == old(self).cached(),
            final(self).iter_pos() == old(self).iter_pos(),
            final(self).spec_config() == old(self).spec_config(),
            final(self).spec_ops_count() == old(self).spec_ops_count(),
            final(self).spec_check_count() == old(self).spec_check_count(),
            final(self).spec_can_advance() == old(self).spec_can_advance(),
            final(self).ring().spec_cap() == old(self).ring().spec_cap(),
            final(self).ring().epoch() == old(self).ring().epoch(),
            final(self).pass_floor() == old(self).pass_floor(),
    {
        let stamped = record.with_stamp(Ghost(self.cached_local_epoch.count()));
        self.bags.retire_record(stamped, &mut self.bag_pool);
    }

    /// Voluntarily performs the epoch-advance work of an enter without
    /// becoming active.
    ///
    /// When the global epoch equals the cached one, this is a no-op: the
    /// contract says both states come back unchanged.
    pub fn try_flush(&mut self, global: &mut Global)
        requires
            old(self).wf(*old(global)),
            old(global).wf(),
            old(self).guards() == 0,
            own_ok(*old(self), *old(global)),
            sweep_ok(*old(self), *old(global)),
            epoch_close(*old(global)),
        ensures
            final(global).wf(),
            final(self).wf(*final(global)),
            final(self).id() == old(self).id(),
            final(self).guards() == 0,
            final(self).spec_config() == old(self).spec_config(),
            own_ok(*final(self), *final(global)),
            sweep_ok(*final(self), *final(global)),
            epoch_close(*final(global)),
            final(global).threads.spec_next_id() == old(global).threads.spec_next_id(),
            final(global).threads.view().len() == old(global).threads.view().len(),
            final(global).threads.ids() == old(global).threads.ids(),
            final(global).count() == old(global).count(),
            old(global).epoch.value().spec_word() == old(self).cached().spec_word() ==> *final(self) == *old(self) && *final(global) == *old(global),
            old(global).epoch.value().spec_word() != old(self).cached().spec_word() ==> {
                &&& holdings(*final(self), *final(global)) == holdings(*old(self), *old(global))
                &&& old(global).destroyed@.is_prefix_of(final(global).destroyed@)
                &&& final(global).threads.ids() == old(global).threads.ids()
                &&& final(global).epoch == old(global).epoch
                &&& final(global).config == old(global).config
                &&& final(global).abandoned.spec_queues().len() == 0
                &&& final(self).cached() == old(global).epoch.value()
                &&& final(self).guards() == 0
                &&& final(global).destroyed@.to_multiset() == old(
                    global,
                ).destroyed@.to_multiset().add(
                    old(self).ring().spec_queues()[(old(self).ring().spec_curr() + 1)
                        % 3].recs().to_multiset(),
                ).add(stale_recs(
                    old(global).abandoned.spec_queues(),
                    old(global).epoch.value().count(),
                ))
                &&& final(self).spec_ops_count() == 0
                &&& final(self).spec_check_count() == 0
                &&& !final(self).spec_can_advance()
                &&& final(self).iter_pos() == IterPos::Head
                &&& forall|j: int|
                    0 <= j < final(global).threads.view().len() && final(global).threads.view()[
                        j
                    ].spec_id() == old(self).id() ==> (#[trigger] final(global).threads.view()[
                        j
                    ].spec_elem()).count() == old(global).count() && final(global).threads.view()[j].spec_elem().spec_state() == State::Quiescent
                &&& forall|j: int|
                    0 <= j < final(global).threads.view().len() && final(global).threads.view()[
                        j
                    ].spec_id() != old(self).id() ==> #[trigger] final(global).threads.view()[j]
                        == old(global).threads.view()[j]
            },
    {
        let ge = global.epoch.load();
        if ge.into_inner() != self.cached_local_epoch.into_inner() {
            self.advance_local_epoch(global, ge);
            proof {
                assert(epoch_close(*global));
            }
            let st = ThreadState::new(ge);
            let ghost gpre = *global;
            global.threads.set_elem(self.entry.id(), st);
            proof {
                assert(global.threads.ids() == gpre.threads.ids());
                assert forall|i: int| 0 <= i < global.threads.view().len() implies (#[trigger]
                global.threads.view()[i].spec_elem()).wf() && global.threads.view()[
                    i
                ].spec_elem().count() <= global.count() by {
                    if gpre.threads.ids()[i] == self.entry.spec_id() {
                        assert(global.threads.view()[i].spec_elem() == st);
                    } else {
                        assert(global.threads.view()[i] == gpre.threads.view()[i]);
                        assert(gpre.threads.view()[i].spec_elem().wf());
                    }
                }
                assert(holdings(*self, *global) =~= holdings(*old(self), *old(global)));
                lemma_write_good(*self, gpre, *global, st, self.entry.spec_id());
                assert(own_ok(*self, *global)) by {
                    assert forall|i: int|
                        0 <= i < global.threads.view().len() && (#[trigger] global.threads
                            .view()[i]).spec_id() == self.id() implies global.threads.view()[
                        i
                    ].spec_elem().spec_state() == State::Quiescent by {
                        assert(gpre.threads.ids()[i] == self.entry.spec_id());
                        assert(global.threads.view()[i].spec_elem() == st);
                    }
                }
            }
        }
    }

    /// Tears the thread down: unlinks its registry entry, retires the entry
    /// itself as the thread's final record, seals the ring and pushes it
    /// onto the abandoned stack for some survivor to adopt.
    ///
    /// Nothing is lost: afterwards the abandoned stack holds everything the
    /// thread still had in quarantine, plus one record standing for the
    /// registry entry, stamped with the thread's cached epoch.
    pub fn unregister(self, global: &mut Global)
        requires
            self.wf(*old(global)),
            old(global).wf(),
            self.guards() == 0,
        ensures
            final(global).wf(),
            !final(global).threads.contains_id(self.id()),
            forall|id: int|
                id != self.id() ==> #[trigger] final(global).threads.contains_id(id) == old(global).threads.contains_id(id),
            final(global).epoch == old(global).epoch,
            final(global).destroyed == old(global).destroyed,
            final(global).config == old(global).config,
            final(global).threads.view() == old(global).threads.view().remove(
                old(global).threads.idx_of(self.id()),
            ),
            final(global).threads.spec_next_id() == old(global).threads.spec_next_id(),
            epoch_close(*old(global)) ==> epoch_close(*final(global)),
            exists|node: Retired|
                (#[trigger] node.spec_addr()) == self.id() && node.stamp() == self.cached().count()
                    && final(global).abandoned.recs().to_multiset() == old(global).abandoned.recs().to_multiset().add(
                    self.pending().to_multiset().insert(node),
                ),
            exists|n: int|
                1 <= n <= 3 && final(global).abandoned.spec_queues().len()
                    == old(global).abandoned.spec_queues().len() + n && (#[trigger] final(global).abandoned.spec_queues().skip(n)) == old(global).abandoned.spec_queues() && (
                forall|i: int|
                    0 <= i < n ==> self.cached().count() - 2 <= (#[trigger] final(global).abandoned.spec_queues()[i]).spec_seal().count() <= self.cached().count())
                    && (forall|i: int, j: int|
                    0 <= i < j < n ==> (#[trigger] final(global).abandoned.spec_queues()[
                        i
                    ]).spec_seal().count() > (#[trigger] final(global).abandoned.spec_queues()[
                        j
                    ]).spec_seal().count()),
    {
        let Local { entry, mut bags, cached_local_epoch, bag_pool: _, .. } = self;
        let ghost pending0 = bags.all_recs();
        let id = global.threads.remove(entry);
        let node = Retired::new(id).with_stamp(Ghost(cached_local_epoch.count()));
        let ghost nodeg = node;
        bags.retire_final_record(node);
        proof {
            assert(bags.all_recs().to_multiset().len() == pending0.to_multiset().insert(
                nodeg,
            ).len());
            assert(bags.all_recs().len() > 0);
        }
        let sealed = match bags.into_sealed(cached_local_epoch) {
            Some(l) => l,
            None => {
                proof {
                    assert(false);
                }
                crate::sealed::SealedList::from_queues(Vec::new())
            },
        };
        let ghost srecs = sealed_recs(sealed.spec_queues());
        let ghost apre = global.abandoned.recs();
        global.abandoned.push(sealed);
        proof {
            let ns = sealed.spec_queues().len() as int;
            assert forall|i: int| 0 <= i < global.abandoned.spec_queues().len() implies (
            #[trigger] global.abandoned.spec_queues()[i]).spec_seal().count() <= global.count()
                by {
                if i < ns {
                    assert(global.abandoned.spec_queues()[i] == sealed.spec_queues()[i]);
                } else {
                    assert(global.abandoned.spec_queues()[i] == old(global).abandoned.spec_queues()[i - ns]);
                    assert(old(global).abandoned.spec_queues()[i - ns].spec_seal().count()
                        <= old(global).count());
                }
            }
            assert(global.abandoned.spec_queues().skip(ns) =~= old(global).abandoned.spec_queues());
            assert forall|i: int| 0 <= i < ns implies self.cached().count() - 2 <= (#[trigger]
            global.abandoned.spec_queues()[i]).spec_seal().count() <= self.cached().count() by {
                assert(global.abandoned.spec_queues()[i] == sealed.spec_queues()[i]);
            }
            assert forall|i: int, j: int| 0 <= i < j < ns implies (#[trigger] global.abandoned
                .spec_queues()[i]).spec_seal().count() > (#[trigger] global.abandoned
                .spec_queues()[j]).spec_seal().count() by {
                assert(global.abandoned.spec_queues()[i] == sealed.spec_queues()[i]);
                assert(global.abandoned.spec_queues()[j] == sealed.spec_queues()[j]);
            }
            assert(1 <= (ns + 0) <= 3);
            assert(global.abandoned.recs().to_multiset() =~= apre.to_multiset().add(
                srecs.to_multiset(),
            ));
            assert(srecs.to_multiset() == pending0.to_multiset().insert(nodeg));
            assert(nodeg.spec_addr() == self.id() && nodeg.stamp() == self.cached().count());
            assert(global.abandoned.recs().to_multiset() == old(global).abandoned.recs().to_multiset().add(self.pending().to_multiset().insert(nodeg)));
        }
    }
}

} // verus!
