//! The whole process: the shared state plus every live thread, with the
//! protection theorem.
//!
//! Owning all the per-thread states in one value makes it possible to state
//! and keep the invariant that no single thread can state alone: the global
//! epoch is never more than one advance ahead of any active thread's
//! announcement, because an advance happens only after its sweeper observed
//! every registered thread quiescent or current, and everything registered
//! since was born quiescent. Together with the destruction bound this gives
//! the protection property: while a thread is active, no record retired at
//! its announced epoch or at the one before it is ever destroyed.

use crate::config::Config;
use crate::epoch::half_modulus;
use crate::global::Global;
use crate::list::IterPos;
use crate::local::{epoch_close, good, own_ok, sweep_ok, Local};
use crate::retired::Retired;
use vstd::multiset::Multiset;
use vstd::prelude::*;

verus! {

broadcast use crate::local::Local::lemma_with_guards, crate::local::Local::lemma_guards_nonneg, crate::retired::Retired::lemma_stamped, vstd::seq_lib::group_to_multiset_ensures, vstd::seq_lib::lemma_multiset_commutative, vstd::multiset::group_multiset_axioms;

/// A thread keeps its standing in the registry when a new thread is
/// registered at the head.
proof fn lemma_insert_preserves(l: Local, pre: Global, post: Global)
    requires
        pre.threads.wf(),
        pre.threads.contains_id(l.id()),
        own_ok(l, pre),
        sweep_ok(l, pre),
        post.threads.view().len() == pre.threads.view().len() + 1,
        post.threads.view().skip(1) == pre.threads.view(),
        post.threads.view()[0].spec_elem().spec_state() == crate::epoch::State::Quiescent,
        post.threads.view()[0].spec_id() == pre.threads.spec_next_id(),
        post.threads.spec_next_id() == pre.threads.spec_next_id() + 1,
        post.epoch == pre.epoch,
    ensures
        own_ok(l, post),
        sweep_ok(l, post),
        post.threads.contains_id(l.id()),
{
    let pv = pre.threads.view();
    let qv = post.threads.view();
    assert forall|i: int| 1 <= i < qv.len() implies #[trigger] qv[i] == pv[i - 1] by {
        assert(qv.skip(1)[i - 1] == qv[i]);
    }
    assert(l.id() < pre.threads.spec_next_id()) by {
        let k = pre.threads.ids().index_of(l.id());
        assert(pre.threads.ids()[k] < pre.threads.spec_next_id());
    }
    assert(post.threads.contains_id(l.id())) by {
        let k = pre.threads.ids().index_of(l.id());
        assert(qv[k + 1] == pv[k]);
        assert(post.threads.ids()[k + 1] == l.id());
    }
    assert forall|i: int|
        0 <= i < qv.len() && (#[trigger] qv[i]).spec_id() == l.id() implies (l.guards() == 0
        ==> qv[i].spec_elem().spec_state() == crate::epoch::State::Quiescent) && (l.guards() > 0
        ==> qv[i].spec_elem().spec_state() == crate::epoch::State::Active) by {
        if i == 0 {
            assert(qv[0].spec_id() == pre.threads.spec_next_id());
        } else {
            assert(qv[i] == pv[i - 1]);
            assert(pv[i - 1].spec_id() == l.id());
        }
    }
    if l.cached().count() == post.count() {
        assert forall|i: int|
            0 <= i < qv.len() && (#[trigger] qv[i]).spec_id() >= l.pass_floor() implies good(
            qv[i].spec_elem(),
            post.count(),
        ) by {
            if i > 0 {
                assert(qv[i] == pv[i - 1]);
            }
        }
        match l.iter_pos() {
            IterPos::After(cid) => {
                assert forall|i: int|
                    0 <= i < qv.len() && cid as int <= (#[trigger] qv[i]).spec_id()
                        < l.pass_floor() implies good(qv[i].spec_elem(), post.count()) by {
                    assert(i > 0);
                    assert(qv[i] == pv[i - 1]);
                }
            },
            IterPos::Head => {},
        }
        if l.spec_can_advance() {
            assert forall|i: int|
                0 <= i < qv.len() && (#[trigger] qv[i]).spec_id() < l.pass_floor() implies good(
                qv[i].spec_elem(),
                post.count(),
            ) by {
                assert(i > 0);
                assert(qv[i] == pv[i - 1]);
            }
        }
    }
}

/// A thread keeps its standing when another thread rewrites its own
/// announcement to something that cannot block an advance.
proof fn lemma_entry_change_preserves(l: Local, pre: Global, post: Global, x: int)
    requires
        own_ok(l, pre),
        sweep_ok(l, pre),
        pre.threads.contains_id(l.id()),
        l.id() != x,
        post.count() == pre.count(),
        post.threads.view().len() == pre.threads.view().len(),
        post.threads.ids() == pre.threads.ids(),
        post.threads.spec_next_id() == pre.threads.spec_next_id(),
        forall|j: int|
            0 <= j < pre.threads.view().len() && pre.threads.ids()[j] != x ==> #[trigger] post
                .threads.view()[j] == pre.threads.view()[j],
        forall|j: int|
            0 <= j < pre.threads.view().len() && pre.threads.ids()[j] == x ==> good(
                (#[trigger] post.threads.view()[j]).spec_elem(),
                post.count(),
            ) && post.threads.view()[j].spec_id() == x,
    ensures
        own_ok(l, post),
        sweep_ok(l, post),
        post.threads.contains_id(l.id()),
{
    let pv = pre.threads.view();
    let qv = post.threads.view();
    assert forall|i: int| 0 <= i < qv.len() implies (#[trigger] qv[i]).spec_id() == pv[
        i
    ].spec_id() by {
        assert(post.threads.ids()[i] == pre.threads.ids()[i]);
    }
    assert(post.threads.contains_id(l.id()));
    assert forall|i: int|
        0 <= i < qv.len() && (#[trigger] qv[i]).spec_id() == l.id() implies qv[i] == pv[i] by {
        assert(pre.threads.ids()[i] == l.id());
    }
    if l.cached().count() == post.count() {
        assert forall|i: int|
            0 <= i < qv.len() && (#[trigger] qv[i]).spec_id() >= l.pass_floor() implies good(
            qv[i].spec_elem(),
            post.count(),
        ) by {
            if pre.threads.ids()[i] != x {
                assert(qv[i] == pv[i]);
            }
        }
        match l.iter_pos() {
            IterPos::After(cid) => {
                assert forall|i: int|
                    0 <= i < qv.len() && cid as int <= (#[trigger] qv[i]).spec_id()
                        < l.pass_floor() implies good(qv[i].spec_elem(), post.count()) by {
                    if pre.threads.ids()[i] != x {
                        assert(qv[i] == pv[i]);
                    }
                }
            },
            IterPos::Head => {},
        }
        if l.spec_can_advance() {
            assert forall|i: int|
                0 <= i < qv.len() && (#[trigger] qv[i]).spec_id() < l.pass_floor() implies good(
                qv[i].spec_elem(),
                post.count(),
            ) by {
                if pre.threads.ids()[i] != x {
                    assert(qv[i] == pv[i]);
                }
            }
        }
    }
}

/// A thread keeps its standing when the epoch is advanced: its sweep facts
/// are conditioned on its cached epoch still being current, which the
/// advance has just falsified.
proof fn lemma_count_bump_preserves(l: Local, pre: Global, post: Global, x: int)
    requires
        own_ok(l, pre),
        sweep_ok(l, pre),
        pre.threads.contains_id(l.id()),
        l.id() != x,
        l.cached().count() <= pre.count(),
        pre.count() < post.count(),
        post.threads.view().len() == pre.threads.view().len(),
        post.threads.ids() == pre.threads.ids(),
        post.threads.spec_next_id() == pre.threads.spec_next_id(),
        forall|j: int|
            0 <= j < pre.threads.view().len() && pre.threads.ids()[j] != x ==> #[trigger] post
                .threads.view()[j] == pre.threads.view()[j],
    ensures
        own_ok(l, post),
        sweep_ok(l, post),
        post.threads.contains_id(l.id()),
{
    let pv = pre.threads.view();
    let qv = post.threads.view();
    assert forall|i: int| 0 <= i < qv.len() implies (#[trigger] qv[i]).spec_id() == pv[
        i
    ].spec_id() by {
        assert(post.threads.ids()[i] == pre.threads.ids()[i]);
    }
    assert(post.threads.contains_id(l.id()));
    assert forall|i: int|
        0 <= i < qv.len() && (#[trigger] qv[i]).spec_id() == l.id() implies qv[i] == pv[i] by {
        assert(pre.threads.ids()[i] == l.id());
    }
    assert(l.cached().count() != post.count());
}

/// A thread keeps its standing when another thread's entry is removed.
proof fn lemma_remove_preserves(l: Local, pre: Global, post: Global, k: int)
    requires
        own_ok(l, pre),
        sweep_ok(l, pre),
        pre.threads.contains_id(l.id()),
        0 <= k < pre.threads.view().len(),
        pre.threads.view()[k].spec_id() != l.id(),
        post.count() == pre.count(),
        post.threads.view() == pre.threads.view().remove(k),
        post.threads.spec_next_id() == pre.threads.spec_next_id(),
    ensures
        own_ok(l, post),
        sweep_ok(l, post),
        post.threads.contains_id(l.id()),
{
    let pv = pre.threads.view();
    let qv = post.threads.view();
    assert forall|i: int| 0 <= i < qv.len() implies #[trigger] qv[i] == (if i < k {
        pv[i]
    } else {
        pv[i + 1]
    }) by {}
    assert(post.threads.contains_id(l.id())) by {
        let m = pre.threads.ids().index_of(l.id());
        if m < k {
            assert(qv[m] == pv[m]);
            assert(post.threads.ids()[m] == l.id());
        } else {
            assert(m != k);
            assert(qv[m - 1] == pv[m]);
            assert(post.threads.ids()[m - 1] == l.id());
        }
    }
    assert forall|i: int|
        0 <= i < qv.len() && (#[trigger] qv[i]).spec_id() == l.id() implies (l.guards() == 0
        ==> qv[i].spec_elem().spec_state() == crate::epoch::State::Quiescent) && (l.guards() > 0
        ==> qv[i].spec_elem().spec_state() == crate::epoch::State::Active) by {
        if i < k {
            assert(pv[i].spec_id() == l.id());
        } else {
            assert(pv[i + 1].spec_id() == l.id());
        }
    }
    if l.cached().count() == post.count() {
        assert forall|i: int|
            0 <= i < qv.len() && (#[trigger] qv[i]).spec_id() >= l.pass_floor() implies good(
            qv[i].spec_elem(),
            post.count(),
        ) by {
            if i < k {
                assert(pv[i].spec_id() >= l.pass_floor());
            } else {
                assert(pv[i + 1].spec_id() >= l.pass_floor());
            }
        }
        match l.iter_pos() {
            IterPos::After(cid) => {
                assert forall|i: int|
                    0 <= i < qv.len() && cid as int <= (#[trigger] qv[i]).spec_id()
                        < l.pass_floor() implies good(qv[i].spec_elem(), post.count()) by {
                    if i < k {
                        assert(cid as int <= pv[i].spec_id() < l.pass_floor());
                    } else {
                        assert(cid as int <= pv[i + 1].spec_id() < l.pass_floor());
                    }
                }
            },
            IterPos::Head => {},
        }
        if l.spec_can_advance() {
            assert forall|i: int|
                0 <= i < qv.len() && (#[trigger] qv[i]).spec_id() < l.pass_floor() implies good(
                qv[i].spec_elem(),
                post.count(),
            ) by {
                if i < k {
                    assert(pv[i].spec_id() < l.pass_floor());
                } else {
                    assert(pv[i + 1].spec_id() < l.pass_floor());
                }
            }
        }
    }
}

/// The quarantined records of one slot: none when the slot is empty.
pub open spec fn slot_pending(s: Option<Local>) -> Multiset<Retired> {
    match s {
        Some(l) => l.pending().to_multiset(),
        None => Multiset::empty(),
    }
}

/// The quarantined records of all slots together.
pub open spec fn pending_sum(s: Seq<Option<Local>>) -> Multiset<Retired>
    decreases s.len(),
{
    if s.len() == 0 {
        Multiset::empty()
    } else {
        slot_pending(s[0]).add(pending_sum(s.skip(1)))
    }
}

/// Appending a slot adds its quarantine to the sum.
proof fn lemma_pending_sum_push(s: Seq<Option<Local>>, v: Option<Local>)
    ensures
        pending_sum(s.push(v)) == pending_sum(s).add(slot_pending(v)),
    decreases s.len(),
{
    let t = s.push(v);
    assert(t.len() == s.len() + 1);
    if s.len() == 0 {
        assert(t.skip(1) =~= Seq::<Option<Local>>::empty());
        assert(pending_sum(t.skip(1)) =~= Multiset::<Retired>::empty());
        assert(t[0] == v);
        assert(pending_sum(t) == slot_pending(v).add(pending_sum(t.skip(1))));
        assert(pending_sum(s) =~= Multiset::<Retired>::empty());
        assert(pending_sum(t) =~= pending_sum(s).add(slot_pending(v)));
    } else {
        assert(t.skip(1) =~= s.skip(1).push(v));
        lemma_pending_sum_push(s.skip(1), v);
        assert(t[0] == s[0]);
        assert(pending_sum(t) == slot_pending(s[0]).add(pending_sum(t.skip(1))));
        assert(pending_sum(t.skip(1)) == pending_sum(s.skip(1)).add(slot_pending(v)));
        assert(pending_sum(s) == slot_pending(s[0]).add(pending_sum(s.skip(1))));
        assert(pending_sum(t) =~= pending_sum(s).add(slot_pending(v)));
    }
}

/// Replacing one slot changes the sum by exactly that slot's change.
proof fn lemma_pending_sum_update(s: Seq<Option<Local>>, i: int, v: Option<Local>)
    requires
        0 <= i < s.len(),
    ensures
        pending_sum(s.update(i, v)).add(slot_pending(s[i])) == pending_sum(s).add(
            slot_pending(v),
        ),
    decreases s.len(),
{
    let t = s.update(i, v);
    assert(t.len() == s.len());
    if i == 0 {
        assert(t.skip(1) =~= s.skip(1));
        assert(t[0] == v);
        assert(pending_sum(t) == slot_pending(v).add(pending_sum(t.skip(1))));
        assert(pending_sum(s) == slot_pending(s[0]).add(pending_sum(s.skip(1))));
        assert(pending_sum(t).add(slot_pending(s[i])) =~= pending_sum(s).add(
            slot_pending(v),
        ));
    } else {
        assert(t.skip(1) =~= s.skip(1).update(i - 1, v));
        lemma_pending_sum_update(s.skip(1), i - 1, v);
        assert(t[0] == s[0]);
        assert(s.skip(1)[i - 1] == s[i]);
        assert(pending_sum(t) == slot_pending(s[0]).add(pending_sum(t.skip(1))));
        assert(pending_sum(s) == slot_pending(s[0]).add(pending_sum(s.skip(1))));
        assert(pending_sum(t.skip(1)) == pending_sum(s.skip(1).update(i - 1, v)));
        assert(slot_pending(s.skip(1)[i - 1]) == slot_pending(s[i]));
        assert(pending_sum(t.skip(1)).add(slot_pending(s[i])) == pending_sum(s.skip(1)).add(
            slot_pending(v),
        ));
        assert forall|e: Retired| #[trigger] pending_sum(t).add(slot_pending(s[i])).count(e)
            == pending_sum(s).add(slot_pending(v)).count(e) by {
            assert(pending_sum(t.skip(1)).add(slot_pending(s[i])).count(e) == pending_sum(
                s.skip(1),
            ).add(slot_pending(v)).count(e));
        }
        assert(pending_sum(t).add(slot_pending(s[i])) =~= pending_sum(s).add(
            slot_pending(v),
        ));
    }
}


/// Cancel a common summand of two equal multiset sums.
proof fn lemma_ms_cancel(a: Multiset<Retired>, b: Multiset<Retired>, c: Multiset<Retired>)
    requires
        a.add(c) == b.add(c),
    ensures
        a == b,
{
    assert forall|e: Retired| #[trigger] a.count(e) == b.count(e) by {
        vstd::multiset::axiom_multiset_add(a, c, e);
        vstd::multiset::axiom_multiset_add(b, c, e);
        assert(a.add(c).count(e) == b.add(c).count(e));
    }
    assert(a =~= b);
}

/// A sum that grew on one side by an inserted record grew by that record.
proof fn lemma_ms_shift(
    spost: Multiset<Retired>,
    spre: Multiset<Retired>,
    p: Multiset<Retired>,
    rec: Retired,
)
    requires
        spost.add(p) == spre.add(p.insert(rec)),
    ensures
        spost == spre.insert(rec),
{
    assert forall|e: Retired| #[trigger] spost.count(e) == spre.insert(rec).count(e) by {
        vstd::multiset::axiom_multiset_add(spost, p, e);
        vstd::multiset::axiom_multiset_add(spre, p.insert(rec), e);
        assert(spost.add(p).count(e) == spre.add(p.insert(rec)).count(e));
        assert(p.insert(rec).count(e) == p.count(e) + (if e == rec {
            1int
        } else {
            0int
        }));
        assert(spre.insert(rec).count(e) == spre.count(e) + (if e == rec {
            1int
        } else {
            0int
        }));
    }
    assert(spost =~= spre.insert(rec));
}

/// Conservation algebra for one thread's reclamation step: its quarantine,
/// the destruction log and the abandoned stack were conserved together, so
/// the whole process's account is conserved.
proof fn lemma_ms_holdings(
    dpost: Multiset<Retired>,
    apost: Multiset<Retired>,
    ppost: Multiset<Retired>,
    dpre: Multiset<Retired>,
    apre: Multiset<Retired>,
    ppre: Multiset<Retired>,
    spost: Multiset<Retired>,
    spre: Multiset<Retired>,
)
    requires
        ppost.add(dpost).add(apost) == ppre.add(dpre).add(apre),
        spost.add(ppre) == spre.add(ppost),
    ensures
        dpost.add(apost).add(spost) == dpre.add(apre).add(spre),
{
    assert forall|e: Retired| #[trigger] dpost.add(apost).add(spost).count(e) == dpre.add(
        apre,
    ).add(spre).count(e) by {
        vstd::multiset::axiom_multiset_add(ppost.add(dpost), apost, e);
        vstd::multiset::axiom_multiset_add(ppost, dpost, e);
        vstd::multiset::axiom_multiset_add(ppre.add(dpre), apre, e);
        vstd::multiset::axiom_multiset_add(ppre, dpre, e);
        vstd::multiset::axiom_multiset_add(spost, ppre, e);
        vstd::multiset::axiom_multiset_add(spre, ppost, e);
        vstd::multiset::axiom_multiset_add(dpost.add(apost), spost, e);
        vstd::multiset::axiom_multiset_add(dpost, apost, e);
        vstd::multiset::axiom_multiset_add(dpre.add(apre), spre, e);
        vstd::multiset::axiom_multiset_add(dpre, apre, e);
        assert(ppost.add(dpost).add(apost).count(e) == ppre.add(dpre).add(apre).count(e));
        assert(spost.add(ppre).count(e) == spre.add(ppost).count(e));
    }
    assert(dpost.add(apost).add(spost) =~= dpre.add(apre).add(spre));
}

/// One running process: the shared state and every live thread.
#[verifier::ext_equal]
pub struct Process {
    global: Global,
    locals: Vec<Option<Local>>,
    retired_all: Ghost<Multiset<Retired>>,
}

impl Process {
    /// The shared state.
    pub closed spec fn spec_global(self) -> Global {
        self.global
    }

    /// The per-thread slots; an unregistered slot is `None`.
    pub closed spec fn locals_view(self) -> Seq<Option<Local>> {
        self.locals@
    }

    /// Every record ever retired in this process, as a multiset.
    pub closed spec fn retired_all(self) -> Multiset<Retired> {
        self.retired_all@
    }

    /// Conservation of records: everything ever retired is accounted for,
    /// exactly once, as destroyed, abandoned, or still quarantined by some
    /// thread — no record is lost and none is destroyed twice.
    pub open spec fn conserved(self) -> bool {
        self.retired_all() == self.spec_global().destroyed@.to_multiset().add(
            self.spec_global().abandoned.recs().to_multiset(),
        ).add(pending_sum(self.locals_view()))
    }

    /// Whether slot `i` holds a live thread.
    pub open spec fn live(self, i: int) -> bool {
        0 <= i < self.locals_view().len() && self.locals_view()[i] is Some
    }

    /// The thread in slot `i`.
    pub open spec fn local_at(self, i: int) -> Local {
        self.locals_view()[i]->Some_0
    }

    /// The process invariant: the shared state is well-formed, the
    /// protection invariant holds, and every live thread is registered,
    /// consistent, and carries valid sweep facts, under distinct
    /// identifiers.
    pub open spec fn wf(self) -> bool {
        &&& self.spec_global().wf()
        &&& epoch_close(self.spec_global())
        &&& self.conserved()
        &&& forall|i: int|
            #[trigger] self.live(i) ==> self.local_at(i).wf(self.spec_global()) && own_ok(
                self.local_at(i),
                self.spec_global(),
            ) && sweep_ok(self.local_at(i), self.spec_global())
        &&& forall|i: int, j: int|
            self.live(i) && self.live(j) && i != j ==> #[trigger] self.local_at(i).id()
                != #[trigger] self.local_at(j).id()
    }
}


impl Process {
    /// The announced epoch count of the live thread in slot `i`.
    pub open spec fn announced_count(self, i: int) -> int {
        self.spec_global().threads.view()[self.spec_global().threads.idx_of(
            self.local_at(i).id(),
        )].spec_elem().count()
    }

    /// Creates a process at epoch zero with no threads.
    pub fn new() -> (r: Process)
        ensures
            r.wf(),
            r.locals_view().len() == 0,
            r.spec_global().count() == 0,
            r.spec_global().destroyed@.len() == 0,
    {
        let r = Process {
            global: Global::new(),
            locals: Vec::new(),
            retired_all: Ghost(Multiset::empty()),
        };
        proof {
            assert(r.spec_global().abandoned.recs().to_multiset() =~= Multiset::<
                Retired,
            >::empty());
            assert(r.retired_all() =~= r.spec_global().destroyed@.to_multiset().add(
                r.spec_global().abandoned.recs().to_multiset(),
            ).add(pending_sum(r.locals_view())));
        }
        r
    }

    /// Sets the configuration once; later calls change nothing.
    pub fn init_config(&mut self, config: Config)
        requires
            old(self).wf(),
        ensures
            final(self).wf(),
            final(self).locals_view() == old(self).locals_view(),
    {
        self.global.init_config(config);
        proof {
            assert(self.spec_global().wf());
            assert(epoch_close(self.spec_global()));
            assert forall|i: int| #[trigger] self.live(i) implies self.local_at(i).wf(
                self.spec_global(),
            ) && own_ok(self.local_at(i), self.spec_global()) && sweep_ok(
                self.local_at(i),
                self.spec_global(),
            ) by {
                assert(old(self).live(i));
            }
            assert forall|i: int, j: int|
                self.live(i) && self.live(j) && i != j implies #[trigger] self.local_at(i).id()
                    != #[trigger] self.local_at(j).id() by {
                assert(old(self).live(i) && old(self).live(j));
                assert(old(self).local_at(i).id() != old(self).local_at(j).id());
            }
        }
    }

    /// Registers a new thread, returning its slot.
    pub fn register(&mut self) -> (tid: usize)
        requires
            old(self).wf(),
            old(self).spec_global().threads.spec_next_id() < usize::MAX,
            old(self).locals_view().len() < usize::MAX,
        ensures
            final(self).wf(),
            tid == old(self).locals_view().len(),
            final(self).live(tid as int),
            final(self).local_at(tid as int).guards() == 0,
            final(self).locals_view().len() == old(self).locals_view().len() + 1,
            forall|i: int|
                0 <= i < old(self).locals_view().len() ==> #[trigger] final(self).locals_view()[
                    i
                ] == old(self).locals_view()[i],
            final(self).spec_global().epoch == old(self).spec_global().epoch,
            final(self).spec_global().destroyed == old(self).spec_global().destroyed,
            final(self).spec_global().abandoned == old(self).spec_global().abandoned,
    {
        let ghost gpre = self.global;
        let l = Local::new(&mut self.global);
        let ghost lnew = l;
        let tid = self.locals.len();
        self.locals.push(Some(l));
        proof {
            let gpost = self.global;
            lemma_pending_sum_push(old(self).locals_view(), Some(lnew));
            assert(slot_pending(Some(lnew)) =~= Multiset::<Retired>::empty());
            assert(self.conserved()) by {
                assert(pending_sum(self.locals_view()) =~= pending_sum(
                    old(self).locals_view(),
                ));
            }
            assert forall|i: int|
                0 <= i < old(self).locals_view().len() && #[trigger] old(self).live(i) implies
            self.local_at(i).wf(gpost) && own_ok(self.local_at(i), gpost) && sweep_ok(
                self.local_at(i),
                gpost,
            ) && self.local_at(i).id() < gpre.threads.spec_next_id() by {
                let li = old(self).local_at(i);
                assert(self.locals_view()[i] == old(self).locals_view()[i]);
                lemma_insert_preserves(li, gpre, gpost);
                assert(li.id() < gpre.threads.spec_next_id()) by {
                    let k = gpre.threads.ids().index_of(li.id());
                    assert(gpre.threads.ids()[k] < gpre.threads.spec_next_id());
                }
            }
            assert forall|i: int| #[trigger] self.live(i) implies self.local_at(i).wf(gpost)
                && own_ok(self.local_at(i), gpost) && sweep_ok(self.local_at(i), gpost) by {
                if i == tid as int {
                    assert(self.local_at(i) == lnew);
                } else {
                    assert(old(self).live(i));
                }
            }
            assert forall|i: int, j: int|
                self.live(i) && self.live(j) && i != j implies #[trigger] self.local_at(i).id()
                    != #[trigger] self.local_at(j).id() by {
                if i == tid as int {
                    assert(old(self).live(j));
                } else if j == tid as int {
                    assert(old(self).live(i));
                } else {
                    assert(old(self).live(i) && old(self).live(j));
                    assert(old(self).local_at(i).id() != old(self).local_at(j).id());
                }
            }
        }
        tid
    }

    /// Enters a guarded section on the thread in slot `tid`.
    ///
    /// The requirement that the thread's cached epoch is within one window
    /// of the global one encodes the scheme's wrap assumption: a thread
    /// must not sleep through half the epoch space between two enters.
    pub fn enter(&mut self, tid: usize)
        requires
            old(self).wf(),
            old(self).live(tid as int),
            old(self).local_at(tid as int).guards() < usize::MAX,
            old(self).spec_global().count() - old(self).local_at(tid as int).cached().count()
                < half_modulus(),
        ensures
            final(self).wf(),
            final(self).live(tid as int),
            final(self).local_at(tid as int).guards() == old(self).local_at(
                tid as int,
            ).guards() + 1,
            final(self).locals_view().len() == old(self).locals_view().len(),
            forall|i: int|
                0 <= i < old(self).locals_view().len() && i != tid as int ==> #[trigger] final(self).locals_view()[i] == old(self).locals_view()[i],
            old(self).spec_global().count() <= final(self).spec_global().count() <= old(self).spec_global().count() + 1,
            old(self).spec_global().destroyed@.is_prefix_of(
                final(self).spec_global().destroyed@,
            ),
    {
        let ghost gpre = self.global;
        let ghost lpre = old(self).local_at(tid as int);
        let slot = self.locals.remove(tid);
        proof {
            assert(old(self).live(tid as int));
            assert(slot == Some(lpre));
        }
        let mut l = slot.unwrap();
        proof {
            assert(l == lpre);
        }
        l.set_active(&mut self.global);
        let ghost lpost = l;

        self.locals.insert(tid, Some(l));
        proof {
            let gpost = self.global;
            assert(self.locals_view() =~= old(self).locals_view().update(
                tid as int,
                Some(lpost),
            ));
            lemma_pending_sum_update(old(self).locals_view(), tid as int, Some(lpost));
            assert(self.conserved()) by {
                if lpre.guards() > 0 {
                    assert(lpost.pending() == lpre.pending());
                    lemma_ms_cancel(
                        pending_sum(self.locals_view()),
                        pending_sum(old(self).locals_view()),
                        slot_pending(Some(lpre)),
                    );
                } else {
                    assert(crate::local::holdings(lpost, gpost) == crate::local::holdings(
                        lpre,
                        gpre,
                    ));
                    lemma_ms_holdings(
                        gpost.destroyed@.to_multiset(),
                        gpost.abandoned.recs().to_multiset(),
                        lpost.pending().to_multiset(),
                        gpre.destroyed@.to_multiset(),
                        gpre.abandoned.recs().to_multiset(),
                        lpre.pending().to_multiset(),
                        pending_sum(self.locals_view()),
                        pending_sum(old(self).locals_view()),
                    );
                }
            }
            if lpre.guards() > 0 {
                assert(gpost == gpre);
            } else {
                assert forall|j: int|
                    0 <= j < gpre.threads.view().len() && gpre.threads.ids()[j] != lpre.id()
                        implies #[trigger] gpost.threads.view()[j] == gpre.threads.view()[j] by {
                    assert(gpost.threads.ids() == gpre.threads.ids());
                    assert(gpost.threads.ids()[j] == gpre.threads.ids()[j]);
                    assert(0 <= j < gpost.threads.view().len());
                    assert(gpost.threads.view()[j].spec_id() == gpost.threads.ids()[j]);
                    assert(gpost.threads.view()[j].spec_id() != lpre.id());
                }
                if gpost.count() == gpre.count() {
                    assert forall|j: int|
                        0 <= j < gpre.threads.view().len() && gpre.threads.ids()[j] == lpre.id()
                            implies good(
                        (#[trigger] gpost.threads.view()[j]).spec_elem(),
                        gpost.count(),
                    ) && gpost.threads.view()[j].spec_id() == lpre.id() by {
                        assert(gpost.threads.view()[j].spec_id() == gpost.threads.ids()[j]);
                    }
                }
            }
            assert forall|i: int| #[trigger] self.live(i) implies self.local_at(i).wf(gpost)
                && own_ok(self.local_at(i), gpost) && sweep_ok(self.local_at(i), gpost) by {
                if i == tid as int {
                    assert(self.local_at(i) == lpost);
                } else {
                    assert(old(self).live(i));
                    let li = old(self).local_at(i);
                    assert(self.local_at(i) == li);
                    assert(li.id() != lpre.id());
                    if lpre.guards() > 0 {
                        assert(gpost == gpre);
                    } else if gpost.count() == gpre.count() {
                        lemma_entry_change_preserves(li, gpre, gpost, lpre.id());
                    } else {
                        lemma_count_bump_preserves(li, gpre, gpost, lpre.id());
                    }
                }
            }
            assert forall|i: int, j: int|
                self.live(i) && self.live(j) && i != j implies #[trigger] self.local_at(i).id()
                    != #[trigger] self.local_at(j).id() by {
                assert(old(self).live(i) && old(self).live(j));
                assert(old(self).local_at(i).id() != old(self).local_at(j).id());
                assert(self.local_at(i).id() == old(self).local_at(i).id());
                assert(self.local_at(j).id() == old(self).local_at(j).id());
            }
        }
    }

    /// Leaves a guarded section on the thread in slot `tid`.
    pub fn exit(&mut self, tid: usize)
        requires
            old(self).wf(),
            old(self).live(tid as int),
            old(self).local_at(tid as int).guards() >= 1,
        ensures
            final(self).wf(),
            final(self).live(tid as int),
            final(self).local_at(tid as int).guards() == old(self).local_at(
                tid as int,
            ).guards() - 1,
            final(self).locals_view().len() == old(self).locals_view().len(),
            forall|i: int|
                0 <= i < old(self).locals_view().len() && i != tid as int ==> #[trigger] final(self).locals_view()[i] == old(self).locals_view()[i],
            final(self).spec_global().count() == old(self).spec_global().count(),
            final(self).spec_global().destroyed == old(self).spec_global().destroyed,
    {
        let ghost gpre = self.global;
        let ghost lpre = old(self).local_at(tid as int);
        let slot = self.locals.remove(tid);
        proof {
            assert(old(self).live(tid as int));
            assert(slot == Some(lpre));
        }
        let mut l = slot.unwrap();
        l.set_inactive(&mut self.global);
        let ghost lpost = l;
        self.locals.insert(tid, Some(l));
        proof {
            let gpost = self.global;
            assert(self.locals_view() =~= old(self).locals_view().update(
                tid as int,
                Some(lpost),
            ));
            lemma_pending_sum_update(old(self).locals_view(), tid as int, Some(lpost));
            assert(self.conserved()) by {
                assert(lpost.pending() == lpre.pending());
                lemma_ms_cancel(
                    pending_sum(self.locals_view()),
                    pending_sum(old(self).locals_view()),
                    slot_pending(Some(lpre)),
                );
                assert(gpost.destroyed == gpre.destroyed && gpost.abandoned == gpre.abandoned);
            }
            if lpre.guards() == 1 {
                assert forall|j: int|
                    0 <= j < gpre.threads.view().len() && gpre.threads.ids()[j] != lpre.id()
                        implies #[trigger] gpost.threads.view()[j] == gpre.threads.view()[j] by {
                    assert(gpost.threads.ids()[j] == gpre.threads.ids()[j]);
                    assert(gpost.threads.view()[j].spec_id() == gpost.threads.ids()[j]);
                }
                assert forall|j: int|
                    0 <= j < gpre.threads.view().len() && gpre.threads.ids()[j] == lpre.id()
                        implies good(
                    (#[trigger] gpost.threads.view()[j]).spec_elem(),
                    gpost.count(),
                ) && gpost.threads.view()[j].spec_id() == lpre.id() by {
                    assert(gpost.threads.view()[j].spec_id() == gpost.threads.ids()[j]);
                }
            }
            assert forall|i: int| #[trigger] self.live(i) implies self.local_at(i).wf(gpost)
                && own_ok(self.local_at(i), gpost) && sweep_ok(self.local_at(i), gpost) by {
                if i == tid as int {
                    assert(self.local_at(i) == lpost);
                } else {
                    assert(old(self).live(i));
                    let li = old(self).local_at(i);
                    assert(self.local_at(i) == li);
                    assert(li.id() != lpre.id());
                    if lpre.guards() > 1 {
                        assert(gpost == gpre);
                    } else {
                        lemma_entry_change_preserves(li, gpre, gpost, lpre.id());
                    }
                }
            }
            assert forall|i: int, j: int|
                self.live(i) && self.live(j) && i != j implies #[trigger] self.local_at(i).id()
                    != #[trigger] self.local_at(j).id() by {
                assert(old(self).live(i) && old(self).live(j));
                assert(old(self).local_at(i).id() != old(self).local_at(j).id());
            }
        }
    }
}


impl Process {
    /// Retires the record at `addr` on the thread in slot `tid`.
    pub fn retire(&mut self, tid: usize, addr: usize)
        requires
            old(self).wf(),
            old(self).live(tid as int),
        ensures
            final(self).wf(),
            final(self).live(tid as int),
            final(self).spec_global().epoch == old(self).spec_global().epoch,
            final(self).spec_global().destroyed == old(self).spec_global().destroyed,
            final(self).locals_view().len() == old(self).locals_view().len(),
            forall|i: int|
                0 <= i < old(self).locals_view().len() && i != tid as int ==> #[trigger] final(self).locals_view()[i] == old(self).locals_view()[i],
            exists|rec: Retired|
                (#[trigger] rec.spec_addr()) == addr as int && rec.stamp() == old(self).local_at(
                    tid as int,
                ).cached().count() && final(self).local_at(tid as int).pending().to_multiset()
                    == old(self).local_at(tid as int).pending().to_multiset().insert(rec),
    {
        let ghost lpre = old(self).local_at(tid as int);
        let slot = self.locals.remove(tid);
        proof {
            assert(old(self).live(tid as int));
            assert(slot == Some(lpre));
        }
        let mut l = slot.unwrap();
        let record = Retired::new(addr);
        let ghost rec = record.stamped(lpre.cached().count());
        l.retire_record(record);
        self.retired_all = Ghost(self.retired_all@.insert(rec));
        let ghost lpost = l;
        self.locals.insert(tid, Some(l));
        proof {
            assert(self.locals_view() =~= old(self).locals_view().update(
                tid as int,
                Some(lpost),
            ));
            lemma_pending_sum_update(old(self).locals_view(), tid as int, Some(lpost));
            assert(self.conserved()) by {
                assert(lpost.pending().to_multiset() == lpre.pending().to_multiset().insert(
                    rec,
                ));
                lemma_ms_shift(
                    pending_sum(self.locals_view()),
                    pending_sum(old(self).locals_view()),
                    lpre.pending().to_multiset(),
                    rec,
                );
                assert(self.retired_all() =~= self.spec_global().destroyed@.to_multiset().add(
                    self.spec_global().abandoned.recs().to_multiset(),
                ).add(pending_sum(self.locals_view())));
            }
            assert forall|i: int| #[trigger] self.live(i) implies self.local_at(i).wf(
                self.spec_global(),
            ) && own_ok(self.local_at(i), self.spec_global()) && sweep_ok(
                self.local_at(i),
                self.spec_global(),
            ) by {
                if i == tid as int {
                    assert(self.local_at(i) == lpost);
                    assert(old(self).wf());
                    assert(own_ok(lpre, self.spec_global()));
                    assert(sweep_ok(lpre, self.spec_global()));
                    assert(own_ok(lpost, self.spec_global())) by {
                        assert(lpost.id() == lpre.id() && lpost.guards() == lpre.guards());
                    }
                    assert(sweep_ok(lpost, self.spec_global())) by {
                        assert(lpost.cached() == lpre.cached() && lpost.pass_floor()
                            == lpre.pass_floor() && lpost.iter_pos() == lpre.iter_pos()
                            && lpost.spec_can_advance() == lpre.spec_can_advance());
                    }
                } else {
                    assert(old(self).live(i));
                }
            }
            assert forall|i: int, j: int|
                self.live(i) && self.live(j) && i != j implies #[trigger] self.local_at(i).id()
                    != #[trigger] self.local_at(j).id() by {
                assert(old(self).live(i) && old(self).live(j));
                assert(old(self).local_at(i).id() != old(self).local_at(j).id());
            }
        }
    }

    /// Voluntarily performs the reclamation work of an enter on the thread
    /// in slot `tid`, which holds no guard; a no-op when the epoch has not
    /// moved.
    pub fn try_flush(&mut self, tid: usize)
        requires
            old(self).wf(),
            old(self).live(tid as int),
            old(self).local_at(tid as int).guards() == 0,
        ensures
            final(self).wf(),
            final(self).live(tid as int),
            final(self).spec_global().count() == old(self).spec_global().count(),
            old(self).spec_global().destroyed@.is_prefix_of(
                final(self).spec_global().destroyed@,
            ),
            final(self).locals_view().len() == old(self).locals_view().len(),
            forall|i: int|
                0 <= i < old(self).locals_view().len() && i != tid as int ==> #[trigger] final(self).locals_view()[i] == old(self).locals_view()[i],
            old(self).spec_global().epoch.value().spec_word() == old(self).local_at(
                tid as int,
            ).cached().spec_word() ==> final(self).locals_view() == old(self).locals_view()
                && final(self).spec_global() == old(self).spec_global(),
    {
        let ghost gpre = self.global;
        let ghost lpre = old(self).local_at(tid as int);
        let slot = self.locals.remove(tid);
        proof {
            assert(old(self).live(tid as int));
            assert(slot == Some(lpre));
        }
        let mut l = slot.unwrap();
        l.try_flush(&mut self.global);
        let ghost lpost = l;
        self.locals.insert(tid, Some(l));
        proof {
            let gpost = self.global;
            assert(self.locals_view() =~= old(self).locals_view().update(
                tid as int,
                Some(lpost),
            ));
            lemma_pending_sum_update(old(self).locals_view(), tid as int, Some(lpost));
            assert(self.conserved()) by {
                if gpre.epoch.value().spec_word() == lpre.cached().spec_word() {
                    assert(lpost.pending() == lpre.pending());
                    lemma_ms_cancel(
                        pending_sum(self.locals_view()),
                        pending_sum(old(self).locals_view()),
                        slot_pending(Some(lpre)),
                    );
                } else {
                    assert(crate::local::holdings(lpost, gpost) == crate::local::holdings(
                        lpre,
                        gpre,
                    ));
                    lemma_ms_holdings(
                        gpost.destroyed@.to_multiset(),
                        gpost.abandoned.recs().to_multiset(),
                        lpost.pending().to_multiset(),
                        gpre.destroyed@.to_multiset(),
                        gpre.abandoned.recs().to_multiset(),
                        lpre.pending().to_multiset(),
                        pending_sum(self.locals_view()),
                        pending_sum(old(self).locals_view()),
                    );
                }
            }
            if gpre.epoch.value().spec_word() == lpre.cached().spec_word() {
                assert(lpost == lpre && gpost == gpre);
                assert(self.locals_view() =~= old(self).locals_view());
            } else {
                assert forall|j: int|
                    0 <= j < gpre.threads.view().len() && gpre.threads.ids()[j] != lpre.id()
                        implies #[trigger] gpost.threads.view()[j] == gpre.threads.view()[j] by {
                    assert(gpost.threads.ids()[j] == gpre.threads.ids()[j]);
                    assert(gpost.threads.view()[j].spec_id() == gpost.threads.ids()[j]);
                }
                assert forall|j: int|
                    0 <= j < gpre.threads.view().len() && gpre.threads.ids()[j] == lpre.id()
                        implies good(
                    (#[trigger] gpost.threads.view()[j]).spec_elem(),
                    gpost.count(),
                ) && gpost.threads.view()[j].spec_id() == lpre.id() by {
                    assert(gpost.threads.view()[j].spec_id() == gpost.threads.ids()[j]);
                }
            }
            assert forall|i: int| #[trigger] self.live(i) implies self.local_at(i).wf(
                self.spec_global(),
            ) && own_ok(self.local_at(i), self.spec_global()) && sweep_ok(
                self.local_at(i),
                self.spec_global(),
            ) by {
                if i == tid as int {
                    assert(self.local_at(i) == lpost);
                } else {
                    assert(old(self).live(i));
                    let li = old(self).local_at(i);
                    assert(self.local_at(i) == li);
                    assert(li.id() != lpre.id());
                    if gpre.epoch.value().spec_word() == lpre.cached().spec_word() {
                        assert(gpost == gpre);
                    } else {
                        lemma_entry_change_preserves(li, gpre, gpost, lpre.id());
                    }
                }
            }
            assert forall|i: int, j: int|
                self.live(i) && self.live(j) && i != j implies #[trigger] self.local_at(i).id()
                    != #[trigger] self.local_at(j).id() by {
                assert(old(self).live(i) && old(self).live(j));
                assert(old(self).local_at(i).id() != old(self).local_at(j).id());
            }
        }
    }

    /// Tears down the thread in slot `tid`: its entry leaves the registry
    /// and its remaining quarantine moves to the abandoned stack.
    pub fn unregister(&mut self, tid: usize)
        requires
            old(self).wf(),
            old(self).live(tid as int),
            old(self).local_at(tid as int).guards() == 0,
        ensures
            final(self).wf(),
            !final(self).live(tid as int),
            final(self).spec_global().count() == old(self).spec_global().count(),
            final(self).spec_global().destroyed == old(self).spec_global().destroyed,
            final(self).locals_view().len() == old(self).locals_view().len(),
            forall|i: int|
                0 <= i < old(self).locals_view().len() && i != tid as int ==> #[trigger] final(self).locals_view()[i] == old(self).locals_view()[i],
            final(self).spec_global().threads.view() == old(self).spec_global().threads.view()
                .remove(
                old(self).spec_global().threads.idx_of(old(self).local_at(tid as int).id()),
            ),
            !final(self).spec_global().threads.contains_id(old(self).local_at(tid as int).id()),
            exists|node: Retired|
                (#[trigger] node.spec_addr()) == old(self).local_at(tid as int).id()
                    && node.stamp() == old(self).local_at(tid as int).cached().count() && final(self).spec_global().abandoned.recs().to_multiset() == old(self).spec_global().abandoned.recs().to_multiset().add(
                    old(self).local_at(tid as int).pending().to_multiset().insert(node),
                ),
    {
        let ghost gpre = self.global;
        let ghost lpre = old(self).local_at(tid as int);
        let slot = self.locals.remove(tid);
        proof {
            assert(old(self).live(tid as int));
            assert(slot == Some(lpre));
        }
        let l = slot.unwrap();
        l.unregister(&mut self.global);
        let ghost node = choose|node: Retired|
            (#[trigger] node.spec_addr()) == lpre.id() && node.stamp() == lpre.cached().count()
                && self.global.abandoned.recs().to_multiset()
                == gpre.abandoned.recs().to_multiset().add(
                lpre.pending().to_multiset().insert(node),
            );
        self.retired_all = Ghost(self.retired_all@.insert(node));
        self.locals.insert(tid, None);
        proof {
            let gpost = self.global;
            assert(self.locals_view() =~= old(self).locals_view().update(
                tid as int,
                None::<Local>,
            ));
            assert(old(self).locals_view()[tid as int] == Some(lpre));
            lemma_pending_sum_update(old(self).locals_view(), tid as int, None::<Local>);
            assert(self.conserved()) by {
                assert(self.retired_all() == old(self).retired_all().insert(node));
                assert(gpost.abandoned.recs().to_multiset() == gpre.abandoned.recs()
                    .to_multiset().add(lpre.pending().to_multiset().insert(node)));
                assert(slot_pending(None::<Local>) == Multiset::<Retired>::empty());
                assert(slot_pending(Some(lpre)) == lpre.pending().to_multiset());
                assert forall|e: Retired| #[trigger] self.retired_all().count(e)
                    == gpost.destroyed@.to_multiset().add(
                    gpost.abandoned.recs().to_multiset(),
                ).add(pending_sum(self.locals_view())).count(e) by {
                    vstd::multiset::axiom_multiset_add(
                        gpost.destroyed@.to_multiset().add(
                            gpost.abandoned.recs().to_multiset(),
                        ),
                        pending_sum(self.locals_view()),
                        e,
                    );
                    vstd::multiset::axiom_multiset_add(
                        gpost.destroyed@.to_multiset(),
                        gpost.abandoned.recs().to_multiset(),
                        e,
                    );
                    vstd::multiset::axiom_multiset_add(
                        gpre.abandoned.recs().to_multiset(),
                        lpre.pending().to_multiset().insert(node),
                        e,
                    );
                    vstd::multiset::axiom_multiset_add(
                        gpre.destroyed@.to_multiset().add(gpre.abandoned.recs().to_multiset()),
                        pending_sum(old(self).locals_view()),
                        e,
                    );
                    vstd::multiset::axiom_multiset_add(
                        gpre.destroyed@.to_multiset(),
                        gpre.abandoned.recs().to_multiset(),
                        e,
                    );
                    vstd::multiset::axiom_multiset_add(
                        pending_sum(self.locals_view()),
                        lpre.pending().to_multiset(),
                        e,
                    );
                    vstd::multiset::axiom_multiset_add(
                        pending_sum(old(self).locals_view()),
                        Multiset::empty(),
                        e,
                    );
                    vstd::multiset::axiom_multiset_empty::<Retired>(e);
                    assert(pending_sum(self.locals_view()).add(slot_pending(Some(lpre))).count(
                        e,
                    ) == pending_sum(old(self).locals_view()).add(slot_pending(
                        None::<Local>,
                    )).count(e));
                    assert(pending_sum(self.locals_view()).add(
                        lpre.pending().to_multiset(),
                    ).count(e) == pending_sum(old(self).locals_view()).count(e));
                    assert(old(self).retired_all().count(e) == gpre.destroyed@.to_multiset()
                        .add(gpre.abandoned.recs().to_multiset()).add(
                        pending_sum(old(self).locals_view()),
                    ).count(e));
                }
                assert(self.retired_all() =~= gpost.destroyed@.to_multiset().add(
                    gpost.abandoned.recs().to_multiset(),
                ).add(pending_sum(self.locals_view())));
            }
            let k = gpre.threads.idx_of(lpre.id());
            assert(self.locals_view() =~= old(self).locals_view().update(
                tid as int,
                None::<Local>,
            ));
            assert(gpre.threads.ids()[k] == lpre.id() && 0 <= k < gpre.threads.view().len()) by {
                assert(gpre.threads.contains_id(lpre.id()));
            }
            assert(gpre.threads.view()[k].spec_id() == lpre.id());
            assert forall|i: int| #[trigger] self.live(i) implies self.local_at(i).wf(
                self.spec_global(),
            ) && own_ok(self.local_at(i), self.spec_global()) && sweep_ok(
                self.local_at(i),
                self.spec_global(),
            ) by {
                assert(i != tid as int);
                assert(old(self).live(i));
                let li = old(self).local_at(i);
                assert(self.local_at(i) == li);
                assert(li.id() != lpre.id());
                lemma_remove_preserves(li, gpre, gpost, k);
            }
            assert forall|i: int, j: int|
                self.live(i) && self.live(j) && i != j implies #[trigger] self.local_at(i).id()
                    != #[trigger] self.local_at(j).id() by {
                assert(old(self).live(i) && old(self).live(j));
                assert(old(self).local_at(i).id() != old(self).local_at(j).id());
            }
        }
    }

    /// Whether the thread in slot `tid` is inside a guarded section.
    pub fn is_active(&self, tid: usize) -> (r: bool)
        requires
            self.live(tid as int),
        ensures
            r == (self.local_at(tid as int).guards() > 0),
    {
        match &self.locals[tid] {
            Some(l) => l.is_active(),
            None => {
                proof {
                    assert(false);
                }
                false
            },
        }
    }

    /// The current global epoch word.
    pub fn epoch_word(&self) -> (r: u64)
        ensures
            r == self.spec_global().epoch.value().spec_word(),
    {
        self.global.epoch_word()
    }

    /// How many records have been destroyed so far.
    pub fn destroyed_len(&self) -> (r: usize)
        ensures
            r == self.spec_global().destroyed@.len(),
    {
        self.global.destroyed_len()
    }

    /// The address of the `i`-th destroyed record.
    pub fn destroyed_addr(&self, i: usize) -> (r: usize)
        requires
            i < self.spec_global().destroyed@.len(),
        ensures
            r as int == self.spec_global().destroyed@[i as int].spec_addr(),
    {
        self.global.destroyed[i].address()
    }
}

/// The protection theorem.
///
/// While a thread is inside a guarded section, its announcement is active,
/// the global epoch is at most one advance ahead of the announced epoch,
/// and every record ever destroyed was retired strictly before the epoch
/// preceding the announced one. No thread, at any point in the run that
/// reached this state, has destroyed a record retired at the announced
/// epoch or the epoch before it.
pub proof fn lemma_active_thread_protected(p: Process, i: int, j: int)
    requires
        p.wf(),
        p.live(i),
        p.local_at(i).guards() > 0,
        0 <= j < p.spec_global().destroyed@.len(),
    ensures
        p.spec_global().count() <= p.announced_count(i) + 1,
        p.spec_global().destroyed@[j].stamp() < p.announced_count(i) - 1,
{
    let g = p.spec_global();
    let l = p.local_at(i);
    assert(g.threads.contains_id(l.id()));
    let k = g.threads.idx_of(l.id());
    assert(g.threads.ids()[k] == l.id() && 0 <= k < g.threads.view().len()) by {
        assert(g.threads.contains_id(l.id()));
    }
    assert(g.threads.view()[k].spec_id() == l.id());
    assert(g.threads.view()[k].spec_elem().spec_state() == crate::epoch::State::Active);
    assert(g.threads.view()[k].spec_elem().count() >= g.count() - 1);
    assert(g.destroyed@[j].stamp() <= g.count() - 3);
}

} // verus!
