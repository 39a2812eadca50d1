use debra::config::Config;
use debra::epoch::State;
use debra::global::Global;
use debra::local::Local;
use debra::retired::Retired;

fn announcement(g: &Global, id: usize) -> (u64, State) {
    let ts = g.threads.get(id).expect("thread must be registered");
    let (e, s) = ts.load_decompose();
    (e.into_inner(), s)
}

#[test]
fn flush_without_epoch_change_is_noop() {
    let mut g = Global::new();
    let mut t = Local::new(&mut g);
    let before = announcement(&g, t.thread_id());
    for _ in 0..5 {
        t.try_flush(&mut g);
        assert_eq!(g.epoch_word(), 0);
        assert_eq!(g.destroyed_len(), 0);
        assert_eq!(g.abandoned.len(), 0);
        assert_eq!(t.cached_epoch_word(), 0);
        assert_eq!(announcement(&g, t.thread_id()), before);
    }
}

#[test]
fn enter_exit_restores_announcement() {
    let mut g = Global::new();
    let mut t = Local::new(&mut g);
    let before = announcement(&g, t.thread_id());
    assert_eq!(before, (0, State::Quiescent));

    t.set_active(&mut g);
    assert!(t.is_active());
    assert_eq!(announcement(&g, t.thread_id()), (0, State::Active));

    t.set_inactive(&mut g);
    assert!(!t.is_active());
    assert_eq!(announcement(&g, t.thread_id()), before);
    t.unregister(&mut g);
}

#[test]
fn nested_guards_touch_the_announcement_once() {
    let mut g = Global::new();
    let mut t = Local::new(&mut g);
    t.set_active(&mut g);
    t.set_active(&mut g);
    assert_eq!(announcement(&g, t.thread_id()), (0, State::Active));
    t.set_inactive(&mut g);
    // one guard still held: the announcement stays active
    assert!(t.is_active());
    assert_eq!(announcement(&g, t.thread_id()), (0, State::Active));
    t.set_inactive(&mut g);
    assert!(!t.is_active());
    assert_eq!(announcement(&g, t.thread_id()), (0, State::Quiescent));
}

#[test]
fn single_thread_advances_on_schedule() {
    let mut g = Global::new();
    g.init_config(Config::with_params(1, 0));
    let mut t = Local::new(&mut g);

    // first enter: the cursor passes this thread's own entry
    t.set_active(&mut g);
    t.set_inactive(&mut g);
    assert_eq!(g.epoch_word(), 0);

    // second enter: the sweep completes, and the epoch is advanced
    t.set_active(&mut g);
    t.set_inactive(&mut g);
    assert_eq!(g.epoch_word(), 2);

    // the new epoch is observed at the next enter
    t.set_active(&mut g);
    assert_eq!(t.cached_epoch_word(), 2);
    t.set_inactive(&mut g);
}

#[test]
fn bag_capacity_boundary() {
    let mut g = Global::new();
    let mut t = Local::new_with_capacity(&mut g, 4);
    assert_eq!(t.current_bag_count(), 1);
    for i in 0..3usize {
        t.retire_record(Retired::new(i));
        assert_eq!(t.current_bag_count(), 1);
    }
    // the capacity-th retirement triggers the head swap and link
    t.retire_record(Retired::new(3));
    assert_eq!(t.current_bag_count(), 2);
    // the next retirement still succeeds into the fresh head
    t.retire_record(Retired::new(4));
    assert_eq!(t.current_bag_count(), 2);
    assert_eq!(g.destroyed_len(), 0);
}

#[test]
fn single_thread_quarantine_stays_bounded() {
    // A single thread retires one record per enter; reclamation on the
    // rotation schedule must keep the surviving quarantine within three
    // bags' worth of records.
    let total: usize = 1_000_000;
    let mut g = Global::new();
    g.init_config(Config::with_params(128, 0));
    let mut t = Local::new(&mut g);
    for i in 0..total {
        t.set_active(&mut g);
        t.retire_record(Retired::new(i));
        t.set_inactive(&mut g);
    }
    let survived = total - g.destroyed_len();
    assert!(survived <= 3 * 256, "survived {survived} records");
}

#[test]
fn epoch_wrap_preserves_the_age_rule() {
    // A process whose epoch counter sits at the top of the word keeps
    // reclaiming correctly across the wrap back to zero.
    let top = debra::epoch::Epoch::from_word(u64::MAX - 1);
    let mut g = Global::starting_at(top);
    g.init_config(Config::with_params(1, 0));
    let mut t = Local::new(&mut g);

    t.set_active(&mut g);
    t.retire_record(Retired::new(900));
    t.set_inactive(&mut g);

    let mut enters: usize = 0;
    while g.destroyed_len() < 1 && enters < 50 {
        t.set_active(&mut g);
        t.set_inactive(&mut g);
        enters += 1;
    }
    assert_eq!(g.destroyed_len(), 1, "after {enters} enters");
    assert_eq!(g.destroyed[0].address(), 900);
    // the epoch word has wrapped past zero by now
    assert!(g.epoch_word() < 10);
}

#[test]
fn retirement_blocked_by_active_peer() {
    // T1 retires a record and exits while T2 stays active at the same
    // epoch; the record must not be destroyed until T2 goes quiescent.
    let mut g = Global::new();
    g.init_config(Config::with_params(1, 0));
    let mut t1 = Local::new(&mut g);
    let mut t2 = Local::new(&mut g);
    let mut t3 = Local::new(&mut g);

    t2.set_active(&mut g);

    t1.set_active(&mut g);
    t1.retire_record(Retired::new(41));
    t1.set_inactive(&mut g);
    t1.unregister(&mut g);

    for _ in 0..200 {
        t3.set_active(&mut g);
        t3.set_inactive(&mut g);
    }
    // T2 is still active at its announced epoch: nothing may be destroyed
    assert_eq!(g.destroyed_len(), 0);

    t2.set_inactive(&mut g);
    for _ in 0..200 {
        t3.set_active(&mut g);
        t3.set_inactive(&mut g);
    }
    // with T2 quiescent the epoch advances and the record is reclaimed
    let addrs: Vec<usize> = (0..g.destroyed_len()).map(|i| g.destroyed[i].address()).collect();
    assert!(addrs.contains(&41), "record 41 was not reclaimed: {addrs:?}");
}
