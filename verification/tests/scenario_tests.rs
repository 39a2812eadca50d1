use debra::config::ConfigBuilder;
use debra::global::Global;
use debra::local::Local;
use debra::retired::Retired;
use std::collections::HashSet;

#[test]
fn abandoned_bags_are_adopted_and_reclaimed() {
    // A thread exits with a non-empty ring; its sealed bags appear on the
    // abandoned stack, the next thread to observe an epoch advance adopts
    // them, and within a few advances every record is destroyed.
    let mut g = Global::new();
    g.init_config(debra::config::Config::with_params(1, 0));
    let mut t1 = Local::new(&mut g);
    let mut t2 = Local::new(&mut g);

    t1.set_active(&mut g);
    for i in 100..105usize {
        t1.retire_record(Retired::new(i));
    }
    t1.set_inactive(&mut g);
    t1.unregister(&mut g);
    assert!(g.abandoned.len() >= 1, "sealed bags must reach the abandoned stack");
    assert_eq!(g.destroyed_len(), 0);

    let mut enters: usize = 0;
    while g.destroyed_len() < 6 && enters < 100 {
        t2.set_active(&mut g);
        t2.set_inactive(&mut g);
        enters += 1;
    }
    // five retired records plus the retired registry node of t1
    assert_eq!(g.destroyed_len(), 6, "after {enters} enters");
    assert_eq!(g.abandoned.len(), 0);
    let addrs: Vec<usize> = (0..6).map(|i| g.destroyed[i].address()).collect();
    for i in 100..105usize {
        assert!(addrs.contains(&i));
    }
}

#[test]
fn guard_storm_drains_to_zero() {
    // Sixteen threads enter and leave guards many times; after all of them
    // exit, a later thread's enters drain every retirement (here: the
    // sixteen retired registry nodes) within bounded further work.
    let mut g = Global::new();
    g.init_config(ConfigBuilder::new().advance_threshold(0).build());
    let mut threads: Vec<Local> = (0..16).map(|_| Local::new(&mut g)).collect();

    for _ in 0..100_000 {
        for t in threads.iter_mut() {
            t.set_active(&mut g);
            t.set_inactive(&mut g);
        }
    }
    for t in threads.iter_mut() {
        assert!(!t.is_active());
    }
    for t in threads.drain(..) {
        t.unregister(&mut g);
    }

    let mut survivor = Local::new(&mut g);
    let mut enters: usize = 0;
    while g.destroyed_len() < 16 && enters < 2_000 {
        survivor.set_active(&mut g);
        survivor.set_inactive(&mut g);
        enters += 1;
    }
    assert_eq!(g.destroyed_len(), 16, "after {enters} enters");
    assert_eq!(g.abandoned.len(), 0);
}

#[test]
fn producers_and_consumers_leak_nothing() {
    // Eight threads retire distinct records while entering and leaving
    // guards; after they exit, a survivor drains the rest. Every record is
    // destroyed exactly once: none is lost, none is freed twice.
    let threads: usize = 8;
    let initial: usize = 100;
    let operations: usize = 10_000;
    let mut g = Global::new();
    g.init_config(debra::config::Config::with_params(8, 0));
    let mut locals: Vec<Local> = (0..threads).map(|_| Local::new(&mut g)).collect();
    let node_ids: Vec<usize> = locals.iter().map(|t| t.thread_id()).collect();

    for (tid, t) in locals.iter_mut().enumerate() {
        t.set_active(&mut g);
        for k in 0..initial {
            t.retire_record(Retired::new(1_000_000 * (tid + 1) + k));
        }
        t.set_inactive(&mut g);
    }
    for round in 0..operations {
        for (tid, t) in locals.iter_mut().enumerate() {
            t.set_active(&mut g);
            t.retire_record(Retired::new(1_000_000 * (tid + 1) + initial + round));
            t.set_inactive(&mut g);
        }
    }
    for t in locals.drain(..) {
        t.unregister(&mut g);
    }

    let mut survivor = Local::new(&mut g);
    let expected = threads * (initial + operations) + threads; // records + registry nodes
    let mut enters: usize = 0;
    while g.destroyed_len() < expected && enters < 10_000 {
        survivor.set_active(&mut g);
        survivor.set_inactive(&mut g);
        enters += 1;
    }
    assert_eq!(g.destroyed_len(), expected, "after {enters} extra enters");

    let mut seen: HashSet<usize> = HashSet::new();
    for i in 0..expected {
        let addr = g.destroyed[i].address();
        assert!(seen.insert(addr), "record {addr} destroyed twice");
    }
    for id in node_ids {
        assert!(seen.contains(&id), "registry node {id} leaked");
    }
}

#[test]
fn abandoned_stack_returns_newest_push_first() {
    // The abandoned stack is a LIFO: a take-all hands back the most
    // recently pushed sealed queues first.
    let mut g = Global::new();
    let mut t1 = Local::new(&mut g);
    let mut t2 = Local::new(&mut g);

    t1.retire_record(Retired::new(11));
    t1.unregister(&mut g);
    t2.retire_record(Retired::new(22));
    t2.unregister(&mut g);

    let taken = g.abandoned.take_all();
    assert_eq!(taken.len(), 2);
    let mut iter = taken.into_iter();
    let newest = iter.next().unwrap();
    let oldest = iter.next().unwrap();
    let newest_addrs: Vec<usize> =
        newest.into_records().into_iter().map(|r| r.address()).collect();
    let oldest_addrs: Vec<usize> =
        oldest.into_records().into_iter().map(|r| r.address()).collect();
    assert!(newest_addrs.contains(&22), "newest push must come first: {newest_addrs:?}");
    assert!(oldest_addrs.contains(&11));
}

#[test]
fn records_destroyed_in_reverse_retirement_order() {
    // Draining a queue destroys its records last-retired-first.
    let mut g = Global::new();
    g.init_config(debra::config::Config::with_params(1, 0));
    let mut t = Local::new(&mut g);
    t.set_active(&mut g);
    t.retire_record(Retired::new(501));
    t.retire_record(Retired::new(502));
    t.retire_record(Retired::new(503));
    t.set_inactive(&mut g);
    let mut enters: usize = 0;
    while g.destroyed_len() < 3 && enters < 50 {
        t.set_active(&mut g);
        t.set_inactive(&mut g);
        enters += 1;
    }
    let addrs: Vec<usize> = (0..3).map(|i| g.destroyed[i].address()).collect();
    assert_eq!(addrs, vec![503, 502, 501]);
}
