use debra::config::Config;
use debra::process::Process;

#[test]
fn process_lifecycle() {
    let mut p = Process::new();
    p.init_config(Config::with_params(1, 0));
    let t1 = p.register();
    let t2 = p.register();
    assert!(!p.is_active(t1));

    p.enter(t1);
    assert!(p.is_active(t1));
    p.retire(t1, 7001);
    p.retire(t1, 7002);
    p.exit(t1);
    assert!(!p.is_active(t1));

    p.unregister(t1);
    assert_eq!(p.destroyed_len(), 0);

    // t2 alone advances the epoch and drains the abandoned quarantine
    let mut enters: usize = 0;
    while p.destroyed_len() < 3 && enters < 100 {
        p.enter(t2);
        p.exit(t2);
        enters += 1;
    }
    // two retired records plus t1's retired registry entry
    assert_eq!(p.destroyed_len(), 3, "after {enters} enters");
    let addrs: Vec<usize> = (0..3).map(|i| p.destroyed_addr(i)).collect();
    assert!(addrs.contains(&7001));
    assert!(addrs.contains(&7002));
}

#[test]
fn process_epoch_advances_while_all_quiescent() {
    let mut p = Process::new();
    p.init_config(Config::with_params(1, 0));
    let t = p.register();
    assert_eq!(p.epoch_word(), 0);
    p.enter(t);
    p.exit(t);
    p.enter(t);
    p.exit(t);
    assert_eq!(p.epoch_word(), 2);
}

#[test]
fn process_flush_is_noop_without_epoch_change() {
    let mut p = Process::new();
    let t = p.register();
    p.try_flush(t);
    p.try_flush(t);
    assert_eq!(p.epoch_word(), 0);
    assert_eq!(p.destroyed_len(), 0);
}

#[test]
fn process_active_peer_blocks_reclamation() {
    let mut p = Process::new();
    p.init_config(Config::with_params(1, 0));
    let t1 = p.register();
    let t2 = p.register();
    let t3 = p.register();

    p.enter(t2);

    p.enter(t1);
    p.retire(t1, 555);
    p.exit(t1);
    p.unregister(t1);

    for _ in 0..100 {
        p.enter(t3);
        p.exit(t3);
    }
    // t2 has been active throughout: its quarantine window is protected
    assert_eq!(p.destroyed_len(), 0);

    p.exit(t2);
    for _ in 0..100 {
        p.enter(t3);
        p.exit(t3);
    }
    let addrs: Vec<usize> = (0..p.destroyed_len()).map(|i| p.destroyed_addr(i)).collect();
    assert!(addrs.contains(&555));
}
