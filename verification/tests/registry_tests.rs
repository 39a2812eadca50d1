use debra::list::{Iter, IterError, List};

#[test]
fn registry_insert_and_remove() {
    let mut l: List<u64> = List::new();
    let a = l.insert(10);
    let b = l.insert(20);
    let c = l.insert(30);
    assert_eq!(l.len(), 3);
    l.remove(b);
    assert_eq!(l.len(), 2);
    l.remove(a);
    l.remove(c);
    assert_eq!(l.len(), 0);
}

#[test]
fn registry_iteration_visits_all_newest_first() {
    let mut l: List<u64> = List::new();
    let warmup = l.insert(0);
    l.remove(warmup);
    let _a = l.insert(10);
    let _b = l.insert(20);
    let _c = l.insert(30);
    let mut seen: Vec<u64> = Vec::new();
    let mut it = Iter::new();
    loop {
        match it.load_current(&l) {
            Ok(Some((_, elem))) => {
                seen.push(elem);
                it.advance(&l);
            }
            Ok(None) => break,
            Err(IterError::Retry) => {
                it.restart();
            }
        }
    }
    assert_eq!(seen, vec![30, 20, 10]);
}

#[test]
fn registry_cursor_retries_after_removal() {
    let mut l: List<u64> = List::new();
    let _a = l.insert(1);
    let b = l.insert(2);
    let mut it = Iter::new();
    it.advance(&l); // now just past the head, which owns token `b`
    l.remove(b);
    assert!(matches!(it.load_current(&l), Err(IterError::Retry)));
    // after a restart the traversal proceeds from the current head
    it.restart();
    assert!(matches!(it.load_current(&l), Ok(Some((_, 1)))));
}

#[test]
fn registry_cursor_reports_end() {
    let mut l: List<u64> = List::new();
    let _a = l.insert(1);
    let mut it = Iter::new();
    it.advance(&l);
    assert!(matches!(it.load_current(&l), Ok(None)));
    // advancing at the end stays at the end
    it.advance(&l);
    assert!(matches!(it.load_current(&l), Ok(None)));
}

#[test]
fn registry_insert_remove_stress() {
    // Interleaved joins and leaves of eight slots; the registry must come
    // back empty every round and never lose a slot.
    let mut l: List<u64> = List::new();
    for _round in 0..10_000 {
        let mut tokens = Vec::new();
        for id in 0..8u64 {
            tokens.push(l.insert(id));
        }
        assert_eq!(l.len(), 8);
        for t in tokens {
            l.remove(t);
        }
        assert_eq!(l.len(), 0);
    }
}
