use debra::epoch::{Epoch, PossibleAge, State, ThreadState, Undetermined};

#[test]
fn epoch_starts_at_zero_and_steps_by_two() {
    let e = Epoch::zero();
    assert_eq!(e.into_inner(), 0);
    let e1 = e.increment();
    assert_eq!(e1.into_inner(), 2);
    let e2 = e1.increment();
    assert_eq!(e2.into_inner(), 4);
}

#[test]
fn epoch_decrement_steps_back() {
    let e = Epoch::from_word(6);
    assert_eq!(e.decrement().into_inner(), 4);
    assert_eq!(Epoch::zero().decrement().into_inner(), u64::MAX - 1);
}

#[test]
fn epoch_wraps_to_zero() {
    let top = Epoch::from_word(u64::MAX - 1);
    assert_eq!(top.increment().into_inner(), 0);
    assert_eq!(top.increment().increment().into_inner(), 2);
}

#[test]
fn relative_age_within_window() {
    let e = Epoch::from_word(10);
    let g0 = Epoch::from_word(10);
    let g1 = Epoch::from_word(12);
    let g2 = Epoch::from_word(14);
    let g3 = Epoch::from_word(16);
    assert_eq!(e.relative_age(g0), Ok(PossibleAge::SameEpoch));
    assert_eq!(e.relative_age(g1), Ok(PossibleAge::OneEpoch));
    assert_eq!(e.relative_age(g2), Ok(PossibleAge::TwoEpochs));
    assert_eq!(e.relative_age(g3), Err(Undetermined));
}

#[test]
fn relative_age_across_wrap() {
    let e = Epoch::from_word(u64::MAX - 1);
    let g1 = e.increment();
    let g2 = g1.increment();
    let g3 = g2.increment();
    assert_eq!(e.relative_age(g1), Ok(PossibleAge::OneEpoch));
    assert_eq!(e.relative_age(g2), Ok(PossibleAge::TwoEpochs));
    assert_eq!(e.relative_age(g3), Err(Undetermined));
}

#[test]
fn announcement_roundtrip() {
    let e = Epoch::from_word(8);
    let ts = ThreadState::new(e);
    let (e0, s0) = ts.load_decompose();
    assert_eq!(e0.into_inner(), 8);
    assert_eq!(s0, State::Quiescent);

    let mut ts = ts;
    let e2 = Epoch::from_word(12);
    ts.store(e2, State::Active);
    let (e1, s1) = ts.load_decompose();
    assert_eq!(e1.into_inner(), 12);
    assert_eq!(s1, State::Active);
}
