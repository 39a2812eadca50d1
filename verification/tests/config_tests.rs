use debra::config::{Config, ConfigBuilder};
use debra::global::Global;

#[test]
fn config_defaults() {
    let c = Config::new();
    assert_eq!(c.check_threshold(), 100);
    assert_eq!(c.advance_threshold(), 100);
    let d = Config::default();
    assert_eq!(d.check_threshold(), 100);
    assert_eq!(d.advance_threshold(), 100);
}

#[test]
fn config_with_params() {
    let c = Config::with_params(128, 0);
    assert_eq!(c.check_threshold(), 128);
    assert_eq!(c.advance_threshold(), 0);
}

#[test]
fn config_builder_defaults() {
    let c = ConfigBuilder::new().build();
    assert_eq!(c.check_threshold(), 100);
    assert_eq!(c.advance_threshold(), 100);
}

#[test]
fn config_builder_sets_both() {
    let c = ConfigBuilder::new().check_threshold(5).advance_threshold(7).build();
    assert_eq!(c.check_threshold(), 5);
    assert_eq!(c.advance_threshold(), 7);
}

#[test]
fn config_builder_partial() {
    let c = ConfigBuilder::new().advance_threshold(0).build();
    assert_eq!(c.check_threshold(), 100);
    assert_eq!(c.advance_threshold(), 0);
}

#[test]
fn config_is_write_once() {
    let mut g = Global::new();
    g.init_config(Config::with_params(3, 4));
    g.init_config(Config::with_params(9, 9));
    let snap = g.config_snapshot();
    assert_eq!(snap.check_threshold(), 3);
    assert_eq!(snap.advance_threshold(), 4);
}

#[test]
fn config_snapshot_defaults_until_initialized() {
    let g = Global::new();
    let snap = g.config_snapshot();
    assert_eq!(snap.check_threshold(), 100);
    assert_eq!(snap.advance_threshold(), 100);
}
