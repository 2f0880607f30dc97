use nvidia_wormhole::config::Config;
use nvidia_wormhole::control::{DaemonState, SharedStatus};

#[test]
fn default_config_matches_the_stock_curve() {
    let c = Config::default();
    assert_eq!(c.curve, vec![(30, 0), (50, 30), (70, 60), (85, 100)]);
    assert_eq!(c.interval_ms, 2000);
}

#[test]
fn new_state_is_stopped_and_blank() {
    let s = DaemonState::new(vec![(30, 0), (85, 100)]);
    assert!(!s.running);
    assert_eq!(s.curve, vec![(30, 0), (85, 100)]);
    assert_eq!(
        s.snapshot(),
        SharedStatus { current_temp: 0, current_speed: 0, gpu_usage: 0 }
    );
    assert_eq!(s.last_speed, None);
    assert_eq!(s.fan_count, 1);
}

#[test]
fn start_twice_spawns_only_one_cycle() {
    let mut s = DaemonState::new(vec![]);
    assert!(s.start());
    assert!(!s.start());
    assert!(s.running);
    s.stop();
    assert!(!s.running);
    assert!(s.start());
}

#[test]
fn resolve_fan_count_defaults_to_one_on_failure() {
    let mut s = DaemonState::new(vec![]);
    s.resolve_fan_count(Some(4));
    assert_eq!(s.fan_count, 4);
    s.resolve_fan_count(None);
    assert_eq!(s.fan_count, 1);
}

#[test]
fn tick_publishes_the_full_triple() {
    let mut s = DaemonState::new(vec![(30, 0), (50, 40), (80, 100)]);
    s.resolve_fan_count(Some(2));
    let plan = s.tick_sense(Some(65), Some(37)).expect("tick must plan");
    assert_eq!(plan.target, 70);
    assert!(plan.should_apply);
    assert_eq!(plan.fan_count, 2);
    assert_eq!(
        s.snapshot(),
        SharedStatus { current_temp: 65, current_speed: 70, gpu_usage: 37 }
    );
}

#[test]
fn failed_temperature_read_retains_the_snapshot() {
    let mut s = DaemonState::new(vec![(30, 0), (80, 100)]);
    let plan = s.tick_sense(Some(55), Some(12)).expect("tick must plan");
    s.tick_actuate(plan.target, true);
    let before = s.snapshot();

    assert!(s.tick_sense(None, Some(99)).is_none());
    assert_eq!(s.snapshot(), before);
    assert_eq!(s.last_speed, Some(plan.target));
}

#[test]
fn failed_usage_read_substitutes_zero() {
    let mut s = DaemonState::new(vec![(30, 0), (80, 100)]);
    let plan = s.tick_sense(Some(55), None).expect("tick must plan");
    assert_eq!(s.snapshot().gpu_usage, 0);
    assert_eq!(s.snapshot().current_speed, plan.target);
}

#[test]
fn steady_target_is_debounced() {
    let mut s = DaemonState::new(vec![(30, 0), (80, 100)]);
    let plan = s.tick_sense(Some(55), Some(0)).expect("tick must plan");
    assert!(plan.should_apply);
    s.tick_actuate(plan.target, true);

    let plan2 = s.tick_sense(Some(55), Some(0)).expect("tick must plan");
    assert_eq!(plan2.target, plan.target);
    assert!(!plan2.should_apply);
}

#[test]
fn failed_write_forces_reissue_of_unchanged_target() {
    let mut s = DaemonState::new(vec![(30, 0), (80, 100)]);
    let plan = s.tick_sense(Some(55), Some(0)).expect("tick must plan");
    assert!(plan.should_apply);
    // one of the fans failed; the others succeeded
    s.tick_actuate(plan.target, false);
    assert_eq!(s.last_speed, None);

    // same temperature, same target: every fan must still be driven again
    let plan2 = s.tick_sense(Some(55), Some(0)).expect("tick must plan");
    assert_eq!(plan2.target, plan.target);
    assert!(plan2.should_apply);
}

#[test]
fn curve_edits_take_effect_next_tick() {
    let mut s = DaemonState::new(vec![(30, 0), (80, 100)]);
    let plan = s.tick_sense(Some(80), Some(0)).expect("tick must plan");
    assert_eq!(plan.target, 100);
    s.set_curve(vec![(30, 0), (80, 50)]);
    let plan2 = s.tick_sense(Some(80), Some(0)).expect("tick must plan");
    assert_eq!(plan2.target, 50);
}
