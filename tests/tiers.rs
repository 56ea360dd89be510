use sic_core::context::{ContextKind, PerspectiveKind};
use sic_core::events::{EventKind, EventQueue};
use sic_core::nested_learning::{
    AdaptationRule, EnvironmentalContext, PropagationRound, RangeShift, Tier,
    MAX_PROPAGATION_STEPS,
};

#[test]
fn tiers_resonate_with_their_kinds() {
    assert!(Tier::Reactive.activates(&EventKind::SensorChange));
    assert!(!Tier::Reactive.activates(&EventKind::Movement));
    assert!(Tier::Adaptive.activates(&EventKind::SensorChange));
    assert!(Tier::Adaptive.activates(&EventKind::Movement));
    assert!(!Tier::Adaptive.activates(&EventKind::ParameterAdjust));
    assert!(Tier::Environmental.activates(&EventKind::ParameterAdjust));
    assert!(!Tier::Environmental.activates(&EventKind::EnvironmentChange));
    assert!(!Tier::Environmental.activates(&EventKind::Custom("x".to_string())));
}

#[test]
fn later_rules_override_earlier_ones() {
    assert_eq!(AdaptationRule::select(false, false, false), None);
    assert_eq!(AdaptationRule::select(true, false, false), Some(AdaptationRule::DampNervous));
    assert_eq!(AdaptationRule::select(true, true, false), Some(AdaptationRule::BoostSluggish));
    assert_eq!(AdaptationRule::select(true, true, true), Some(AdaptationRule::TrimExcess));
    assert_eq!(AdaptationRule::select(false, true, false), Some(AdaptationRule::BoostSluggish));
}

#[test]
fn rule_gain_changes_and_signs() {
    assert_eq!(AdaptationRule::DampNervous.gain_change_hundredths(), -15);
    assert_eq!(AdaptationRule::BoostSluggish.gain_change_hundredths(), 15);
    assert_eq!(AdaptationRule::TrimExcess.gain_change_hundredths(), -10);
    assert_eq!(AdaptationRule::DampNervous.direction(), -1);
    assert_eq!(AdaptationRule::BoostSluggish.direction(), 1);
    assert_eq!(AdaptationRule::TrimExcess.direction(), -1);
}

#[test]
fn environmental_starts_clear() {
    let env = EnvironmentalContext::new();
    assert_eq!(env.samples, 0);
    assert_eq!(env.sample_threshold, 50);
    assert_eq!(env.adjustments, 0);
    assert_eq!(env.oscillations, 0);
    assert_eq!(env.last_direction, 0);
}

#[test]
fn environmental_counts_sign_flips() {
    let mut env = EnvironmentalContext::new();
    assert_eq!(env.process_adjustment(1), None);
    assert_eq!(env.process_adjustment(-1), None);
    assert_eq!(env.process_adjustment(-1), None);
    assert_eq!(env.process_adjustment(1), None);
    assert_eq!(env.adjustments, 4);
    assert_eq!(env.samples, 4);
    assert_eq!(env.oscillations, 2);
    assert_eq!(env.last_direction, 1);
}

#[test]
fn zero_direction_keeps_the_last_nonzero_sign() {
    let mut env = EnvironmentalContext::new();
    env.process_adjustment(1);
    env.process_adjustment(0);
    assert_eq!(env.last_direction, 1);
    env.process_adjustment(-1);
    assert_eq!(env.oscillations, 1);
    assert_eq!(env.last_direction, -1);
    assert_eq!(env.adjustments, 3);
}

#[test]
fn same_sign_of_another_size_is_no_oscillation() {
    let mut env = EnvironmentalContext::new();
    env.process_adjustment(1);
    env.process_adjustment(2);
    env.process_adjustment(-3);
    env.process_adjustment(-1);
    assert_eq!(env.oscillations, 1);
    assert_eq!(env.last_direction, -1);
}

#[test]
fn dispatch_order_is_reactive_adaptive_environmental() {
    assert_eq!(Tier::dispatch_order(&EventKind::SensorChange), vec![Tier::Reactive, Tier::Adaptive]);
    assert_eq!(Tier::dispatch_order(&EventKind::Movement), vec![Tier::Adaptive]);
    assert_eq!(Tier::dispatch_order(&EventKind::ParameterAdjust), vec![Tier::Environmental]);
    assert_eq!(Tier::dispatch_order(&EventKind::EnvironmentChange), Vec::<Tier>::new());
    assert_eq!(Tier::dispatch_order(&EventKind::Custom("c".to_string())), Vec::<Tier>::new());
}

#[test]
fn alternating_adjustments_widen() {
    let mut env = EnvironmentalContext::new();
    for k in 0..49 {
        let dir = if k % 2 == 0 { 1 } else { -1 };
        assert_eq!(env.process_adjustment(dir), None);
    }
    let signal = env.process_adjustment(-1).expect("assessment");
    assert_eq!(signal.shift, RangeShift::Widen);
    assert_eq!(signal.oscillations, 49);
    assert_eq!(signal.adjustments, 50);
    assert_eq!(signal.direction(), 1);
    assert_eq!(env.samples, 0);
    assert_eq!(env.adjustments, 0);
    assert_eq!(env.oscillations, 0);
}

#[test]
fn steady_adjustments_narrow() {
    let mut env = EnvironmentalContext::new();
    let mut last = None;
    for _ in 0..50 {
        last = env.process_adjustment(1);
    }
    let signal = last.expect("assessment");
    assert_eq!(signal.shift, RangeShift::Narrow);
    assert_eq!(signal.oscillations, 0);
    assert_eq!(signal.adjustments, 50);
    assert_eq!(signal.direction(), -1);
}

#[test]
fn middling_oscillation_gives_nothing_and_resets() {
    let mut env = EnvironmentalContext::new();
    let mut last = None;
    for k in 0..50 {
        let dir = if k < 16 && k % 2 == 0 { 1 } else { -1 };
        last = env.process_adjustment(dir);
    }
    assert_eq!(last, None);
    assert_eq!(env.samples, 0);
    assert_eq!(env.adjustments, 0);
    assert_eq!(env.oscillations, 0);
}

#[test]
fn round_stops_at_the_step_cap() {
    let mut q: EventQueue<usize> = EventQueue::new(150);
    for i in 0..150 {
        assert!(q.enqueue(i));
    }
    let mut round = PropagationRound::new();
    let mut seen = Vec::new();
    while let Some(e) = round.next_event(&mut q) {
        seen.push(e);
    }
    assert_eq!(seen, (0..MAX_PROPAGATION_STEPS).collect::<Vec<usize>>());
    assert_eq!(round.steps(), 100);
    assert_eq!(q.len(), 50);
}

#[test]
fn round_stops_when_the_queue_drains() {
    let mut q: EventQueue<u8> = EventQueue::new(4);
    q.enqueue(5);
    q.enqueue(6);
    let mut round = PropagationRound::new();
    assert_eq!(round.next_event(&mut q), Some(5));
    assert!(q.enqueue(7));
    assert_eq!(round.next_event(&mut q), Some(6));
    assert_eq!(round.next_event(&mut q), Some(7));
    assert_eq!(round.next_event(&mut q), None);
    assert_eq!(round.steps(), 3);
}

#[test]
fn kinds_compare_by_value() {
    assert_eq!(ContextKind::Custom("a".to_string()), ContextKind::Custom("a".to_string()));
    assert_ne!(ContextKind::Thermal, ContextKind::Quantum);
    assert_ne!(PerspectiveKind::Objective, PerspectiveKind::Subjective);
}
