use llama_monitor::binary::Binary64;
use llama_monitor::clock::Moment;
use llama_monitor::llama::metrics::PrometheusValues;
use llama_monitor::llama::throughput::{
    InferencePhase, LiveThroughputTracker, ThroughputSample, PHASE_HOLD_TTL,
};

fn start() -> Moment {
    Moment { nanos: 5_000_000_000 }
}

fn plus(at: Moment, millis: u64) -> Moment {
    Moment { nanos: at.nanos + millis * 1_000_000 }
}

fn num(x: Binary64) -> f64 {
    f64::from_bits(x.to_bits())
}

fn sample(prompt_total: u64, pred_total: u64, requests: u32, pg: f64, gg: f64) -> ThroughputSample {
    ThroughputSample {
        prompt_tokens_total: prompt_total,
        predicted_tokens_total: pred_total,
        requests_processing: requests,
        prompt_gauge: Binary64::from_bits(pg.to_bits()),
        predicted_gauge: Binary64::from_bits(gg.to_bits()),
    }
}

#[test]
fn prompt_delta_sets_prefill() {
    let t0 = start();
    let mut t = LiveThroughputTracker::default();
    t.observe(&sample(1000, 0, 1, 0.0, 0.0), t0);
    let view = t.observe(&sample(1500, 0, 1, 0.0, 0.0), plus(t0, 1000));
    assert_eq!(view.phase, InferencePhase::Prefill);
    assert!((num(view.prompt_tokens_per_sec) - 500.0).abs() < 1e-9);
    assert_eq!(num(view.generation_tokens_per_sec), 0.0);
}

#[test]
fn generation_delta_sets_generating() {
    let t0 = start();
    let mut t = LiveThroughputTracker::default();
    t.observe(&sample(1000, 200, 1, 0.0, 0.0), t0);
    let view = t.observe(&sample(1000, 250, 1, 0.0, 0.0), plus(t0, 1000));
    assert_eq!(view.phase, InferencePhase::Generating);
    assert_eq!(num(view.prompt_tokens_per_sec), 0.0);
    assert!((num(view.generation_tokens_per_sec) - 50.0).abs() < 1e-9);
}

#[test]
fn busy_without_delta_keeps_phase_within_ttl() {
    let t0 = start();
    let mut t = LiveThroughputTracker::default();
    t.observe(&sample(1000, 0, 1, 0.0, 0.0), t0);
    t.observe(&sample(1400, 0, 1, 0.0, 0.0), plus(t0, 1000));
    let view = t.observe(&sample(1400, 0, 1, 0.0, 0.0), plus(t0, 2500));
    assert_eq!(view.phase, InferencePhase::Prefill);
    assert!(num(view.prompt_tokens_per_sec) > 0.0);
    assert_eq!(num(view.generation_tokens_per_sec), 0.0);
}

#[test]
fn requests_zero_goes_idle_immediately() {
    let t0 = start();
    let mut t = LiveThroughputTracker::default();
    t.observe(&sample(1000, 10, 1, 0.0, 0.0), t0);
    t.observe(&sample(1000, 60, 1, 0.0, 40.0), plus(t0, 1000));
    let view = t.observe(&sample(1000, 60, 0, 40.0, 40.0), plus(t0, 1100));
    assert_eq!(view.phase, InferencePhase::Idle);
    assert_eq!(num(view.prompt_tokens_per_sec), 0.0);
    assert_eq!(num(view.generation_tokens_per_sec), 0.0);
}

#[test]
fn counter_reset_does_not_invent_speed() {
    let t0 = start();
    let mut t = LiveThroughputTracker::default();
    t.observe(&sample(9000, 4000, 1, 0.0, 0.0), t0);
    t.observe(&sample(9500, 4100, 1, 0.0, 0.0), plus(t0, 1000));
    let view = t.observe(&sample(10, 5, 1, 0.0, 0.0), plus(t0, 2000));
    assert_eq!(num(view.prompt_tokens_per_sec), 0.0);
    assert_eq!(num(view.generation_tokens_per_sec), 0.0);
    assert_ne!(view.phase, InferencePhase::Prefill);
}

#[test]
fn gauge_zero_with_counter_delta_uses_fallback() {
    let t0 = start();
    let mut t = LiveThroughputTracker::default();
    t.observe(&sample(100, 0, 1, 0.0, 0.0), t0);
    let view = t.observe(&sample(350, 0, 1, 0.0, 0.0), plus(t0, 500));
    assert_eq!(view.phase, InferencePhase::Prefill);
    assert!((num(view.prompt_tokens_per_sec) - 500.0).abs() < 1e-9);
}

#[test]
fn native_gauge_wins_when_positive() {
    let t0 = start();
    let mut t = LiveThroughputTracker::default();
    t.observe(&sample(100, 0, 1, 0.0, 0.0), t0);
    let view = t.observe(&sample(200, 0, 1, 77.5, 0.0), plus(t0, 1000));
    assert_eq!(view.phase, InferencePhase::Prefill);
    assert!((num(view.prompt_tokens_per_sec) - 77.5).abs() < 1e-9);
}

#[test]
fn generating_does_not_show_stale_prompt_speed() {
    let t0 = start();
    let mut t = LiveThroughputTracker::default();
    t.observe(&sample(100, 0, 1, 0.0, 0.0), t0);
    t.observe(&sample(600, 0, 1, 80.0, 0.0), plus(t0, 1000));
    let view = t.observe(&sample(600, 40, 1, 80.0, 35.0), plus(t0, 2000));
    assert_eq!(view.phase, InferencePhase::Generating);
    assert_eq!(num(view.prompt_tokens_per_sec), 0.0);
    assert!((num(view.generation_tokens_per_sec) - 35.0).abs() < 1e-9);
}

#[test]
fn prefill_does_not_show_stale_generation_speed() {
    let t0 = start();
    let mut t = LiveThroughputTracker::default();
    t.observe(&sample(100, 50, 1, 0.0, 0.0), t0);
    t.observe(&sample(100, 90, 1, 0.0, 40.0), plus(t0, 1000));
    let view = t.observe(&sample(400, 90, 1, 60.0, 40.0), plus(t0, 2000));
    assert_eq!(view.phase, InferencePhase::Prefill);
    assert!((num(view.prompt_tokens_per_sec) - 60.0).abs() < 1e-9);
    assert_eq!(num(view.generation_tokens_per_sec), 0.0);
}

#[test]
fn never_uses_lifetime_average() {
    let t0 = start();
    let mut t = LiveThroughputTracker::default();
    t.observe(&sample(10_000, 5_000, 0, 0.0, 0.0), t0);
    let view = t.observe(&sample(10_000, 5_000, 0, 0.0, 0.0), plus(t0, 1000));
    let lifetime_prompt = 10_000.0 / 8.1;
    let lifetime_gen = 5_000.0 / 88.2;
    assert_eq!(view.phase, InferencePhase::Idle);
    assert_eq!(num(view.prompt_tokens_per_sec), 0.0);
    assert_eq!(num(view.generation_tokens_per_sec), 0.0);
    assert!((num(view.prompt_tokens_per_sec) - lifetime_prompt).abs() > 1.0);
    assert!((num(view.generation_tokens_per_sec) - lifetime_gen).abs() > 1.0);
}

#[test]
fn both_deltas_prefer_generating() {
    let t0 = start();
    let mut t = LiveThroughputTracker::default();
    t.observe(&sample(100, 10, 1, 0.0, 0.0), t0);
    let view = t.observe(&sample(400, 40, 1, 0.0, 0.0), plus(t0, 1000));
    assert_eq!(view.phase, InferencePhase::Generating);
    assert_eq!(num(view.prompt_tokens_per_sec), 0.0);
    assert!(num(view.generation_tokens_per_sec) > 0.0);
}

#[test]
fn speed_hold_expires_after_ttl_while_busy() {
    let t0 = start();
    let mut t = LiveThroughputTracker::default();
    t.observe(&sample(100, 0, 1, 0.0, 0.0), t0);
    t.observe(&sample(200, 0, 1, 90.0, 0.0), plus(t0, 1000));
    let held = t.observe(&sample(200, 0, 1, 0.0, 0.0), plus(t0, 2000));
    assert_eq!(held.phase, InferencePhase::Prefill);
    assert!((num(held.prompt_tokens_per_sec) - 90.0).abs() < 1e-9);
    let expired = t.observe(&sample(200, 0, 1, 0.0, 0.0), plus(t0, 1_000 + 2500 + 1));
    assert_eq!(num(expired.prompt_tokens_per_sec), 0.0);
}

#[test]
fn held_speed_lasts_for_the_whole_window() {
    let t0 = start();
    let mut t = LiveThroughputTracker::default();
    t.observe(&sample(1, 1, 1, 0.0, 30.0), t0);
    let at_limit = Moment { nanos: t0.nanos + PHASE_HOLD_TTL };
    let view = t.observe(&sample(1, 1, 1, 0.0, 0.0), at_limit);
    assert_eq!(num(view.generation_tokens_per_sec), 30.0);
    assert_eq!(view.phase, InferencePhase::Generating);
}

#[test]
fn speed_is_tokens_over_seconds() {
    let t0 = start();
    let mut t = LiveThroughputTracker::default();
    t.observe(&sample(0, 0, 1, 0.0, 0.0), t0);
    let view = t.observe(&sample(0, 7, 1, f64::NAN, f64::INFINITY), plus(t0, 1750));
    assert_eq!(num(view.generation_tokens_per_sec), 7.0 / (1.0 + 0.75));
    let third = t.observe(&sample(0, 8, 1, 0.0, 0.0), plus(t0, 1750 + 300));
    assert_eq!(num(third.generation_tokens_per_sec), 1.0 / 0.3);
}

#[test]
fn readings_at_the_same_moment_give_no_speed() {
    let t0 = start();
    let mut t = LiveThroughputTracker::default();
    t.observe(&sample(0, 0, 1, 0.0, 0.0), t0);
    let view = t.observe(&sample(10, 0, 1, 0.0, 0.0), t0);
    assert_eq!(view.phase, InferencePhase::Prefill);
    assert_eq!(num(view.prompt_tokens_per_sec), 0.0);
}

#[test]
fn sample_takes_the_scraped_values() {
    let prom = PrometheusValues {
        prompt_tokens_total: 3,
        predicted_tokens_total: 4,
        requests_processing: 5,
        prompt_tokens_per_sec: Binary64::from_u64(6),
        predicted_tokens_per_sec: Binary64::from_u64(7),
        ..PrometheusValues::default()
    };
    assert_eq!(ThroughputSample::from(&prom), sample(3, 4, 5, 6.0, 7.0));
    assert_eq!(InferencePhase::default(), InferencePhase::Idle);
}

#[test]
fn shown_speeds_are_always_numbers() {
    let mut t = LiveThroughputTracker::default();
    let odd = [0.0, f64::NAN, f64::INFINITY, -3.0, f64::NEG_INFINITY, 1e300];
    let mut at = start();
    for (i, gauge) in odd.iter().chain(odd.iter().rev()).enumerate() {
        let total = if i % 5 == 4 { 0 } else { u64::MAX / 12 * (i as u64 + 1) };
        at = Moment { nanos: at.nanos + 1 };
        let view = t.observe(&sample(total, total / 2, (i % 4) as u32, *gauge, *gauge), at);
        let prompt = num(view.prompt_tokens_per_sec);
        let generation = num(view.generation_tokens_per_sec);
        assert!(prompt.is_finite() && prompt >= 0.0);
        assert!(generation.is_finite() && generation >= 0.0);
        assert!(prompt == 0.0 || view.phase == InferencePhase::Prefill);
        assert!(generation == 0.0 || view.phase == InferencePhase::Generating);
    }
    let mut fast = LiveThroughputTracker::default();
    fast.observe(&sample(0, 0, 1, 0.0, 0.0), start());
    let after = Moment { nanos: start().nanos + 1 };
    let view = fast.observe(&sample(u64::MAX, 0, 1, 0.0, 0.0), after);
    assert_eq!(num(view.prompt_tokens_per_sec), u64::MAX as f64 / 1e-9);
}
