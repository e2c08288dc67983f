use llama_monitor::binary::Binary64;
use llama_monitor::clock::Moment;
use llama_monitor::llama::live_slots::{
    parse_id_task, parse_leading_float, parse_leading_u64, parse_live_log_event, scan_key_u64,
    InferencePhase, LiveDashboardView, LiveLogEvent, LiveSlotTracker, SlotPhase, SpeedKind,
    LIVE_STALE,
};

fn t0() -> Moment {
    Moment { nanos: 1_000_000_000_000 }
}

fn later(at: Moment, millis: u64) -> Moment {
    Moment { nanos: at.nanos + millis * 1_000_000 }
}

fn num(x: Binary64) -> f64 {
    f64::from_bits(x.to_bits())
}

fn bin(x: f64) -> Binary64 {
    Binary64::from_bits(x.to_bits())
}

fn chars(s: &str) -> Vec<char> {
    s.chars().collect()
}

#[test]
fn parse_generation_tg_3s_preferred() {
    let event = parse_live_log_event(
        "slot print_timing: id 1 | task 916 | n_gen = 276, tg = 28.66 t/s, tg_3s = 30.85 t/s",
    )
    .unwrap();
    match event {
        LiveLogEvent::Generation { slot_id, task_id, tg, tg_3s } => {
            assert_eq!(slot_id, 1);
            assert_eq!(task_id, 916);
            assert_eq!(tg, Some(bin(28.66)));
            assert!((num(tg_3s) - 30.85).abs() < 1e-9);
        }
        other => panic!("unexpected {other:?}"),
    }
}

#[test]
fn generation_line_switches_prefill_to_generation() {
    let now = t0();
    let mut t = LiveSlotTracker::default();
    t.apply_line(
        "slot print_timing: id 1 | task 916 | prompt processing, n_tokens = 512, progress = 0.50, t = 0.85 s / 602.15 tokens per second",
        now,
    );
    assert_eq!(t.slot(1).unwrap().phase, SlotPhase::Prefill);
    t.apply_line(
        "slot print_timing: id 1 | task 916 | n_gen = 276, tg = 28.66 t/s, tg_3s = 30.85 t/s",
        later(now, 3000),
    );
    let slot = t.slot(1).unwrap();
    assert_eq!(slot.phase, SlotPhase::Generation);
    assert!((num(slot.generation_speed.unwrap()) - 30.85).abs() < 1e-9);
    assert!((num(slot.prompt_speed.unwrap()) - 602.15).abs() < 1e-9);
}

#[test]
fn later_tg_3s_updates_live_speed() {
    let now = t0();
    let mut t = LiveSlotTracker::default();
    t.apply_line(
        "slot print_timing: id 1 | task 916 | n_gen = 100, tg = 27.73 t/s, tg_3s = 28.01 t/s",
        now,
    );
    t.apply_line(
        "slot print_timing: id 1 | task 916 | n_gen = 276, tg = 28.66 t/s, tg_3s = 30.85 t/s",
        later(now, 3000),
    );
    let slot = t.slot(1).unwrap();
    assert!((num(slot.generation_speed.unwrap()) - 30.85).abs() < 1e-9);
    assert!((num(slot.generation_speed_avg.unwrap()) - 28.66).abs() < 1e-9);
    let view = t.dashboard(later(now, 3000));
    assert_eq!(view.phase, InferencePhase::Generation);
    assert_eq!(view.generation_speed_kind, Some(SpeedKind::Live));
    assert!((num(view.generation_tokens_per_sec.unwrap()) - 30.85).abs() < 1e-9);
}

#[test]
fn release_goes_idle_and_keeps_last_speed() {
    let now = t0();
    let mut t = LiveSlotTracker::default();
    t.apply_line(
        "slot print_timing: id 1 | task 916 | n_gen = 988, tg = 29.22 t/s, tg_3s = 31.01 t/s",
        now,
    );
    t.apply_line(
        "slot print_timing: id 1 | task 916 | stop processing: n_tokens = 2048, truncated = 0",
        later(now, 1000),
    );
    let slot = t.slot(1).unwrap();
    assert_eq!(slot.phase, SlotPhase::Idle);
    assert!((num(slot.generation_speed.unwrap()) - 31.01).abs() < 1e-9);
    let view = t.dashboard(later(now, 1000));
    assert_eq!(view.phase, InferencePhase::Idle);
    assert_eq!(view.generation_speed_kind, Some(SpeedKind::Last));
    assert!((num(view.generation_tokens_per_sec.unwrap()) - 31.01).abs() < 1e-9);
}

#[test]
fn new_task_does_not_treat_previous_speed_as_live() {
    let now = t0();
    let mut t = LiveSlotTracker::default();
    t.apply_line(
        "slot print_timing: id 1 | task 916 | n_gen = 276, tg = 28.66 t/s, tg_3s = 30.85 t/s",
        now,
    );
    t.apply_line(
        "slot launch_slot_: id 1 | task 1001 | processing task, is_child = 0",
        later(now, 1000),
    );
    let slot = t.slot(1).unwrap();
    assert_eq!(slot.task_id, Some(1001));
    assert_eq!(slot.phase, SlotPhase::Idle);
    assert!((num(slot.generation_speed.unwrap()) - 30.85).abs() < 1e-9);
    let view = t.dashboard(later(now, 1000));
    assert_eq!(view.phase, InferencePhase::Idle);
    assert_eq!(view.generation_speed_kind, Some(SpeedKind::Last));
    assert!((num(view.generation_tokens_per_sec.unwrap()) - 30.85).abs() < 1e-9);
}

#[test]
fn two_slots_are_independent() {
    let now = t0();
    let mut t = LiveSlotTracker::default();
    t.apply_line(
        "slot print_timing: id 0 | task 10 | prompt processing, n_tokens = 100, progress = 0.20, t = 0.20 s / 500.00 tokens per second",
        now,
    );
    t.apply_line(
        "slot print_timing: id 1 | task 11 | n_gen = 276, tg = 28.66 t/s, tg_3s = 30.85 t/s",
        now,
    );
    assert_eq!(t.slot(0).unwrap().phase, SlotPhase::Prefill);
    assert_eq!(t.slot(1).unwrap().phase, SlotPhase::Generation);
    let view = t.dashboard(now);
    assert_eq!(view.phase, InferencePhase::Generation);
    assert_eq!(view.prompt_speed_kind, Some(SpeedKind::Live));
    assert_eq!(view.generation_speed_kind, Some(SpeedKind::Live));
    assert!((num(view.prompt_tokens_per_sec.unwrap()) - 500.0).abs() < 1e-9);
    assert!((num(view.generation_tokens_per_sec.unwrap()) - 30.85).abs() < 1e-9);
}

#[test]
fn eval_time_sets_final_last_generation_speed() {
    let now = t0();
    let mut t = LiveSlotTracker::default();
    t.apply_line(
        "slot print_timing: id 1 | task 916 |          eval time =   3378.12 ms /   988 tokens (    3.42 ms per token,    29.24 tokens per second)",
        now,
    );
    let slot = t.slot(1).unwrap();
    assert!((num(slot.generation_speed.unwrap()) - 29.24).abs() < 1e-9);
    t.apply_line(
        "slot print_timing: id 1 | task 916 | stop processing: n_tokens = 2048, truncated = 0",
        later(now, 10),
    );
    let view = t.dashboard(later(now, 10));
    assert_eq!(view.generation_speed_kind, Some(SpeedKind::Last));
    assert!((num(view.generation_tokens_per_sec.unwrap()) - 29.24).abs() < 1e-9);
}

#[test]
fn eval_time_does_not_override_active_tg_3s() {
    let now = t0();
    let mut t = LiveSlotTracker::default();
    t.apply_line(
        "slot print_timing: id 1 | task 916 | n_gen = 988, tg = 29.22 t/s, tg_3s = 31.01 t/s",
        now,
    );
    t.apply_line(
        "slot print_timing: id 1 | task 916 |          eval time =   3378.12 ms /   988 tokens (    3.42 ms per token,    29.24 tokens per second)",
        later(now, 5),
    );
    let slot = t.slot(1).unwrap();
    assert_eq!(slot.phase, SlotPhase::Generation);
    assert!((num(slot.generation_speed.unwrap()) - 31.01).abs() < 1e-9);
}

#[test]
fn fixture_lines_parse() {
    let body = "\
slot launch_slot_: id  1 | task 916 | processing task, is_child = 0
slot print_timing: id 1 | task 916 | prompt processing, n_tokens = 512, progress = 0.50, t = 0.85 s / 602.15 tokens per second
slot print_timing: id 0 | task 0 | prompt processing, n_tokens = 64, progress = 1.00, t = 0.42 s / 151.71 tokens per second
slot print_timing: id 1 | task 916 | n_gen = 100, tg = 27.73 t/s, tg_3s = 28.01 t/s
slot print_timing: id 1 | task 916 | n_gen = 276, tg = 28.66 t/s, tg_3s = 30.85 t/s
3.11.14.454 I slot print_timing: id  0 | task 0 | n_decoded =    100, tg =  11.44 t/s, tg_3s =  11.44 t/s
slot print_timing: id 1 | task 916 | prompt eval time =     850.32 ms /   512 tokens (    1.66 ms per token,   602.13 tokens per second)
slot print_timing: id 1 | task 916 |          eval time =   3378.12 ms /   988 tokens (    3.42 ms per token,    29.24 tokens per second)
slot print_timing: id 1 | task 916 | stop processing: n_tokens = 2048, truncated = 0
slot launch_slot_: id 1 | task 1001 | processing task, is_child = 0
srv  log_server_r: request: POST /v1/chat/completions 127.0.0.1 200
";
    let events: Vec<LiveLogEvent> = body.lines().filter_map(parse_live_log_event).collect();
    assert!(events.len() >= 10);
    assert!(events.iter().any(|e| matches!(
        e,
        LiveLogEvent::Generation { tg_3s, .. } if (num(*tg_3s) - 30.85).abs() < 1e-9
    )));
    assert!(events.iter().any(|e| matches!(
        e,
        LiveLogEvent::Prefill { prompt_speed, .. } if (num(*prompt_speed) - 602.15).abs() < 1e-9
    )));
    assert!(events.iter().any(|e| matches!(
        e,
        LiveLogEvent::Prefill { prompt_speed, .. } if (num(*prompt_speed) - 151.71).abs() < 1e-9
    )));
    assert!(events.iter().any(|e| matches!(
        e,
        LiveLogEvent::Generation { tg_3s, .. } if (num(*tg_3s) - 11.44).abs() < 1e-9
    )));
    assert!(events
        .iter()
        .any(|e| matches!(e, LiveLogEvent::Release { task_id: 916, .. })));
    assert!(events
        .iter()
        .any(|e| matches!(e, LiveLogEvent::Launch { task_id: 1001, .. })));
    assert!(events.iter().any(|e| matches!(
        e,
        LiveLogEvent::EvalDone { tokens_per_sec, .. } if (num(*tokens_per_sec) - 29.24).abs() < 1e-9
    )));
    assert!(events.iter().any(|e| matches!(
        e,
        LiveLogEvent::PromptEvalDone { tokens_per_sec, .. } if (num(*tokens_per_sec) - 602.13).abs() < 1e-9
    )));
}

#[test]
fn stale_tg_3s_is_last_not_live() {
    let now = t0();
    let mut t = LiveSlotTracker::default();
    t.apply_line(
        "slot print_timing: id 1 | task 916 | n_gen = 276, tg = 28.66 t/s, tg_3s = 30.85 t/s",
        now,
    );
    let view = t.dashboard(Moment { nanos: now.nanos + LIVE_STALE + 1_000_000 });
    assert_eq!(view.phase, InferencePhase::Idle);
    assert_eq!(view.generation_speed_kind, Some(SpeedKind::Last));
    assert!((num(view.generation_tokens_per_sec.unwrap()) - 30.85).abs() < 1e-9);
}

#[test]
fn parse_n_decoded_tg_3s_with_padded_ids() {
    let event = parse_live_log_event(
        "3.11.14.454 I slot print_timing: id  0 | task 0 | n_decoded =    100, tg =  11.44 t/s, tg_3s =  11.44 t/s",
    )
    .unwrap();
    match event {
        LiveLogEvent::Generation { slot_id, task_id, tg, tg_3s } => {
            assert_eq!(slot_id, 0);
            assert_eq!(task_id, 0);
            assert_eq!(tg, Some(bin(11.44)));
            assert!((num(tg_3s) - 11.44).abs() < 1e-9);
        }
        other => panic!("unexpected {other:?}"),
    }
}

#[test]
fn two_generating_slots_sum_live_throughput() {
    let now = t0();
    let mut t = LiveSlotTracker::default();
    t.apply_line(
        "slot print_timing: id 0 | task 1 | n_gen = 100, tg = 20.00 t/s, tg_3s = 21.00 t/s",
        now,
    );
    t.apply_line(
        "slot print_timing: id 1 | task 2 | n_gen = 100, tg = 30.00 t/s, tg_3s = 31.00 t/s",
        now,
    );
    let view = t.dashboard(now);
    assert_eq!(view.generation_speed_kind, Some(SpeedKind::Live));
    assert!((num(view.generation_tokens_per_sec.unwrap()) - 52.0).abs() < 1e-9);
}

#[test]
fn exactly_stale_is_still_live() {
    let now = t0();
    let mut t = LiveSlotTracker::default();
    t.apply_line("slot: id 3 | task 4 | n_gen = 1, tg_3s = 5 t/s", now);
    let at_limit = t.dashboard(Moment { nanos: now.nanos + LIVE_STALE });
    assert_eq!(at_limit.generation_speed_kind, Some(SpeedKind::Live));
    let past_limit = t.dashboard(Moment { nanos: now.nanos + LIVE_STALE + 1 });
    assert_eq!(past_limit.generation_speed_kind, Some(SpeedKind::Last));
    assert_eq!(past_limit.generation_tokens_per_sec, Some(bin(5.0)));
}

#[test]
fn empty_tracker_shows_nothing() {
    let t = LiveSlotTracker::default();
    assert!(t.is_empty());
    assert!(t.slot(0).is_none());
    assert_eq!(t.dashboard(t0()), LiveDashboardView::default());
    assert_eq!(InferencePhase::default(), InferencePhase::Idle);
}

#[test]
fn unrelated_lines_change_nothing() {
    let mut t = LiveSlotTracker::default();
    assert!(!t.apply_line("main: server is listening", t0()));
    assert!(!t.apply_line("slot: id 1 | nothing else", t0()));
    assert!(!t.apply_line("slot: id 4294967296 | task 1 | stop processing", t0()));
    assert!(t.is_empty());
    assert!(t.apply_line("slot: id 4294967295 | task 1 | stop processing", t0()));
    assert_eq!(t.slot(4294967295).unwrap().phase, SlotPhase::Idle);
}

#[test]
fn an_event_leaves_other_slots_alone() {
    let mut t = LiveSlotTracker::default();
    t.apply_event(
        LiveLogEvent::Prefill { slot_id: 2, task_id: 7, prompt_speed: bin(10.0) },
        t0(),
    );
    let before = *t.slot(2).unwrap();
    t.apply_event(LiveLogEvent::Release { slot_id: 5, task_id: 8 }, later(t0(), 5));
    assert_eq!(*t.slot(2).unwrap(), before);
    assert_eq!(t.slot(5).unwrap().task_id, Some(8));
}

#[test]
fn last_speed_is_that_of_the_slot_heard_of_last() {
    let mut t = LiveSlotTracker::default();
    t.apply_event(
        LiveLogEvent::EvalDone { slot_id: 9, task_id: 1, tokens_per_sec: bin(90.0) },
        t0(),
    );
    t.apply_event(
        LiveLogEvent::EvalDone { slot_id: 1, task_id: 2, tokens_per_sec: bin(10.0) },
        later(t0(), 1),
    );
    assert_eq!(t.dashboard(later(t0(), 2)).generation_tokens_per_sec, Some(bin(10.0)));
    t.apply_event(
        LiveLogEvent::EvalDone { slot_id: 9, task_id: 3, tokens_per_sec: bin(91.0) },
        later(t0(), 1),
    );
    assert_eq!(t.dashboard(later(t0(), 2)).generation_tokens_per_sec, Some(bin(91.0)));
}

#[test]
fn keys_are_words_with_numbers() {
    assert_eq!(scan_key_u64(&chars("grid 5 id: 7"), "id"), Some(7));
    assert_eq!(scan_key_u64(&chars("id_task 5 id | 8"), "id"), Some(8));
    assert_eq!(scan_key_u64(&chars("id none id 9"), "id"), Some(9));
    assert_eq!(scan_key_u64(&chars("id"), "id"), None);
    assert_eq!(scan_key_u64(&chars("id 99999999999999999999"), "id"), None);
    assert_eq!(scan_key_u64(&chars("żid 5"), "id"), Some(5));
    assert_eq!(parse_id_task(&chars("task 3 id 2")), Some((2, 3)));
    assert_eq!(parse_id_task(&chars("task 3")), None);
}

#[test]
fn leading_numbers() {
    assert_eq!(parse_leading_u64(&chars("18446744073709551615x")), Some(u64::MAX));
    assert_eq!(parse_leading_u64(&chars("18446744073709551616")), None);
    assert_eq!(parse_leading_u64(&chars("x1")), None);
    assert_eq!(parse_leading_float(&chars("1.5e2 t/s")), Some(bin(150.0)));
    assert_eq!(parse_leading_float(&chars("-1.5")), None);
    assert_eq!(parse_leading_float(&chars("-0")), Some(bin(-0.0)));
    assert_eq!(parse_leading_float(&chars("1e999")), None);
    assert_eq!(parse_leading_float(&chars("e5")), None);
    assert_eq!(parse_leading_float(&chars("")), None);
}
