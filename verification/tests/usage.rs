use llama_monitor::binary::Binary64;
use llama_monitor::clock::Moment;
use llama_monitor::logs::{LogBuffer, LogSourceInfo, LogSourceKind, LogSourceStatus, MAX_LOG_LINES};
use llama_monitor::state::{count_cache_report, push_log};
use llama_monitor::usage::{
    estimated_api_cost, luna_rates, parse_cache_n, qwen_rates, PrometheusUsageSample,
    ProviderRates, UsageStats, CACHE_DEDUP_WINDOW, SAVE_DEBOUNCE,
};

fn now() -> Moment {
    Moment { nanos: 77_000_000_000 }
}

fn after(nanos: u64) -> Moment {
    Moment { nanos: now().nanos + nanos }
}

fn num(x: Binary64) -> f64 {
    f64::from_bits(x.to_bits())
}

fn bin(x: f64) -> Binary64 {
    Binary64::from_bits(x.to_bits())
}

#[test]
fn apply_prometheus_delta() {
    let mut s = UsageStats::default();
    s.apply_prometheus(100, 50, None);
    assert_eq!(s.prompt_tokens, 100);
    assert_eq!(s.predicted_tokens, 50);
    assert_eq!(s.last_prompt, 100);
    assert_eq!(s.last_predicted, 50);

    s.apply_prometheus(150, 80, None);
    assert_eq!(s.prompt_tokens, 150);
    assert_eq!(s.predicted_tokens, 80);
}

#[test]
fn skipped_prometheus_sample_does_not_reset_lifetime() {
    let mut s = UsageStats::default();
    s.apply_prometheus(1000, 400, None);
    assert_eq!(s.prompt_tokens, 1000);
    assert_eq!(s.predicted_tokens, 400);
    assert_eq!(s.last_prompt, 1000);
    s.apply_prometheus(1100, 450, None);
    assert_eq!(s.prompt_tokens, 1100);
    assert_eq!(s.predicted_tokens, 450);
}

#[test]
fn apply_prometheus_server_restart() {
    let mut s = UsageStats::default();
    s.apply_prometheus(1000, 500, None);
    s.apply_prometheus(10, 5, None);
    assert_eq!(s.prompt_tokens, 1010);
    assert_eq!(s.predicted_tokens, 505);
    assert_eq!(s.last_prompt, 10);
    assert_eq!(s.last_predicted, 5);
}

#[test]
fn apply_prometheus_no_double_after_load() {
    let mut s = UsageStats {
        prompt_tokens: 5000,
        predicted_tokens: 2000,
        last_prompt: 1000,
        last_predicted: 400,
        ..Default::default()
    };
    s.apply_prometheus(1000, 400, None);
    assert_eq!(s.prompt_tokens, 5000);
    assert_eq!(s.predicted_tokens, 2000);
    s.apply_prometheus(1100, 450, None);
    assert_eq!(s.prompt_tokens, 5100);
    assert_eq!(s.predicted_tokens, 2050);
}

#[test]
fn reset_keeps_baseline() {
    let mut s = UsageStats::default();
    s.apply_prometheus(100, 50, None);
    s.add_cached(20, now());
    s.reset();
    assert_eq!(s.prompt_tokens, 0);
    assert_eq!(s.predicted_tokens, 0);
    assert_eq!(s.cached_tokens, 0);
    assert_eq!(s.last_prompt, 100);
    assert_eq!(s.last_predicted, 50);
    s.apply_prometheus(100, 50, None);
    assert_eq!(s.prompt_tokens, 0);
}

#[test]
fn compute_saved_one_million_each() {
    let luna = num(estimated_api_cost(1_000_000, 0, 1_000_000, &luna_rates()));
    let qwen = num(estimated_api_cost(1_000_000, 0, 1_000_000, &qwen_rates()));
    assert!((luna - 1.40).abs() < 1e-9);
    assert!((qwen - 3.50).abs() < 1e-9);
}

#[test]
fn snapshot_includes_cache_in_savings() {
    let s = UsageStats {
        prompt_tokens: 500_000,
        cached_tokens: 500_000,
        predicted_tokens: 0,
        ..Default::default()
    };
    let snap = s.snapshot();
    assert!((num(snap.saved_luna_usd) - 0.11).abs() < 1e-9);
    assert!((num(snap.cache_hit_ratio) - 0.5).abs() < 1e-9);
    assert!((num(snap.cache_reuse_ratio) - 0.5).abs() < 1e-9);
    assert_eq!(snap.total_prompt_tokens, 1_000_000);
}

#[test]
fn cache_dedup_within_window() {
    let mut s = UsageStats::default();
    assert!(s.add_cached(42, now()));
    assert!(!s.add_cached(42, now()));
    assert_eq!(s.cached_tokens, 42);
    assert!(s.add_cached(43, now()));
    assert_eq!(s.cached_tokens, 85);
}

#[test]
fn parse_cache_n_from_json_line() {
    let line = r#"slot update_slots: id  0 | task 1 | prompt processing progress, n_past = 128, n_tokens = 32, progress = 0.25, cache_n = ignored"#;
    let json = r#"{"timings":{"prompt_n":100,"cache_n":256,"predicted_n":50}}"#;
    assert_eq!(parse_cache_n(json), Some(256));
    assert_eq!(parse_cache_n(line), None);
}

#[test]
fn test_parse_cache_n_from_sse() {
    let body = "data: {\"choices\":[]}\n\ndata: {\"timings\":{\"cache_n\":128,\"prompt_n\":20}}\n\ndata: [DONE]\n";
    let mut last = None;
    for line in body.lines() {
        let data = line.strip_prefix("data:").unwrap_or(line).trim();
        if data.is_empty() || data == "[DONE]" {
            continue;
        }
        if let Some(n) = parse_cache_n(data) {
            last = Some(n);
        }
    }
    assert_eq!(last, Some(128));
}

#[test]
fn live_server_totals_and_cache_reuse_ratio() {
    let mut s = UsageStats::default();
    s.apply_prometheus(251_342, 71_788, Some(4_657_250));
    assert_eq!(s.prompt_tokens, 251_342);
    assert_eq!(s.cached_tokens, 4_657_250);
    assert_eq!(s.predicted_tokens, 71_788);
    let snap = s.snapshot();
    assert_eq!(snap.total_prompt_tokens, 4_908_592);
    assert!((num(snap.cache_reuse_ratio) - 4_657_250.0 / 4_908_592.0).abs() < 1e-12);
    assert!((num(snap.cache_reuse_ratio) - 0.9488).abs() < 0.0001);
    assert!((num(snap.cache_hit_ratio) - num(snap.cache_reuse_ratio)).abs() < 1e-12);
}

#[test]
fn native_cached_counter_delta() {
    let mut s = UsageStats::default();
    s.apply_prometheus(100, 10, Some(1_000));
    assert_eq!(s.cached_tokens, 1_000);
    s.apply_prometheus(120, 20, Some(1_250));
    assert_eq!(s.cached_tokens, 1_250);
    assert_eq!(s.last_cached, 1_250);
    assert!(s.native_cached_counter);
}

#[test]
fn native_cached_counter_server_restart_no_underflow() {
    let mut s = UsageStats::default();
    s.apply_prometheus(1_000, 500, Some(4_000));
    s.apply_prometheus(10, 5, Some(80));
    assert_eq!(s.prompt_tokens, 1_010);
    assert_eq!(s.predicted_tokens, 505);
    assert_eq!(s.cached_tokens, 4_080);
    assert_eq!(s.last_cached, 80);
}

#[test]
fn native_cached_delta_when_prompt_unchanged() {
    let mut s = UsageStats::default();
    s.apply_prometheus(100, 50, Some(10));
    s.apply_prometheus(100, 50, Some(40));
    assert_eq!(s.prompt_tokens, 100);
    assert_eq!(s.predicted_tokens, 50);
    assert_eq!(s.cached_tokens, 40);
}

#[test]
fn native_cached_counter_blocks_parse_cache_n() {
    let mut s = UsageStats::default();
    s.apply_prometheus(100, 10, Some(500));
    assert!(!s.add_cached(500, now()));
    assert!(!s.add_cached(12, now()));
    assert_eq!(s.cached_tokens, 500);
}

#[test]
fn legacy_parse_cache_n_when_native_counter_absent() {
    let mut s = UsageStats::default();
    s.apply_prometheus(100, 10, None);
    assert!(!s.native_cached_counter);
    assert!(s.add_cached(256, now()));
    assert_eq!(s.cached_tokens, 256);
    s.apply_prometheus(110, 12, None);
    assert_eq!(s.cached_tokens, 256);
    assert!(!s.native_cached_counter);
}

#[test]
fn reset_keeps_native_cached_baseline() {
    let mut s = UsageStats::default();
    s.apply_prometheus(100, 50, Some(20));
    s.reset();
    assert_eq!(s.cached_tokens, 0);
    assert_eq!(s.last_cached, 20);
    assert!(s.native_cached_counter);
    s.apply_prometheus(100, 50, Some(20));
    assert_eq!(s.cached_tokens, 0);
    assert!(!s.add_cached(7, now()));
}

#[test]
fn estimated_api_cost_cached_falls_back_to_input_rate() {
    let rates = ProviderRates {
        input_per_m: bin(2.0),
        cached_input_per_m: None,
        output_per_m: bin(4.0),
    };
    let cost = num(estimated_api_cost(1_000_000, 1_000_000, 1_000_000, &rates));
    assert!((cost - 8.0).abs() < 1e-9);
    assert_eq!(rates.effective_cached_input_per_m(), bin(2.0));
}

#[test]
fn estimated_api_cost_uses_cached_input_rate_when_present() {
    let rates = ProviderRates {
        input_per_m: bin(2.0),
        cached_input_per_m: Some(bin(0.2)),
        output_per_m: bin(4.0),
    };
    let cost = num(estimated_api_cost(1_000_000, 1_000_000, 1_000_000, &rates));
    assert!((cost - 6.2).abs() < 1e-9);
}

#[test]
fn saved_equals_estimated_api_cost_without_energy() {
    let s = UsageStats {
        prompt_tokens: 251_342,
        cached_tokens: 4_657_250,
        predicted_tokens: 71_788,
        ..Default::default()
    };
    let snap = s.snapshot();
    let luna = num(estimated_api_cost(
        s.prompt_tokens,
        s.cached_tokens,
        s.predicted_tokens,
        &luna_rates(),
    ));
    let qwen = num(estimated_api_cost(
        s.prompt_tokens,
        s.cached_tokens,
        s.predicted_tokens,
        &qwen_rates(),
    ));
    assert!((num(snap.saved_luna_usd) - luna).abs() < 1e-12);
    assert!((num(snap.saved_qwen_usd) - qwen).abs() < 1e-12);
    assert_eq!(luna_rates().cached_input_per_m, Some(bin(0.02)));
    assert_eq!(qwen_rates().cached_input_per_m, Some(bin(0.10)));
}

#[test]
fn live_server_fixture_saved_uses_official_cached_input_rates() {
    let s = UsageStats {
        prompt_tokens: 251_342,
        cached_tokens: 4_657_250,
        predicted_tokens: 71_788,
        ..Default::default()
    };
    let snap = s.snapshot();
    let luna = 251_342.0 / 1_000_000.0 * 0.20
        + 4_657_250.0 / 1_000_000.0 * 0.02
        + 71_788.0 / 1_000_000.0 * 1.20;
    let qwen = 251_342.0 / 1_000_000.0 * 0.50
        + 4_657_250.0 / 1_000_000.0 * 0.10
        + 71_788.0 / 1_000_000.0 * 3.00;
    assert!((luna - 0.229559_f64).abs() < 1e-6);
    assert!((qwen - 0.806760_f64).abs() < 1e-6);
    assert!((num(snap.saved_luna_usd) - luna).abs() < 1e-12);
    assert!((num(snap.saved_qwen_usd) - qwen).abs() < 1e-12);
    assert_eq!(format!("${:.2}", num(snap.saved_luna_usd)), "$0.23");
    assert_eq!(format!("${:.2}", num(snap.saved_qwen_usd)), "$0.81");
    let billed_cached_as_input = 251_342.0 / 1_000_000.0 * 0.20
        + 4_657_250.0 / 1_000_000.0 * 0.20
        + 71_788.0 / 1_000_000.0 * 1.20;
    assert!(num(snap.saved_luna_usd) < billed_cached_as_input - 0.5);
}

#[test]
fn snapshot_names_the_rates() {
    let snap = UsageStats::default().snapshot();
    assert_eq!(num(snap.rates.luna_input_per_m), 0.20);
    assert_eq!(snap.rates.luna_cached_input_per_m, Some(bin(0.02)));
    assert_eq!(num(snap.rates.luna_output_per_m), 1.20);
    assert_eq!(num(snap.rates.qwen_input_per_m), 0.50);
    assert_eq!(snap.rates.qwen_cached_input_per_m, Some(bin(0.10)));
    assert_eq!(num(snap.rates.qwen_output_per_m), 3.00);
    assert_eq!(num(snap.cache_reuse_ratio), 0.0);
    assert_eq!(num(snap.saved_luna_usd), 0.0);
}

#[test]
fn counters_stop_at_their_largest_value() {
    let mut s = UsageStats { prompt_tokens: u64::MAX - 1, ..Default::default() };
    s.apply_prometheus(10, 0, None);
    assert_eq!(s.prompt_tokens, u64::MAX);
    assert_eq!(s.last_prompt, 10);
    let full = UsageStats {
        prompt_tokens: u64::MAX,
        cached_tokens: 5,
        ..Default::default()
    };
    assert_eq!(full.snapshot().total_prompt_tokens, u64::MAX);
}

#[test]
fn same_sample_twice_counts_once() {
    let mut once = UsageStats::default();
    once.apply_prometheus_at(7, 8, Some(9), 1_700_000_000);
    assert_eq!(once.updated_at, 1_700_000_000);
    assert!(once.dirty);
    let mut twice = once.clone();
    twice.dirty = false;
    twice.apply_prometheus_at(7, 8, Some(9), 1_800_000_000);
    assert_eq!(twice.prompt_tokens, once.prompt_tokens);
    assert_eq!(twice.predicted_tokens, once.predicted_tokens);
    assert_eq!(twice.cached_tokens, once.cached_tokens);
}

#[test]
fn machine_clock_marks_the_change() {
    let mut s = UsageStats::default();
    s.apply_prometheus(1, 1, None);
    let seen = std::time::SystemTime::now()
        .duration_since(std::time::UNIX_EPOCH)
        .unwrap()
        .as_secs();
    assert!(s.updated_at <= seen && s.updated_at + 60 > seen);
}

#[test]
fn repeated_report_counts_again_after_the_window() {
    let mut s = UsageStats::default();
    assert!(s.add_cached_at(42, now(), 5));
    assert_eq!(s.updated_at, 5);
    assert!(!s.add_cached_at(42, after(CACHE_DEDUP_WINDOW - 1), 6));
    assert_eq!(s.updated_at, 5);
    assert!(s.add_cached_at(42, after(CACHE_DEDUP_WINDOW), 7));
    assert_eq!(s.cached_tokens, 84);
    assert!(!s.add_cached_at(0, after(CACHE_DEDUP_WINDOW * 9), 8));
}

#[test]
fn saving_waits_for_its_turn() {
    let mut s = UsageStats::default();
    assert!(!s.is_save_due(true, now()));
    assert!(!s.is_save_due(false, now()));
    s.apply_prometheus(1, 1, None);
    assert!(s.is_save_due(false, now()));
    s.mark_saved(now());
    assert!(!s.dirty);
    s.apply_prometheus(2, 2, None);
    assert!(!s.is_save_due(false, after(SAVE_DEBOUNCE - 1)));
    assert!(s.is_save_due(true, after(1)));
    assert!(s.is_save_due(false, after(SAVE_DEBOUNCE)));
}

#[test]
fn cache_report_forms() {
    assert_eq!(parse_cache_n("cache_n=12"), None);
    assert_eq!(parse_cache_n("\"cache_n\" : 7,"), Some(7));
    assert_eq!(parse_cache_n("\"cache_n\" 3, \"cache_n\": 5"), Some(5));
    assert_eq!(parse_cache_n(r#"{"keys":["cache_n"],"cache_n":5}"#), Some(5));
    assert_eq!(parse_cache_n(r#"{"keys":["cache_n"]}"#), None);
    assert_eq!(parse_cache_n("\"cache_n\": x, \"cache_n\": 5"), Some(5));
    assert_eq!(parse_cache_n("\"cache_n\": 99999999999999999999"), None);
    assert_eq!(parse_cache_n("\"cache_n\":18446744073709551615"), Some(u64::MAX));
    assert_eq!(parse_cache_n(""), None);
}

#[test]
fn a_line_with_a_report_counts() {
    let mut s = UsageStats::default();
    assert!(!count_cache_report(&mut s, "nothing here", now(), 1));
    assert!(count_cache_report(&mut s, "{\"cache_n\":31}", now(), 2));
    assert_eq!(s.cached_tokens, 31);
    assert_eq!(s.updated_at, 2);
}

#[test]
fn server_output_is_kept_unless_a_file_is_followed() {
    let mut usage = UsageStats::default();
    let mut buffer = LogBuffer::new(MAX_LOG_LINES);
    let mut source = LogSourceInfo::default();
    assert!(push_log(
        "\"cache_n\": 4".to_string(),
        false,
        &mut usage,
        &mut buffer,
        &mut source,
        now(),
        3
    ));
    assert_eq!(buffer.snapshot(), vec!["\"cache_n\": 4"]);
    assert_eq!(source.kind, LogSourceKind::ManagedProcess);
    assert_eq!(source.status, LogSourceStatus::Connected);
    assert_eq!(source.line_count, 1);
    assert!(push_log(
        "\"cache_n\": 5".to_string(),
        true,
        &mut usage,
        &mut buffer,
        &mut source,
        now(),
        3
    ));
    assert_eq!(buffer.len(), 1);
    assert_eq!(usage.cached_tokens, 9);
}

#[test]
fn lifetime_peak_and_drafts() {
    let mut s = UsageStats::default();
    assert_eq!(s.snapshot().mtp_acceptance_ratio, None);
    let mut sample = PrometheusUsageSample {
        prompt: 251_342,
        predicted: 71_788,
        cached: Some(4_657_250),
        peak_context: Some(113_868),
        mtp_draft: Some(40_018),
        mtp_accepted: Some(31_710),
    };
    s.apply_sample(&sample);
    s.apply_sample(&sample);
    let snap = s.snapshot();
    assert_eq!(snap.prompt_tokens, 251_342);
    assert_eq!(snap.total_prompt_tokens, 4_908_592);
    assert_eq!(snap.peak_context_tokens, 113_868);
    assert_eq!(snap.mtp_draft_tokens, 40_018);
    assert_eq!(snap.mtp_accepted_tokens, 31_710);
    assert_eq!(num(snap.mtp_acceptance_ratio.unwrap()), 31_710.0 / 40_018.0);
    sample.peak_context = Some(1_000);
    sample.mtp_draft = Some(10);
    sample.mtp_accepted = None;
    s.apply_sample_at(&sample, 44);
    assert_eq!(s.updated_at, 44);
    let snap = s.snapshot();
    assert_eq!(snap.peak_context_tokens, 113_868);
    assert_eq!(snap.mtp_draft_tokens, 40_028);
    assert_eq!(snap.mtp_accepted_tokens, 31_710);
    s.reset();
    assert_eq!(s.snapshot().mtp_draft_tokens, 0);
    assert_eq!(s.snapshot().peak_context_tokens, 0);
    s.apply_sample(&sample);
    assert_eq!(s.snapshot().mtp_draft_tokens, 0);
}

#[test]
fn lifetime_counters_above_a_machine_half_word() {
    let mut s = UsageStats::default();
    s.apply_sample(&PrometheusUsageSample {
        prompt: 5_000_000_000,
        predicted: 3_000_000_000,
        cached: Some(12_000_000_000),
        peak_context: Some(4_294_967_296),
        mtp_draft: Some(4_294_967_296),
        mtp_accepted: Some(5_000_000_000),
    });
    let snap = s.snapshot();
    assert_eq!(snap.prompt_tokens, 5_000_000_000);
    assert_eq!(snap.cached_tokens, 12_000_000_000);
    assert_eq!(snap.total_prompt_tokens, 17_000_000_000);
    assert_eq!(snap.predicted_tokens, 3_000_000_000);
    assert_eq!(snap.peak_context_tokens, 4_294_967_296);
    assert_eq!(snap.mtp_draft_tokens, 4_294_967_296);
    assert_eq!(snap.mtp_accepted_tokens, 5_000_000_000);
}

#[test]
fn one_session_adds_what_its_counter_grew() {
    let mut s = UsageStats { prompt_tokens: 70, last_prompt: 10, ..Default::default() };
    for prompt in [10, 15, 15, 40] {
        let before = s.prompt_tokens;
        s.apply_prometheus(prompt, 0, None);
        assert!(s.prompt_tokens >= before);
    }
    assert_eq!(s.prompt_tokens, 70 + 40 - 10);
}

#[test]
fn tokens_alone_are_a_sample_without_the_rest() {
    let mut a = UsageStats::default();
    let mut b = UsageStats::default();
    a.apply_prometheus_at(9, 8, Some(7), 6);
    b.apply_sample_at(
        &PrometheusUsageSample {
            prompt: 9,
            predicted: 8,
            cached: Some(7),
            peak_context: None,
            mtp_draft: None,
            mtp_accepted: None,
        },
        6,
    );
    assert_eq!(format!("{a:?}"), format!("{b:?}"));
}

#[test]
fn a_report_counts_once_whatever_comes_in_between() {
    let mut s = UsageStats::default();
    assert!(s.add_cached(42, now()));
    assert!(s.add_cached(43, after(1)));
    assert!(!s.add_cached(42, after(2)));
    assert_eq!(s.cached_tokens, 85);
    assert!(!s.add_cached(43, after(CACHE_DEDUP_WINDOW)));
    assert!(s.add_cached(42, after(CACHE_DEDUP_WINDOW)));
    assert_eq!(s.cached_tokens, 127);
    assert_eq!(s.recent_reports.len(), 2);
    s.reset();
    assert!(s.recent_reports.is_empty());
    assert!(s.add_cached(42, after(CACHE_DEDUP_WINDOW + 1)));
}
