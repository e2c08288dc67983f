use llama_monitor::binary::Binary64;
use llama_monitor::clock::Moment;
use llama_monitor::json::{read_json, Json, Numeral};
use llama_monitor::llama::live_slots::{InferencePhase, SpeedKind, LIVE_STALE};
use llama_monitor::llama::metrics::{
    parse_prometheus_counter, parse_prometheus_metrics, prometheus_f64_to_u64, slots_kv_usage,
    LlamaMetrics, PrometheusValues,
};
use llama_monitor::llama::poller::{
    health_status, on_health, on_metrics, on_slot_answer, on_slots, poll_port, status_of, PollStep,
    HEALTH_FAIL_CLEAR_THRESHOLD,
};
use llama_monitor::llama::running_model::{HealthStickiness, RunningModelInfo, ServerConfig};
use llama_monitor::usage::UsageStats;

const GENERATION: &str =
    "slot print_timing: id 1 | task 916 | n_gen = 276, tg = 28.66 t/s, tg_3s = 30.85 t/s";

const SCRAPE: &str = "\
# HELP llamacpp:prompt_tokens_seconds Prompt tokens per second (gauge)
# TYPE llamacpp:prompt_tokens_seconds gauge
llamacpp:prompt_tokens_seconds 1234.5
# HELP llamacpp:predicted_tokens_seconds Predicted tokens per second (gauge)
# TYPE llamacpp:predicted_tokens_seconds gauge
llamacpp:predicted_tokens_seconds 56.7
# HELP llamacpp:prompt_tokens_total Total prompt tokens processed
# TYPE llamacpp:prompt_tokens_total counter
llamacpp:prompt_tokens_total 10000
# HELP llamacpp:prompt_seconds_total Total prompt processing seconds
# TYPE llamacpp:prompt_seconds_total counter
llamacpp:prompt_seconds_total 8.1
# HELP llamacpp:tokens_predicted_total Total predicted tokens
# TYPE llamacpp:tokens_predicted_total counter
llamacpp:tokens_predicted_total 5000
# HELP llamacpp:tokens_predicted_seconds_total Total predicted seconds
# TYPE llamacpp:tokens_predicted_seconds_total counter
llamacpp:tokens_predicted_seconds_total 88.2
# HELP llamacpp:n_tokens_max High watermark of the context size observed
# TYPE llamacpp:n_tokens_max counter
llamacpp:n_tokens_max 131072
# HELP llamacpp:requests_processing Current requests processing
# TYPE llamacpp:requests_processing gauge
llamacpp:requests_processing 1
";

const LIVE_SERVER: &str = "\
llamacpp:prompt_tokens_total 251342
llamacpp:prompt_tokens_cached_total 4.65725e+06
llamacpp:prompt_seconds_total 579.864
llamacpp:tokens_predicted_total 71788
llamacpp:tokens_predicted_seconds_total 2719.99
llamacpp:n_tokens_max 113868
llamacpp:n_busy_slots_per_decode 1.05701
llamacpp:prompt_tokens_seconds 0
llamacpp:predicted_tokens_seconds 0
llamacpp:requests_processing 0
llamacpp:spec_decode_num_draft_tokens_total 40018
llamacpp:spec_decode_num_accepted_tokens_total 31710
llamacpp:spec_decode_num_drafts_total 40018
";

fn t0() -> Moment {
    Moment { nanos: 9_000_000_000 }
}

fn plus(millis: u64) -> Moment {
    Moment { nanos: t0().nanos + millis * 1_000_000 }
}

fn num(x: Binary64) -> f64 {
    f64::from_bits(x.to_bits())
}

fn bin(x: f64) -> Binary64 {
    Binary64::from_bits(x.to_bits())
}

fn slots(text: &str) -> Vec<Json> {
    match read_json(text).unwrap() {
        Json::Array(items) => items,
        other => panic!("no list: {other:?}"),
    }
}

#[test]
fn test_parse_prometheus_metrics() {
    let body = SCRAPE;
    let vals = parse_prometheus_metrics(body);
    assert!((num(vals.prompt_tokens_per_sec) - 1234.5).abs() < 0.1);
    assert!((num(vals.predicted_tokens_per_sec) - 56.7).abs() < 0.1);
    assert_eq!(vals.prompt_tokens_total, 10_000);
    assert!((num(vals.prompt_seconds_total) - 8.1).abs() < 0.1);
    assert_eq!(vals.predicted_tokens_total, 5_000);
    assert!((num(vals.predicted_seconds_total) - 88.2).abs() < 0.1);
    assert_eq!(vals.requests_processing, 1);
    assert!(body.contains("llamacpp:n_tokens_max"));
}

#[test]
fn test_parse_prometheus_metrics_empty() {
    let vals = parse_prometheus_metrics("");
    assert_eq!(num(vals.prompt_tokens_per_sec), 0.0);
    assert_eq!(vals.requests_processing, 0);
}

#[test]
fn test_parse_prometheus_metrics_comments_only() {
    let body = "# HELP llamacpp:prompt_tokens_total Total prompt tokens\n# TYPE llamacpp:prompt_tokens_total counter\n";
    let vals = parse_prometheus_metrics(body);
    assert_eq!(vals.prompt_tokens_total, 0);
}

#[test]
fn slots_kv_usage_uses_n_past_when_present() {
    let slots = slots(
        r#"[{"id": 0, "n_ctx": 8192, "n_past": 1024, "n_decoded": 50, "is_processing": true}]"#,
    );
    assert_eq!(slots_kv_usage(&slots), (1024, 8192));
}

#[test]
fn slots_kv_usage_uses_prompt_tokens_as_current_occupancy() {
    let slots = slots(
        r#"[{"id": 0, "n_ctx": 131072, "n_prompt_tokens": 400, "is_processing": true,
            "next_token": { "n_decoded": 80 }}]"#,
    );
    assert_eq!(slots_kv_usage(&slots), (400, 131072));
}

#[test]
fn slots_kv_usage_drops_after_new_session_unlike_n_tokens_max() {
    let full = slots(
        r#"[{"id": 0, "n_ctx": 8192, "n_prompt_tokens": 8192, "next_token": { "n_decoded": 192 }}]"#,
    );
    let new_session = slots(
        r#"[{"id": 0, "n_ctx": 8192, "n_prompt_tokens": 120, "next_token": [{ "n_decoded": 12 }]}]"#,
    );
    assert_eq!(slots_kv_usage(&full), (8192, 8192));
    assert_eq!(slots_kv_usage(&new_session), (120, 8192));
}

#[test]
fn slots_kv_usage_idle_slot_without_task_is_empty() {
    let slots =
        slots(r#"[{"id": 0, "n_ctx": 65536, "speculative": false, "is_processing": false}]"#);
    assert_eq!(slots_kv_usage(&slots), (0, 65536));
}

#[test]
fn slots_kv_usage_sums_parallel_slots() {
    let slots = slots(
        r#"[{"id": 0, "n_ctx": 4096, "n_prompt_tokens": 100, "next_token": { "n_decoded": 20 }},
            {"id": 1, "n_ctx": 4096, "n_prompt_tokens": 50, "n_decoded": 10}]"#,
    );
    assert_eq!(slots_kv_usage(&slots), (150, 8192));
}

#[test]
fn slots_kv_usage_falls_back_to_n_decoded_when_prompt_missing() {
    let slots = slots(
        r#"[{"id": 0, "n_ctx": 4096, "is_processing": true, "next_token": { "n_decoded": 64 }}]"#,
    );
    assert_eq!(slots_kv_usage(&slots), (64, 4096));
}

#[test]
fn slots_kv_usage_stops_at_the_context_and_the_largest_count() {
    let capped = slots(r#"[{"n_ctx": 100, "n_past": 900}, {"n_ctx": 10, "n_decoded": 90}]"#);
    assert_eq!(slots_kv_usage(&capped), (110, 110));
    let listed = slots(r#"[{"n_ctx": 100, "next_token": [{"n_decoded": 7}]}]"#);
    assert_eq!(slots_kv_usage(&listed), (7, 100));
    let huge = slots(
        r#"[{"n_ctx": 18446744073709551615, "n_past": 18446744073709551615},
            {"n_ctx": 5, "n_past": 5}]"#,
    );
    assert_eq!(slots_kv_usage(&huge), (u64::MAX, u64::MAX));
    assert_eq!(slots_kv_usage(&[]), (0, 0));
}

fn sample_prom(prompt_tps: f64, gen_tps: f64) -> PrometheusValues {
    PrometheusValues {
        prompt_tokens_per_sec: bin(prompt_tps),
        predicted_tokens_per_sec: bin(gen_tps),
        prompt_tokens_total: 10_000,
        prompt_seconds_total: bin(8.1),
        predicted_tokens_total: 5_000,
        predicted_seconds_total: bin(88.2),
        requests_processing: 1,
        ..Default::default()
    }
}

fn idle_prom() -> PrometheusValues {
    PrometheusValues { requests_processing: 0, ..sample_prom(0.0, 0.0) }
}

#[test]
fn live_prompt_speed_metrics_zero_is_not_lifetime_average() {
    let mut m = LlamaMetrics::default();
    m.apply_metrics_at(&idle_prom(), t0());
    assert_eq!(m.prompt_tokens_per_sec, None);
    assert_eq!(m.inference_phase, None);
    let lifetime = 10_000.0 / 8.1;
    assert!(lifetime > 1.0);
}

#[test]
fn live_generation_speed_metrics_zero_is_not_lifetime_average() {
    let mut m = LlamaMetrics::default();
    m.apply_metrics_at(&idle_prom(), t0());
    assert_eq!(m.generation_tokens_per_sec, None);
    let lifetime = 5_000.0 / 88.2;
    assert!(lifetime > 1.0);
}

#[test]
fn metrics_failure_keeps_session_counters() {
    let mut m = LlamaMetrics::default();
    m.apply_metrics_at(&sample_prom(42.0, 18.0), t0());
    assert_eq!(m.prompt_tokens_total, 10_000);
    assert_eq!(m.predicted_tokens_total, 5_000);
    m.clear_metrics_gauges();
    assert_eq!(m.requests_processing, None);
    assert_eq!(m.prompt_tokens_total, 10_000);
    assert_eq!(m.predicted_tokens_total, 5_000);
}

#[test]
fn slots_failure_clears_live_kv_not_log_speed() {
    let mut m = LlamaMetrics::default();
    m.apply_log_line_at(GENERATION, t0());
    m.apply_metrics_at(&sample_prom(12.0, 8.0), t0());
    m.apply_slots(&slots(
        r#"[{"id": 0, "n_ctx": 8192, "n_prompt_tokens": 4096, "is_processing": true}]"#,
    ));
    assert_eq!(m.kv_cache_tokens, Some(4096));
    m.clear_slots_gauges();
    assert_eq!(m.kv_cache_tokens, None);
    assert_eq!(m.kv_cache_max, None);
    assert_eq!(m.inference_phase, Some(InferencePhase::Generation));
    assert!((num(m.generation_tokens_per_sec.unwrap()) - 30.85).abs() < 1e-9);
}

#[test]
fn metrics_predicted_zero_does_not_override_log_tg_3s() {
    let mut m = LlamaMetrics::default();
    m.apply_log_line_at(GENERATION, t0());
    let mut prom = sample_prom(0.0, 0.0);
    prom.predicted_tokens_per_sec = bin(0.0);
    m.apply_metrics_at(&prom, plus(200));
    assert_eq!(m.inference_phase, Some(InferencePhase::Generation));
    assert!((num(m.generation_tokens_per_sec.unwrap()) - 30.85).abs() < 1e-9);
    assert_eq!(m.generation_speed_kind, Some(SpeedKind::Live));
}

#[test]
fn stale_log_speed_stays_numeric_last_not_metrics_zero() {
    let mut m = LlamaMetrics::default();
    m.apply_log_line_at(GENERATION, t0());
    let late = Moment { nanos: t0().nanos + LIVE_STALE + 1_000_000_000 };
    m.apply_metrics_at(&idle_prom(), late);
    assert_eq!(m.inference_phase, Some(InferencePhase::Idle));
    assert_eq!(m.generation_speed_kind, Some(SpeedKind::Last));
    assert!((num(m.generation_tokens_per_sec.unwrap()) - 30.85).abs() < 1e-9);
    assert_ne!(m.generation_tokens_per_sec, Some(bin(0.0)));
}

#[test]
fn live_view_is_refreshed_with_time() {
    let mut m = LlamaMetrics::default();
    m.apply_log_line_at(GENERATION, t0());
    assert_eq!(m.generation_tokens_per_sec_avg, Some(bin(28.66)));
    m.refresh_live(Moment { nanos: t0().nanos + LIVE_STALE + 1 });
    assert_eq!(m.generation_speed_kind, Some(SpeedKind::Last));
}

#[test]
fn apply_slots_updates_context_from_new_payload() {
    let mut m = LlamaMetrics::default();
    m.apply_slots(&slots(r#"[{"id": 0, "n_ctx": 8192, "n_prompt_tokens": 8192}]"#));
    m.apply_slots(&slots(r#"[{"id": 0, "n_ctx": 8192, "n_prompt_tokens": 120}]"#));
    assert_eq!(m.kv_cache_tokens, Some(120));
    assert_eq!(m.kv_cache_max, Some(8192));
    assert_eq!(m.slots_idle, Some(1));
    assert_eq!(m.slots_processing, Some(0));
}

fn live_server_prom() -> PrometheusValues {
    parse_prometheus_metrics(LIVE_SERVER)
}

#[test]
fn live_server_scientific_notation_cached_tokens() {
    assert_eq!(live_server_prom().prompt_tokens_cached_total, Some(4_657_250));
}

#[test]
fn parse_prompt_tokens_cached_total_scientific_notation() {
    let vals = parse_prometheus_metrics("llamacpp:prompt_tokens_cached_total 4.65725e+06\n");
    assert_eq!(vals.prompt_tokens_cached_total, Some(4_657_250));
}

#[test]
fn live_server_processed_and_predicted_totals() {
    let vals = live_server_prom();
    assert_eq!(vals.prompt_tokens_total, 251_342);
    assert_eq!(vals.predicted_tokens_total, 71_788);
}

#[test]
fn live_server_idle_gauges_are_zero_not_lifetime_average() {
    let vals = live_server_prom();
    assert_eq!(num(vals.prompt_tokens_per_sec), 0.0);
    assert_eq!(num(vals.predicted_tokens_per_sec), 0.0);
    assert_eq!(vals.requests_processing, 0);
    let lifetime_prompt = 251_342.0 / 579.864;
    let lifetime_gen = 71_788.0 / 2719.99;
    assert!((num(vals.prompt_tokens_per_sec) - lifetime_prompt).abs() > 1.0);
    assert!((num(vals.predicted_tokens_per_sec) - lifetime_gen).abs() > 1.0);
}

#[test]
fn live_server_n_tokens_max_is_peak_not_kv_used() {
    let vals = live_server_prom();
    assert_eq!(vals.n_tokens_max, Some(113_868));
    let mut m = LlamaMetrics::default();
    m.apply_metrics_at(&vals, t0());
    m.apply_slots(&slots(
        r#"[{"id": 0, "n_ctx": 180224, "n_prompt_tokens": 120, "is_processing": false}]"#,
    ));
    assert_eq!(m.n_tokens_max, Some(113_868));
    assert_eq!(m.kv_cache_tokens, Some(120));
    assert_eq!(m.kv_cache_max, Some(180_224));
    assert_ne!(m.kv_cache_tokens, m.n_tokens_max);
}

#[test]
fn live_server_speculative_acceptance_ratio() {
    let vals = live_server_prom();
    assert_eq!(vals.spec_decode_num_draft_tokens_total, Some(40_018));
    assert_eq!(vals.spec_decode_num_accepted_tokens_total, Some(31_710));
    assert_eq!(vals.spec_decode_num_drafts_total, Some(40_018));
    let ratio = num(vals.speculative_acceptance_ratio().unwrap());
    assert!((ratio - 31_710.0 / 40_018.0).abs() < 1e-12);
    assert!((ratio - 0.7924).abs() < 0.0001);
}

#[test]
fn speculative_acceptance_ratio_none_when_no_drafts() {
    let vals = PrometheusValues {
        spec_decode_num_draft_tokens_total: Some(0),
        spec_decode_num_accepted_tokens_total: Some(0),
        ..Default::default()
    };
    assert!(vals.speculative_acceptance_ratio().is_none());
}

#[test]
fn speculative_acceptance_ratio_none_when_metric_absent() {
    assert!(PrometheusValues::default().speculative_acceptance_ratio().is_none());
}

#[test]
fn cached_counter_absent_on_legacy_metrics() {
    let vals = parse_prometheus_metrics(SCRAPE);
    assert_eq!(vals.prompt_tokens_cached_total, None);
    assert_eq!(vals.spec_decode_num_draft_tokens_total, None);
}

#[test]
fn prometheus_f64_to_u64_rejects_invalid() {
    assert_eq!(prometheus_f64_to_u64(bin(4.65725e+06)), Some(4_657_250));
    assert_eq!(prometheus_f64_to_u64(bin(0.0)), Some(0));
    assert_eq!(prometheus_f64_to_u64(bin(-1.0)), None);
    assert_eq!(prometheus_f64_to_u64(bin(f64::NAN)), None);
    assert_eq!(prometheus_f64_to_u64(bin(f64::INFINITY)), None);
    assert_eq!(prometheus_f64_to_u64(bin(f64::NEG_INFINITY)), None);
}

#[test]
fn counters_that_overflow_are_rejected() {
    assert_eq!(prometheus_f64_to_u64(bin(18446744073709549568.0)), Some(18446744073709549568));
    assert_eq!(prometheus_f64_to_u64(bin(18446744073709551616.0)), None);
    assert_eq!(prometheus_f64_to_u64(bin(2.5)), Some(3));
}

#[test]
fn live_server_busy_slots_per_decode_is_diagnostic() {
    let vals = live_server_prom();
    assert!((num(vals.n_busy_slots_per_decode.unwrap()) - 1.05701).abs() < 1e-5);
}

#[test]
fn apply_metrics_copies_peak_and_spec_to_snapshot() {
    let mut m = LlamaMetrics::default();
    m.apply_metrics_at(&live_server_prom(), t0());
    assert_eq!(m.n_tokens_max, Some(113_868));
    assert_eq!(m.spec_draft_tokens, Some(40_018));
    assert_eq!(m.spec_accepted_tokens, Some(31_710));
    assert_eq!(m.spec_drafts, Some(40_018));
    let ratio = num(m.spec_acceptance_ratio.unwrap());
    assert!((ratio - 31_710.0 / 40_018.0).abs() < 1e-12);
    assert!((num(m.n_busy_slots_per_decode.unwrap()) - 1.05701).abs() < 1e-5);
    assert_eq!(m.prompt_tokens_per_sec, None);
    assert_eq!(m.generation_tokens_per_sec, None);
    assert_eq!(m.inference_phase, None);
}

#[test]
fn apply_metrics_does_not_invent_prefill_from_counter_delta() {
    let mut m = LlamaMetrics::default();
    let mut prom = idle_prom();
    prom.requests_processing = 1;
    m.apply_metrics_at(&prom, t0());
    prom.prompt_tokens_total = 10_400;
    m.apply_metrics_at(&prom, plus(1000));
    assert_eq!(m.inference_phase, None);
    assert_eq!(m.prompt_tokens_per_sec, None);
    assert_eq!(m.generation_tokens_per_sec, None);
}

#[test]
fn parse_prometheus_counter_digit_string_is_u64() {
    assert_eq!(parse_prometheus_counter("0"), Some(0));
    assert_eq!(parse_prometheus_counter("4294967296"), Some(4_294_967_296));
    assert_eq!(parse_prometheus_counter("9007199254740993"), Some(9_007_199_254_740_993));
    assert_eq!(parse_prometheus_counter("4.65725e+06"), Some(4_657_250));
    assert_eq!(parse_prometheus_counter("-1"), None);
    assert_eq!(parse_prometheus_counter("NaN"), None);
    assert_eq!(parse_prometheus_counter("+Inf"), None);
}

#[test]
fn prometheus_token_counters_above_u32_stay_u64() {
    let body = "\
llamacpp:prompt_tokens_total 5000000000
llamacpp:tokens_predicted_total 3000000000
llamacpp:prompt_tokens_cached_total 12000000000
llamacpp:spec_decode_num_draft_tokens_total 4294967296
llamacpp:spec_decode_num_accepted_tokens_total 5000000000
llamacpp:spec_decode_num_drafts_total 4294967296
";
    let vals = parse_prometheus_metrics(body);
    assert_eq!(vals.prompt_tokens_total, 5_000_000_000);
    assert_eq!(vals.predicted_tokens_total, 3_000_000_000);
    assert_eq!(vals.prompt_tokens_cached_total, Some(12_000_000_000));
    assert_eq!(vals.spec_decode_num_draft_tokens_total, Some(4_294_967_296));
    assert_eq!(vals.spec_decode_num_accepted_tokens_total, Some(5_000_000_000));
    assert_eq!(vals.spec_decode_num_drafts_total, Some(4_294_967_296));
    assert_ne!(vals.prompt_tokens_total, 0);
    assert_ne!(vals.prompt_tokens_total as i64, i32::MIN as i64);

    let mut m = LlamaMetrics::default();
    m.apply_metrics_at(&vals, t0());
    assert_eq!(m.prompt_tokens_total, 5_000_000_000);
    assert_eq!(m.predicted_tokens_total, 3_000_000_000);
    assert_eq!(m.spec_draft_tokens, Some(4_294_967_296));
    assert_eq!(m.spec_accepted_tokens, Some(5_000_000_000));
    assert_eq!(m.spec_drafts, Some(4_294_967_296));
}

#[test]
fn prometheus_u32_overflow_plus_one_does_not_wrap() {
    let body = "llamacpp:prompt_tokens_total 4294967296\n";
    let vals = parse_prometheus_metrics(body);
    assert_eq!(vals.prompt_tokens_total, 4_294_967_296);
    assert_ne!(vals.prompt_tokens_total, 0);
    assert!(vals.prompt_tokens_total > u32::MAX as u64);
}

#[test]
fn prometheus_preserves_integers_beyond_f64_mantissa() {
    let body = "llamacpp:prompt_tokens_total 9007199254740993\n";
    let vals = parse_prometheus_metrics(body);
    assert_eq!(vals.prompt_tokens_total, 9_007_199_254_740_993);
    assert_ne!(
        prometheus_f64_to_u64(bin(9_007_199_254_740_993.0)),
        Some(9_007_199_254_740_993)
    );
}

#[test]
fn polls_ask_everything_of_a_server_that_answers() {
    let mut step = PollStep::Health;
    let mut asked = Vec::new();
    while step != PollStep::Sleep {
        asked.push(step);
        step = step.next(true);
    }
    assert_eq!(
        asked,
        vec![
            PollStep::Health,
            PollStep::Metrics,
            PollStep::Slots,
            PollStep::Props,
            PollStep::Models
        ]
    );
    assert_eq!(PollStep::Health.next(false), PollStep::Sleep);
    assert_eq!(PollStep::Sleep.next(false), PollStep::Health);
}

#[test]
fn polled_port_is_the_configured_one() {
    let config = ServerConfig {
        model_path: String::new(),
        context_size: 0,
        parallel_slots: 0,
        port: 9001,
    };
    assert_eq!(poll_port(Some(&config)), 9001);
    assert_eq!(poll_port(None), 8080);
}

#[test]
fn health_answers() {
    assert_eq!(health_status(Some(r#"{"status":"ok"}"#)), Some("ok".to_string()));
    assert_eq!(health_status(Some(r#"{"state":1}"#)), Some("unknown".to_string()));
    assert_eq!(health_status(Some("<html>")), None);
    assert_eq!(health_status(None), None);
    assert_eq!(status_of(&Json::Null), "unknown");
}

#[test]
fn server_is_forgotten_after_failures_in_a_row() {
    let mut stick = HealthStickiness::new(HEALTH_FAIL_CLEAR_THRESHOLD);
    let mut model = RunningModelInfo::default();
    model.name.value = Some("m".to_string());
    let mut m = LlamaMetrics::default();
    let mut usage = UsageStats::default();
    assert!(on_health(&mut stick, &mut m, &mut model, Some("ok".to_string())));
    on_metrics(&mut m, &mut usage, Some(SCRAPE), t0(), 12);
    assert_eq!(m.status, "ok");
    assert_eq!(m.requests_processing, Some(1));
    assert_eq!(m.busy_requests(), 1);
    assert_eq!(usage.prompt_tokens, 10_000);
    assert_eq!(usage.updated_at, 12);
    for _ in 0..2 {
        assert!(!on_health(&mut stick, &mut m, &mut model, None));
        assert_eq!(m.status, "");
        assert_eq!(m.requests_processing, None);
        assert_eq!(m.prompt_tokens_total, 10_000);
        assert_eq!(model.display_name(), Some("m"));
    }
    assert!(!on_health(&mut stick, &mut m, &mut model, None));
    assert_eq!(m.prompt_tokens_total, 0);
    assert_eq!(model.display_name(), None);
    assert_eq!(usage.prompt_tokens, 10_000);
    on_metrics(&mut m, &mut usage, None, t0(), 13);
    assert_eq!(usage.updated_at, 12);
}

#[test]
fn slot_answers() {
    let mut m = LlamaMetrics::default();
    on_slots(&mut m, Some(r#"[{"n_ctx":10,"n_past":4,"is_processing":true},{"n_ctx":10}]"#));
    assert_eq!(m.kv_cache_tokens, Some(4));
    assert_eq!(m.slots_processing, Some(1));
    assert_eq!(m.slots_idle, Some(1));
    assert_eq!(m.busy_slots(), 1);
    on_slots(&mut m, Some(r#"{"error":"not supported"}"#));
    assert_eq!(m.kv_cache_tokens, None);
    assert_eq!(m.busy_slots(), 0);
    on_slot_answer(&mut m, Some(&Json::Array(Vec::new())));
    assert_eq!(m.kv_cache_tokens, Some(0));
    on_slots(&mut m, Some("broken"));
    assert_eq!(m.slots_idle, None);
    on_slots(&mut m, None);
    assert_eq!(m.kv_cache_max, None);
}

#[test]
fn json_texts_are_read_as_serde_reads_them() {
    assert!(matches!(read_json("null"), Ok(Json::Null)));
    assert!(matches!(read_json("true"), Ok(Json::Bool(true))));
    assert!(matches!(read_json("7"), Ok(Json::Number(Numeral::Unsigned(7)))));
    assert!(matches!(read_json("-7"), Ok(Json::Number(Numeral::Negative(-7)))));
    match read_json("2.5") {
        Ok(Json::Number(Numeral::Float(x))) => assert_eq!(x, bin(2.5)),
        other => panic!("{other:?}"),
    }
    let v = read_json(r#"{"a":"x","b":[{"c":1}],"a":"y"}"#).unwrap();
    assert!(v.is_object());
    assert_eq!(v.get_text("a"), Some("y"));
    assert_eq!(v.get("a").unwrap().as_text(), Some("y"));
    assert!(v.get("z").is_none());
    assert!(v.get("b").unwrap().first_item().unwrap().is_object());
    let message = read_json("[1,").unwrap_err();
    let expected = "[1,".parse::<serde_json::Value>().unwrap_err().to_string();
    assert_eq!(message, expected);
}

#[test]
fn lines_of_no_interest_change_nothing() {
    let plain = parse_prometheus_metrics(SCRAPE);
    let mut crowded = String::from("\r\n# a comment\nother:series 9\n");
    for line in SCRAPE.lines() {
        crowded.push_str(line);
        crowded.push_str("\nllamacpp:unknown 7\n\n   \n# llamacpp:n_tokens_max 1\r\n");
    }
    crowded.push_str("llamacpp:");
    assert_eq!(parse_prometheus_metrics(&crowded), plain);
    assert_eq!(
        parse_prometheus_metrics("# only\n\nother 1\n#"),
        PrometheusValues::default()
    );
}
