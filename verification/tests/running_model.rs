use llama_monitor::llama::poller::refresh_running_model;
use llama_monitor::llama::running_model::{
    merge_running_model, parse_props_json, parse_v1_models_json, FieldSource, HealthStickiness,
    ModelDiscoveryPartial, RunningModelInfo, ServerConfig,
};
use llama_monitor::state::{selected_preset, ModelPreset};

const PROPS: &str = r#"{
    "default_generation_settings": {"n_ctx": 131072, "id": 0, "params": {"seed": 1}},
    "total_slots": 1,
    "model_alias": "Qwen3.8-27B-UD-Q4_K_M",
    "model_path": "/models/Qwen3.8-27B-UD-Q4_K_M.gguf",
    "modalities": {"vision": false},
    "some_future_field": [1, 2]
}"#;

const LEGACY_PROPS: &str = r#"{
    "default_generation_settings": {
        "n_ctx": 8192,
        "model": "/opt/models/legacy-model.Q5_K_M.gguf"
    },
    "total_slots": 2
}"#;

const MODELS: &str = r#"{
    "object": "list",
    "data": [{
        "id": "Qwen3.8-27B-UD-Q4_K_M",
        "object": "model",
        "meta": {"n_ctx_train": 262144, "n_vocab": 151936}
    }]
}"#;

const PATH_MODELS: &str = r#"{
    "object": "list",
    "data": [{"id": "/models/some-model.gguf", "object": "model", "meta": null}]
}"#;

fn split(file: &str) -> (Option<String>, Option<String>) {
    let stem = file.strip_suffix(".gguf").unwrap_or(file);
    (Some(stem.to_string()), None)
}

fn preset(id: &str, name: &str, model_path: &str, context_size: u64) -> ModelPreset {
    ModelPreset {
        id: id.to_string(),
        name: name.to_string(),
        model_path: model_path.to_string(),
        context_size,
    }
}

#[test]
fn parse_props_modern() {
    let p = parse_props_json(PROPS).unwrap();
    assert_eq!(p.model_path.as_deref(), Some("/models/Qwen3.8-27B-UD-Q4_K_M.gguf"));
    assert_eq!(p.model_alias.as_deref(), Some("Qwen3.8-27B-UD-Q4_K_M"));
    assert_eq!(p.context_size, Some(131072));
    assert_eq!(p.total_slots, Some(1));
}

#[test]
fn parse_props_legacy_model_field() {
    let p = parse_props_json(LEGACY_PROPS).unwrap();
    assert_eq!(p.model_path.as_deref(), Some("/opt/models/legacy-model.Q5_K_M.gguf"));
    assert_eq!(p.context_size, Some(8192));
    assert_eq!(p.total_slots, Some(2));
}

#[test]
fn parse_props_missing_optional_fields() {
    let p = parse_props_json(r#"{"total_slots":1}"#).unwrap();
    assert!(p.model_path.is_none());
    assert!(p.model_alias.is_none());
    assert!(p.context_size.is_none());
    assert_eq!(p.total_slots, Some(1));
}

#[test]
fn parse_props_unknown_fields_ok() {
    assert!(parse_props_json(PROPS).is_ok());
}

#[test]
fn parse_props_invalid_json() {
    assert!(parse_props_json("not-json").is_err());
    assert!(parse_props_json("[1,2,3]").is_err());
}

#[test]
fn parse_v1_models_ok() {
    let p = parse_v1_models_json(MODELS).unwrap();
    assert_eq!(p.model_id.as_deref(), Some("Qwen3.8-27B-UD-Q4_K_M"));
    assert_eq!(p.native_context, Some(262144));
    assert!(p.model_path.is_none());
}

#[test]
fn parse_v1_models_path_as_id() {
    let p = parse_v1_models_json(PATH_MODELS).unwrap();
    assert!(p.model_path.as_ref().unwrap().ends_with(".gguf"));
    assert!(p.native_context.is_none());
}

#[test]
fn parse_v1_models_empty_list() {
    let p = parse_v1_models_json(r#"{"object":"list","data":[]}"#).unwrap();
    assert!(p.model_id.is_none());
    assert!(p.model_path.is_none());
}

#[test]
fn parse_v1_models_invalid_json() {
    assert!(parse_v1_models_json("{").is_err());
}

#[test]
fn merge_props_over_models() {
    let props = ModelDiscoveryPartial {
        model_path: Some("/from/props.gguf".into()),
        model_alias: Some("FromProps".into()),
        context_size: Some(4096),
        ..Default::default()
    };
    let models = ModelDiscoveryPartial {
        model_id: Some("FromModels".into()),
        model_path: Some("/from/models.gguf".into()),
        native_context: Some(8192),
        context_size: Some(2048),
        ..Default::default()
    };
    let info = merge_running_model(Some(&props), Some(&models), None, None, None, None, split);
    assert!(info.detected);
    assert_eq!(info.primary_source, FieldSource::Props);
    assert_eq!(info.model_path.value.as_deref(), Some("/from/props.gguf"));
    assert_eq!(info.name.value.as_deref(), Some("FromProps"));
    assert_eq!(info.context_size.value, Some(4096));
    assert_eq!(info.native_context.value, Some(8192));
    assert_eq!(info.model_id.value.as_deref(), Some("FromModels"));
    assert_eq!(info.gguf_file.value.as_deref(), Some("props.gguf"));
}

#[test]
fn merge_fallback_props_to_models() {
    let models = ModelDiscoveryPartial {
        model_id: Some("OnlyModels".into()),
        native_context: Some(65536),
        ..Default::default()
    };
    let info = merge_running_model(None, Some(&models), None, None, None, None, split);
    assert!(info.detected);
    assert_eq!(info.primary_source, FieldSource::Models);
    assert_eq!(info.name.value.as_deref(), Some("OnlyModels"));
    assert_eq!(info.native_context.value, Some(65536));
}

#[test]
fn merge_process_then_preset_fallback() {
    let cfg = ServerConfig {
        model_path: "/proc/model.Q4_0.gguf".into(),
        context_size: 16384,
        parallel_slots: 2,
        port: 8080,
    };
    let info = merge_running_model(
        None,
        None,
        Some(&cfg),
        Some("Preset Name"),
        Some("/preset/other.gguf"),
        Some(8192),
        split,
    );
    assert!(!info.detected);
    assert_eq!(info.model_path.value.as_deref(), Some("/proc/model.Q4_0.gguf"));
    assert_eq!(info.model_path.source, FieldSource::ProcessConfig);
    assert_eq!(info.context_size.value, Some(16384));
    assert!(info.name.value.is_some());
    assert_eq!(info.gguf_file.value.as_deref(), Some("model.Q4_0.gguf"));
}

#[test]
fn health_stickiness_single_timeout_keeps_state() {
    let mut h = HealthStickiness::new(3);
    assert!(!h.on_health_result(false));
    assert!(!h.on_health_result(false));
    assert!(h.on_health_result(false));
}

#[test]
fn health_stickiness_recovery_resets() {
    let mut h = HealthStickiness::new(3);
    assert!(!h.on_health_result(false));
    assert!(!h.on_health_result(true));
    assert!(!h.on_health_result(false));
    assert!(!h.on_health_result(false));
    assert!(h.on_health_result(false));
}

#[test]
fn health_stickiness_of_none_gives_up_at_once() {
    let mut h = HealthStickiness::new(0);
    assert_eq!(h.threshold, 1);
    assert!(h.on_health_result(false));
}

#[test]
fn full_merge_from_fixtures() {
    let props = parse_props_json(PROPS).unwrap();
    let models = parse_v1_models_json(MODELS).unwrap();
    let info =
        merge_running_model(Some(&props), Some(&models), None, Some("Preset"), None, None, split);
    assert!(info.detected);
    assert_eq!(info.display_name(), Some("Qwen3.8-27B-UD-Q4_K_M"));
    assert_eq!(info.gguf_file.value.as_deref(), Some("Qwen3.8-27B-UD-Q4_K_M.gguf"));
    assert_eq!(info.context_size.value, Some(131072));
    assert_eq!(info.native_context.value, Some(262144));
    assert_eq!(info.model_id.value.as_deref(), Some("Qwen3.8-27B-UD-Q4_K_M"));
}

#[test]
fn silence_keeps_the_known_model() {
    let props = parse_props_json(PROPS).unwrap();
    let mut model = RunningModelInfo::default();
    let presets = vec![preset("p", "Preset", "/preset/p.gguf", 4096)];
    refresh_running_model(&mut model, Some(&props), None, None, &presets, "", split);
    assert_eq!(model.display_name(), Some("Qwen3.8-27B-UD-Q4_K_M"));
    refresh_running_model(&mut model, None, None, None, &presets, "p", split);
    assert_eq!(model.display_name(), Some("Qwen3.8-27B-UD-Q4_K_M"));
    model.clear();
    assert_eq!(model.display_name(), None);
    assert_eq!(model.primary_source, FieldSource::Absent);
}

#[test]
fn sources_rank_from_the_server_down() {
    let ranks: Vec<u8> = vec![
        FieldSource::Props.rank(),
        FieldSource::Models.rank(),
        FieldSource::ProcessConfig.rank(),
        FieldSource::Preset.rank(),
        FieldSource::Absent.rank(),
    ];
    assert_eq!(ranks, vec![4, 3, 2, 1, 0]);
}

#[test]
fn preset_fills_what_is_left_open() {
    let info = merge_running_model(
        None,
        None,
        None,
        Some("Preset Name"),
        Some("C:\\models\\other.gguf"),
        Some(8192),
        split,
    );
    assert!(!info.detected);
    assert_eq!(info.name.value.as_deref(), Some("Preset Name"));
    assert_eq!(info.name.source, FieldSource::Preset);
    assert_eq!(info.context_size.value, Some(8192));
}

#[test]
fn a_name_from_the_server_goes_before_the_presets() {
    let models = ModelDiscoveryPartial {
        model_id: Some("OnlyModels".into()),
        ..Default::default()
    };
    let info =
        merge_running_model(None, Some(&models), None, Some("Preset"), None, None, split);
    assert_eq!(info.name.value.as_deref(), Some("OnlyModels"));
    assert_eq!(info.name.source, FieldSource::Models);
    let props = ModelDiscoveryPartial {
        model_path: Some("/srv/live.gguf".into()),
        ..Default::default()
    };
    let info = merge_running_model(Some(&props), None, None, Some("Preset"), None, None, split);
    assert_eq!(info.name.value.as_deref(), Some("live"));
    assert_eq!(info.name.source, FieldSource::Props);
    let cfg = ServerConfig {
        model_path: "/proc/started.gguf".into(),
        context_size: 0,
        parallel_slots: 0,
        port: 8080,
    };
    let info = merge_running_model(None, None, Some(&cfg), Some("Preset"), None, None, split);
    assert_eq!(info.name.value.as_deref(), Some("started"));
    assert_eq!(info.name.source, FieldSource::ProcessConfig);
    let info =
        merge_running_model(None, Some(&models), Some(&cfg), Some("Preset"), None, None, split);
    assert_eq!(info.name.value.as_deref(), Some("OnlyModels"));
    assert_eq!(info.model_path.value.as_deref(), Some("/proc/started.gguf"));
    assert_eq!(info.model_path.source, FieldSource::ProcessConfig);
}

#[test]
fn the_presets_name_stays_where_nothing_else_tells_one() {
    let props = ModelDiscoveryPartial {
        model_path: Some("/srv/live.bin".into()),
        ..Default::default()
    };
    let info = merge_running_model(Some(&props), None, None, Some("Preset"), None, None, split);
    assert_eq!(info.name.value.as_deref(), Some("Preset"));
    assert_eq!(info.name.source, FieldSource::Preset);
    assert_eq!(info.gguf_file.value.as_deref(), Some("live.bin"));
}

#[test]
fn the_selected_preset_is_the_first_of_its_id() {
    let presets = vec![
        preset("a", "First", "/m/first.bin", 1024),
        preset("b", "Second", "/m/second.bin", 2048),
        preset("b", "Third", "/m/third.bin", 3072),
    ];
    assert_eq!(selected_preset(&presets, "a"), Some(0));
    assert_eq!(selected_preset(&presets, "b"), Some(1));
    assert_eq!(selected_preset(&presets, "c"), None);
    assert_eq!(selected_preset(&Vec::new(), ""), None);
    let props = ModelDiscoveryPartial { total_slots: Some(2), ..Default::default() };
    let mut model = RunningModelInfo::default();
    refresh_running_model(&mut model, Some(&props), None, None, &presets, "b", split);
    assert_eq!(model.name.value.as_deref(), Some("Second"));
    assert_eq!(model.name.source, FieldSource::Preset);
    assert_eq!(model.model_path.value.as_deref(), Some("/m/second.bin"));
    assert_eq!(model.context_size.value, Some(2048));
    assert_eq!(model.total_slots.value, Some(2));
    refresh_running_model(&mut model, Some(&props), None, None, &presets, "c", split);
    assert_eq!(model.name.value, None);
    assert_eq!(model.context_size.value, None);
}

#[test]
fn failures_are_counted_up_to_the_largest_number() {
    let mut h = HealthStickiness { consecutive_failures: u32::MAX - 1, threshold: u32::MAX };
    assert!(h.on_health_result(false));
    assert!(h.on_health_result(false));
    assert_eq!(h.consecutive_failures, u32::MAX);
    assert!(!h.on_health_result(true));
}
