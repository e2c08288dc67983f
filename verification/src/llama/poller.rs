//! How the server is polled: what is asked of it next, and what its answers change.
use super::metrics::{
    after_metrics, after_slots, after_text, models, no_gauge, no_values, parse_prometheus_metrics,
    without_metrics, without_slots, LlamaMetrics, PrometheusValues,
};
use super::running_model::{
    checked, gathered, merge_running_model, merges_to, opt_config, opt_discovery, server_told,
    unknown_model, Discovery, HealthStickiness, ModelDiscoveryPartial, RunningModel,
    RunningModelInfo, ServerConfig,
};
use crate::clock::Moment;
use crate::json::{member_text, parsed_json, read_json, Json, JsonModel};
use crate::state::{preset_of, selected_preset, ModelPreset};
use crate::usage::{after_whole_sample, PrometheusUsageSample, UsageStats};
use vstd::prelude::*;

verus! {

/// Milliseconds between two polls.
pub const LLAMA_POLL_INTERVAL: u64 = 1_000;

/// Milliseconds that an answer may take.
pub const REQUEST_TIMEOUT: u64 = 3_000;

/// Failed health checks in a row after which a server is given up.
pub const HEALTH_FAIL_CLEAR_THRESHOLD: u32 = 3;

/// The port that is polled where none is configured.
pub const DEFAULT_PORT: u16 = 8080;

/// What is asked of the server.
#[derive(Clone, Copy, Debug, PartialEq, Eq, Structural)]
pub enum PollStep {
    /// Its health.
    Health,
    /// Its counters.
    Metrics,
    /// Its slots.
    Slots,
    /// Its properties.
    Props,
    /// Its models.
    Models,
    /// Nothing until the next poll.
    Sleep,
}

/// What is asked next: all of it of a server that can be reached, nothing of one
/// that cannot.
pub open spec fn step_after(step: PollStep, reachable: bool) -> PollStep {
    match step {
        PollStep::Health => if reachable {
            PollStep::Metrics
        } else {
            PollStep::Sleep
        },
        PollStep::Metrics => PollStep::Slots,
        PollStep::Slots => PollStep::Props,
        PollStep::Props => PollStep::Models,
        PollStep::Models => PollStep::Sleep,
        PollStep::Sleep => PollStep::Health,
    }
}

impl PollStep {
    /// What is asked next.
    pub fn next(self, reachable: bool) -> (r: PollStep)
        ensures
            r == step_after(self, reachable),
    {
        match self {
            PollStep::Health => if reachable {
                PollStep::Metrics
            } else {
                PollStep::Sleep
            },
            PollStep::Metrics => PollStep::Slots,
            PollStep::Slots => PollStep::Props,
            PollStep::Props => PollStep::Models,
            PollStep::Models => PollStep::Sleep,
            PollStep::Sleep => PollStep::Health,
        }
    }
}

/// The port that is polled.
pub fn poll_port(config: Option<&ServerConfig>) -> (r: u16)
    ensures
        r == match config {
            Some(c) => c.port,
            None => DEFAULT_PORT,
        },
{
    match config {
        Some(c) => c.port,
        None => DEFAULT_PORT,
    }
}

/// The status that a health answer states.
pub open spec fn stated_status(answer: JsonModel) -> Seq<char> {
    match member_text(answer, "status"@) {
        Some(t) => t,
        None => "unknown"@,
    }
}

/// The status that a health answer states.
pub fn status_of(answer: &Json) -> (r: String)
    ensures
        r@ == stated_status(answer@),
{
    match answer.get_text("status") {
        Some(t) => t.to_owned(),
        None => "unknown".to_owned(),
    }
}

/// The status of a server that answered its health check with `body`; a server that
/// did not, or not in JSON, has none.
pub fn health_status(body: Option<&str>) -> (r: Option<String>)
    ensures
        match body {
            Some(text) => match parsed_json(text@) {
                Ok(answer) => r is Some && r->0@ == stated_status(answer),
                Err(_) => r is None,
            },
            None => r is None,
        },
{
    match body {
        Some(text) => match read_json(text) {
            Ok(answer) => Some(status_of(&answer)),
            Err(_) => None,
        },
        None => None,
    }
}

/// Takes in a health check: the server's status, or none where it cannot be reached.
/// A few failures leave what is known of the server in place but for its gauges; too
/// many in a row forget it. Says whether the server can be reached.
pub fn on_health(
    stick: &mut HealthStickiness,
    metrics: &mut LlamaMetrics,
    model: &mut RunningModelInfo,
    status: Option<String>,
) -> (r: bool)
    requires
        old(metrics).wf(),
    ensures
        r == status is Some,
        *final(stick) == checked(*old(stick), status is Some),
        final(metrics).wf(),
        match status {
            Some(s) => {
                &&& *final(metrics) == LlamaMetrics { status: s, ..*old(metrics) }
                &&& *final(model) == *old(model)
            },
            None => if final(stick).consecutive_failures >= final(stick).threshold {
                &&& final(model)@ == unknown_model()
                &&& no_gauge(*final(metrics))
                &&& final(metrics).status@ == Seq::<char>::empty()
                &&& final(metrics).prompt_tokens_total == 0
                &&& final(metrics).predicted_tokens_total == 0
                &&& final(metrics).live_slots.slots.entries@.len() == 0
            } else {
                &&& *final(model) == *old(model)
                &&& final(metrics).status@ == Seq::<char>::empty()
                &&& *final(metrics) == LlamaMetrics {
                    status: final(metrics).status,
                    ..without_slots(without_metrics(*old(metrics)))
                }
            },
        },
{
    let reachable: bool = status.is_some();
    let given_up: bool = stick.on_health_result(reachable);
    if given_up {
        *metrics = LlamaMetrics::default();
        model.clear();
    }
    match status {
        Some(s) => {
            metrics.status = s;
            true
        },
        None => {
            metrics.clear_metrics_gauges();
            metrics.clear_slots_gauges();
            metrics.status = String::new();
            false
        },
    }
}

/// What the server's counters say of usage.
pub open spec fn sample_of(scraped: PrometheusValues) -> PrometheusUsageSample {
    PrometheusUsageSample {
        prompt: scraped.prompt_tokens_total,
        predicted: scraped.predicted_tokens_total,
        cached: scraped.prompt_tokens_cached_total,
        peak_context: scraped.n_tokens_max,
        mtp_draft: scraped.spec_decode_num_draft_tokens_total,
        mtp_accepted: scraped.spec_decode_num_accepted_tokens_total,
    }
}

/// Takes in the counters that the server answered, or that it did not answer.
pub fn on_metrics(
    metrics: &mut LlamaMetrics,
    usage: &mut UsageStats,
    body: Option<&str>,
    now: Moment,
    unix_secs: u64,
)
    requires
        old(metrics).wf(),
    ensures
        final(metrics).wf(),
        match body {
            Some(text) => {
                let scraped = after_text(no_values(), text@);
                &&& *final(metrics) == after_metrics(*old(metrics), scraped, now)
                &&& final(usage)@ == after_whole_sample(
                    old(usage)@,
                    sample_of(scraped),
                    unix_secs,
                )
            },
            None => *final(metrics) == without_metrics(*old(metrics)) && final(usage)@ == old(
                usage,
            )@,
        },
{
    match body {
        Some(text) => {
            let scraped = parse_prometheus_metrics(text);
            metrics.apply_metrics_at(&scraped, now);
            let sample = PrometheusUsageSample {
                prompt: scraped.prompt_tokens_total,
                predicted: scraped.predicted_tokens_total,
                cached: scraped.prompt_tokens_cached_total,
                peak_context: scraped.n_tokens_max,
                mtp_draft: scraped.spec_decode_num_draft_tokens_total,
                mtp_accepted: scraped.spec_decode_num_accepted_tokens_total,
            };
            usage.apply_sample_at(&sample, unix_secs);
        },
        None => {
            metrics.clear_metrics_gauges();
        },
    }
}

/// Whether an answer about slots can be used: a list, of a size that can be counted.
pub open spec fn is_slot_list(answer: JsonModel) -> bool {
    match answer {
        JsonModel::Array(items) => items.len() <= u32::MAX,
        _ => false,
    }
}

/// Takes in an answer about slots; one that is no list counts as none.
pub fn on_slot_answer(metrics: &mut LlamaMetrics, answer: Option<&Json>)
    requires
        old(metrics).wf(),
    ensures
        final(metrics).wf(),
        match answer {
            Some(a) => if is_slot_list(a@) {
                *final(metrics) == after_slots(*old(metrics), a@->Array_0)
            } else {
                *final(metrics) == without_slots(*old(metrics))
            },
            None => *final(metrics) == without_slots(*old(metrics)),
        },
{
    if let Some(Json::Array(items)) = answer {
        if items.len() as u64 <= u32::MAX as u64 {
            proof {
                assert(answer->0@->Array_0 =~= models(items@));
            }
            metrics.apply_slots(items.as_slice());
            return;
        }
    }
    metrics.clear_slots_gauges();
}

/// Takes in what the server answered about its slots, or that it did not answer.
pub fn on_slots(metrics: &mut LlamaMetrics, body: Option<&str>)
    requires
        old(metrics).wf(),
    ensures
        final(metrics).wf(),
        match body {
            Some(text) => match parsed_json(text@) {
                Ok(answer) => if is_slot_list(answer) {
                    *final(metrics) == after_slots(*old(metrics), answer->Array_0)
                } else {
                    *final(metrics) == without_slots(*old(metrics))
                },
                Err(_) => *final(metrics) == without_slots(*old(metrics)),
            },
            None => *final(metrics) == without_slots(*old(metrics)),
        },
{
    match body {
        Some(text) => match read_json(text) {
            Ok(answer) => on_slot_answer(metrics, Some(&answer)),
            Err(_) => on_slot_answer(metrics, None),
        },
        None => on_slot_answer(metrics, None),
    }
}

/// What all sources together tell directly, the preset among them where there is one.
pub open spec fn gathered_with(
    props: Option<Discovery>,
    models: Option<Discovery>,
    process: Option<ServerConfig>,
    preset: Option<ModelPreset>,
) -> RunningModel {
    match preset {
        Some(p) => gathered(
            props,
            models,
            process,
            Some(p.name@),
            Some(p.model_path@),
            Some(p.context_size),
        ),
        None => gathered(props, models, process, None, None, None),
    }
}

/// Takes in what the server told of its model, and merges it with what is known of its
/// process and of the preset that is selected by `preset_id`. Where neither endpoint
/// told anything, what is known stays.
pub fn refresh_running_model<F: Fn(&str) -> (Option<String>, Option<String>)>(
    model: &mut RunningModelInfo,
    props: Option<&ModelDiscoveryPartial>,
    models: Option<&ModelDiscoveryPartial>,
    process: Option<&ServerConfig>,
    presets: &Vec<ModelPreset>,
    preset_id: &str,
    split: F,
)
    requires
        forall|t: &str| call_requires(split, (t,)),
    ensures
        props is None && models is None ==> *final(model) == *old(model),
        props is Some || models is Some ==> merges_to(
            gathered_with(
                opt_discovery(props),
                opt_discovery(models),
                opt_config(process),
                preset_of(presets@, preset_id@),
            ),
            server_told(opt_discovery(props), opt_discovery(models)),
            split,
            final(model)@,
        ),
{
    if props.is_none() && models.is_none() {
        return;
    }
    *model = match selected_preset(presets, preset_id) {
        Some(i) => merge_running_model(
            props,
            models,
            process,
            Some(presets[i].name.as_str()),
            Some(presets[i].model_path.as_str()),
            Some(presets[i].context_size),
            split,
        ),
        None => merge_running_model(props, models, process, None, None, None, split),
    };
}

// ---------------------------------------------------------------------------
// Laws
// ---------------------------------------------------------------------------
/// What is asked after `n` steps of a server that can, or cannot, be reached.
pub open spec fn steps(step: PollStep, reachable: bool, n: nat) -> PollStep
    decreases n,
{
    if n == 0 {
        step
    } else {
        step_after(steps(step, reachable, (n - 1) as nat), reachable)
    }
}

/// Of a server that can be reached everything is asked in turn, and then the round
/// begins again.
pub proof fn law_reachable_server_is_asked_everything(from: PollStep, step: PollStep)
    ensures
        exists|n: nat| n < 6 && #[trigger] steps(from, true, n) == step,
        steps(from, true, 6) == from,
{
    reveal_with_fuel(steps, 7);
    assert(steps(from, true, 0) == step || steps(from, true, 1) == step || steps(from, true, 2)
        == step || steps(from, true, 3) == step || steps(from, true, 4) == step || steps(
        from,
        true,
        5,
    ) == step);
}

/// A server that cannot be reached is asked nothing but its health.
pub proof fn law_unreachable_server_is_left_alone(n: nat)
    ensures
        steps(PollStep::Health, false, n) == PollStep::Health || steps(
            PollStep::Health,
            false,
            n,
        ) == PollStep::Sleep,
    decreases n,
{
    if n > 0 {
        law_unreachable_server_is_left_alone((n - 1) as nat);
    }
}

/// A poll asks for health, counters, slots, properties and models in this order, and
/// sleeps; it sleeps at once where the server cannot be reached.
pub proof fn law_order_of_a_poll(reachable: bool)
    ensures
        step_after(PollStep::Sleep, reachable) == PollStep::Health,
        step_after(PollStep::Health, false) == PollStep::Sleep,
        steps(PollStep::Health, true, 1) == PollStep::Metrics,
        steps(PollStep::Health, true, 2) == PollStep::Slots,
        steps(PollStep::Health, true, 3) == PollStep::Props,
        steps(PollStep::Health, true, 4) == PollStep::Models,
        steps(PollStep::Health, true, 5) == PollStep::Sleep,
{
    reveal_with_fuel(steps, 6);
}

/// Usage is counted by the server's own counters: each total by its own.
pub proof fn law_usage_follows_the_counters(scraped: PrometheusValues)
    ensures
        sample_of(scraped).prompt == scraped.prompt_tokens_total,
        sample_of(scraped).predicted == scraped.predicted_tokens_total,
        sample_of(scraped).cached == scraped.prompt_tokens_cached_total,
        sample_of(scraped).peak_context == scraped.n_tokens_max,
        sample_of(scraped).mtp_draft == scraped.spec_decode_num_draft_tokens_total,
        sample_of(scraped).mtp_accepted == scraped.spec_decode_num_accepted_tokens_total,
{
}

/// A health answer states the text of its `status`, and is unknown without one; every
/// list of slots that can be counted can be used.
pub proof fn law_answers_are_read(answer: JsonModel, items: Seq<JsonModel>, t: Seq<char>)
    ensures
        crate::json::member(answer, "status"@) == Some(JsonModel::Text(t)) ==> stated_status(
            answer,
        ) == t,
        crate::json::member(answer, "status"@) is None ==> stated_status(answer) == "unknown"@,
        is_slot_list(JsonModel::Array(items)) == (items.len() <= 0xffff_ffff),
        !(answer is Array) ==> !is_slot_list(answer),
{
}

/// A preset that is selected tells its name, its path and its context size, where the
/// server and its process do not.
pub proof fn law_selected_preset_is_a_source(
    props: Option<Discovery>,
    models: Option<Discovery>,
    process: Option<ServerConfig>,
    preset: ModelPreset,
)
    ensures
        gathered_with(props, models, process, Some(preset)) == gathered(
            props,
            models,
            process,
            Some(preset.name@),
            Some(preset.model_path@),
            Some(preset.context_size),
        ),
        gathered_with(props, models, process, None) == gathered(
            props,
            models,
            process,
            None,
            None,
            None,
        ),
{
}

} // verus!
