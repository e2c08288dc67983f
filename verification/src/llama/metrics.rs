//! The server's `/metrics` and `/slots` endpoints, and the live snapshot.
use super::live_slots::{
    dashboard_view, line_event, slots_after, InferencePhase, LiveSlotTracker, SpeedKind,
};
use crate::binary::Binary64;
use crate::clock::Moment;
use crate::decimal::{float_value, parse_float};
use crate::json::{member, Json, JsonModel, Numeral};
use crate::text::{
    after_first_line, after_first_word, all_digits, chars_of, decimal_value, first_line, first_word,
    is_all_digits, is_digit, is_line_end, is_space, is_text, is_word, law_words_are_set_apart,
    lemma_first_line_is, lemma_first_line_of_lines, lemma_word_is_trimmed, parse_unsigned,
    split_line, split_word, trim, trimmed, without_prefix_char,
};
use vstd::prelude::*;

verus! {

// ---------------------------------------------------------------------------
// Counters
// ---------------------------------------------------------------------------
/// The counter that a number stands for: the number rounded to an integer, where it
/// is finite, not negative and fits.
pub open spec fn counter_value(x: Binary64) -> Option<u64> {
    if x.finite() && x.rank() >= 0 && x.rounded() <= u64::MAX {
        Some(x.rounded() as u64)
    } else {
        None
    }
}

/// The counter that a text writes. Digits alone are read as an integer, so that no
/// large counter is rounded; any other numeral goes through a float.
pub open spec fn counter_text(raw: Seq<char>) -> Option<u64> {
    let t = trimmed(raw);
    if t.len() == 0 {
        None
    } else if all_digits(t) {
        if decimal_value(t) <= u64::MAX {
            Some(decimal_value(t) as u64)
        } else {
            None
        }
    } else {
        match float_value(t) {
            Some(x) => counter_value(x),
            None => None,
        }
    }
}

/// Converts a Prometheus number to a counter: rejects what is not finite, negative
/// or too large.
pub fn prometheus_f64_to_u64(value: Binary64) -> (r: Option<u64>)
    ensures
        r == counter_value(value),
{
    if value.is_nonnegative() {
        value.round_u64()
    } else {
        None
    }
}

fn counter_of(raw: &[char]) -> (r: Option<u64>)
    ensures
        r == counter_text(raw@),
{
    let t = trim(raw);
    if t.len() == 0 {
        return None;
    }
    if is_all_digits(t) {
        assert(is_digit(t@[0]));
        assert(without_prefix_char(t@, '+') == t@);
        return parse_unsigned(t, u64::MAX);
    }
    match parse_float(t) {
        Some(x) => prometheus_f64_to_u64(x),
        None => None,
    }
}

/// Parses a Prometheus counter.
pub fn parse_prometheus_counter(raw: &str) -> (r: Option<u64>)
    ensures
        r == counter_text(raw@),
{
    let text = chars_of(raw);
    counter_of(text.as_slice())
}

// ---------------------------------------------------------------------------
// The `/metrics` endpoint
// ---------------------------------------------------------------------------
/// What a scrape of `/metrics` gave.
#[derive(Clone, Copy, Debug, PartialEq, Eq, Structural)]
pub struct PrometheusValues {
    /// Prompt tokens per second.
    pub prompt_tokens_per_sec: Binary64,
    /// Generated tokens per second.
    pub predicted_tokens_per_sec: Binary64,
    /// Prompt tokens of the server's session.
    pub prompt_tokens_total: u64,
    /// Seconds spent on prompts.
    pub prompt_seconds_total: Binary64,
    /// Generated tokens of the server's session.
    pub predicted_tokens_total: u64,
    /// Seconds spent on generation.
    pub predicted_seconds_total: Binary64,
    /// Requests in work.
    pub requests_processing: u32,
    /// Prompt tokens taken from the cache, where the server counts them.
    pub prompt_tokens_cached_total: Option<u64>,
    /// The high-water mark of the context.
    pub n_tokens_max: Option<u64>,
    /// Drafted tokens of speculative decoding.
    pub spec_decode_num_draft_tokens_total: Option<u64>,
    /// Accepted tokens of speculative decoding.
    pub spec_decode_num_accepted_tokens_total: Option<u64>,
    /// Drafts of speculative decoding.
    pub spec_decode_num_drafts_total: Option<u64>,
    /// Busy slots per decoding step.
    pub n_busy_slots_per_decode: Option<Binary64>,
}

/// A scrape that gave nothing.
pub open spec fn no_values() -> PrometheusValues {
    PrometheusValues {
        prompt_tokens_per_sec: Binary64 { bits: 0 },
        predicted_tokens_per_sec: Binary64 { bits: 0 },
        prompt_tokens_total: 0,
        prompt_seconds_total: Binary64 { bits: 0 },
        predicted_tokens_total: 0,
        predicted_seconds_total: Binary64 { bits: 0 },
        requests_processing: 0,
        prompt_tokens_cached_total: None,
        n_tokens_max: None,
        spec_decode_num_draft_tokens_total: None,
        spec_decode_num_accepted_tokens_total: None,
        spec_decode_num_drafts_total: None,
        n_busy_slots_per_decode: None,
    }
}

impl Default for PrometheusValues {
    fn default() -> (r: PrometheusValues)
        ensures
            r == no_values(),
    {
        PrometheusValues {
            prompt_tokens_per_sec: Binary64::zero(),
            predicted_tokens_per_sec: Binary64::zero(),
            prompt_tokens_total: 0,
            prompt_seconds_total: Binary64::zero(),
            predicted_tokens_total: 0,
            predicted_seconds_total: Binary64::zero(),
            requests_processing: 0,
            prompt_tokens_cached_total: None,
            n_tokens_max: None,
            spec_decode_num_draft_tokens_total: None,
            spec_decode_num_accepted_tokens_total: None,
            spec_decode_num_drafts_total: None,
            n_busy_slots_per_decode: None,
        }
    }
}

/// Accepted tokens per drafted token, where both are counted and any was drafted.
pub open spec fn acceptance_ratio(v: PrometheusValues) -> Option<Binary64> {
    match (v.spec_decode_num_draft_tokens_total, v.spec_decode_num_accepted_tokens_total) {
        (Some(draft), Some(accepted)) => if draft == 0 {
            None
        } else {
            Some(Binary64::of(accepted as nat).quotient(Binary64::of(draft as nat)))
        },
        _ => None,
    }
}

/// A number read into a gauge: a text that is no number leaves it alone.
pub open spec fn gauge_after(before: Binary64, raw: Seq<char>) -> Binary64 {
    match float_value(raw) {
        Some(x) => x,
        None => before,
    }
}

/// A counter, zero where the text writes none.
pub open spec fn counter_or_zero(raw: Seq<char>) -> u64 {
    match counter_text(raw) {
        Some(n) => n,
        None => 0,
    }
}

/// The requests in work after a sample: a number that is not finite or is negative
/// leaves them alone.
pub open spec fn requests_after(before: u32, raw: Seq<char>) -> u32 {
    match float_value(raw) {
        Some(x) => if x.finite() && x.rank() >= 0 {
            if x.rounded() <= u32::MAX {
                x.rounded() as u32
            } else {
                u32::MAX
            }
        } else {
            before
        },
        None => before,
    }
}

/// The busy slots per decoding step after a sample: a number that is not finite
/// leaves them alone.
pub open spec fn busy_after(before: Option<Binary64>, raw: Seq<char>) -> Option<Binary64> {
    match float_value(raw) {
        Some(x) => if x.finite() {
            Some(x)
        } else {
            before
        },
        None => before,
    }
}

/// The values after the sample `raw` of the series `name`.
pub open spec fn after_sample(v: PrometheusValues, name: Seq<char>, raw: Seq<char>) -> PrometheusValues {
    if name == "llamacpp:prompt_tokens_seconds"@ {
        PrometheusValues { prompt_tokens_per_sec: gauge_after(v.prompt_tokens_per_sec, raw), ..v }
    } else if name == "llamacpp:predicted_tokens_seconds"@ {
        PrometheusValues {
            predicted_tokens_per_sec: gauge_after(v.predicted_tokens_per_sec, raw),
            ..v
        }
    } else if name == "llamacpp:prompt_tokens_total"@ {
        PrometheusValues { prompt_tokens_total: counter_or_zero(raw), ..v }
    } else if name == "llamacpp:prompt_seconds_total"@ {
        PrometheusValues { prompt_seconds_total: gauge_after(v.prompt_seconds_total, raw), ..v }
    } else if name == "llamacpp:tokens_predicted_total"@ {
        PrometheusValues { predicted_tokens_total: counter_or_zero(raw), ..v }
    } else if name == "llamacpp:tokens_predicted_seconds_total"@ {
        PrometheusValues {
            predicted_seconds_total: gauge_after(v.predicted_seconds_total, raw),
            ..v
        }
    } else if name == "llamacpp:requests_processing"@ {
        PrometheusValues { requests_processing: requests_after(v.requests_processing, raw), ..v }
    } else if name == "llamacpp:prompt_tokens_cached_total"@ {
        PrometheusValues { prompt_tokens_cached_total: counter_text(raw), ..v }
    } else if name == "llamacpp:n_tokens_max"@ {
        PrometheusValues { n_tokens_max: counter_text(raw), ..v }
    } else if name == "llamacpp:spec_decode_num_draft_tokens_total"@ {
        PrometheusValues { spec_decode_num_draft_tokens_total: counter_text(raw), ..v }
    } else if name == "llamacpp:spec_decode_num_accepted_tokens_total"@ {
        PrometheusValues { spec_decode_num_accepted_tokens_total: counter_text(raw), ..v }
    } else if name == "llamacpp:spec_decode_num_drafts_total"@ {
        PrometheusValues { spec_decode_num_drafts_total: counter_text(raw), ..v }
    } else if name == "llamacpp:n_busy_slots_per_decode"@ {
        PrometheusValues {
            n_busy_slots_per_decode: busy_after(v.n_busy_slots_per_decode, raw),
            ..v
        }
    } else {
        v
    }
}

/// The values after a line: comments, empty lines and lines without two words leave
/// them alone.
pub open spec fn after_line(v: PrometheusValues, line: Seq<char>) -> PrometheusValues {
    let name = first_word(line);
    let raw = first_word(after_first_word(line));
    if line.len() == 0 || line[0] == '#' || name.len() == 0 || raw.len() == 0 {
        v
    } else {
        after_sample(v, name, raw)
    }
}

/// The values after all lines of a text.
pub open spec fn after_text(v: PrometheusValues, body: Seq<char>) -> PrometheusValues
    decreases body.len(),
{
    if body.len() == 0 {
        v
    } else {
        after_text(after_line(v, first_line(body)), after_first_line(body))
    }
}

impl PrometheusValues {
    /// Accepted tokens per drafted token.
    pub fn speculative_acceptance_ratio(&self) -> (r: Option<Binary64>)
        ensures
            r == acceptance_ratio(*self),
    {
        match (self.spec_decode_num_draft_tokens_total, self.spec_decode_num_accepted_tokens_total) {
            (Some(draft), Some(accepted)) => if draft == 0 {
                None
            } else {
                Some(Binary64::from_u64(accepted).over(Binary64::from_u64(draft)))
            },
            _ => None,
        }
    }

    fn read_gauge(before: Binary64, raw: &[char]) -> (r: Binary64)
        ensures
            r == gauge_after(before, raw@),
    {
        match parse_float(raw) {
            Some(x) => x,
            None => before,
        }
    }

    fn read_counter(raw: &[char]) -> (r: u64)
        ensures
            r == counter_or_zero(raw@),
    {
        match counter_of(raw) {
            Some(n) => n,
            None => 0,
        }
    }

    fn read_requests(before: u32, raw: &[char]) -> (r: u32)
        ensures
            r == requests_after(before, raw@),
    {
        match parse_float(raw) {
            Some(x) => if x.is_nonnegative() {
                match x.round_u64() {
                    Some(n) => if n <= u32::MAX as u64 {
                        n as u32
                    } else {
                        u32::MAX
                    },
                    None => u32::MAX,
                }
            } else {
                before
            },
            None => before,
        }
    }

    fn read_sample(&mut self, name: &[char], raw: &[char])
        ensures
            *final(self) == after_sample(*old(self), name@, raw@),
    {
        if is_text(name, "llamacpp:prompt_tokens_seconds") {
            self.prompt_tokens_per_sec = Self::read_gauge(self.prompt_tokens_per_sec, raw);
        } else if is_text(name, "llamacpp:predicted_tokens_seconds") {
            self.predicted_tokens_per_sec = Self::read_gauge(self.predicted_tokens_per_sec, raw);
        } else if is_text(name, "llamacpp:prompt_tokens_total") {
            self.prompt_tokens_total = Self::read_counter(raw);
        } else if is_text(name, "llamacpp:prompt_seconds_total") {
            self.prompt_seconds_total = Self::read_gauge(self.prompt_seconds_total, raw);
        } else if is_text(name, "llamacpp:tokens_predicted_total") {
            self.predicted_tokens_total = Self::read_counter(raw);
        } else if is_text(name, "llamacpp:tokens_predicted_seconds_total") {
            self.predicted_seconds_total = Self::read_gauge(self.predicted_seconds_total, raw);
        } else if is_text(name, "llamacpp:requests_processing") {
            self.requests_processing = Self::read_requests(self.requests_processing, raw);
        } else if is_text(name, "llamacpp:prompt_tokens_cached_total") {
            self.prompt_tokens_cached_total = counter_of(raw);
        } else if is_text(name, "llamacpp:n_tokens_max") {
            self.n_tokens_max = counter_of(raw);
        } else if is_text(name, "llamacpp:spec_decode_num_draft_tokens_total") {
            self.spec_decode_num_draft_tokens_total = counter_of(raw);
        } else if is_text(name, "llamacpp:spec_decode_num_accepted_tokens_total") {
            self.spec_decode_num_accepted_tokens_total = counter_of(raw);
        } else if is_text(name, "llamacpp:spec_decode_num_drafts_total") {
            self.spec_decode_num_drafts_total = counter_of(raw);
        } else if is_text(name, "llamacpp:n_busy_slots_per_decode") {
            if let Some(x) = parse_float(raw) {
                if x.is_finite() {
                    self.n_busy_slots_per_decode = Some(x);
                }
            }
        }
    }

    fn read_line(&mut self, line: &[char])
        ensures
            *final(self) == after_line(*old(self), line@),
    {
        if line.len() == 0 || line[0] == '#' {
            return;
        }
        let (name, rest) = split_word(line);
        let (raw, _) = split_word(rest);
        if name.len() == 0 || raw.len() == 0 {
            return;
        }
        self.read_sample(name, raw);
    }
}

/// Parses the Prometheus text format and extracts the series of interest.
pub fn parse_prometheus_metrics(body: &str) -> (r: PrometheusValues)
    ensures
        r == after_text(no_values(), body@),
{
    let text = chars_of(body);
    let mut vals = PrometheusValues::default();
    let mut rest = text.as_slice();
    while rest.len() > 0
        invariant
            after_text(vals, rest@) == after_text(no_values(), body@),
        decreases rest@.len(),
    {
        let (line, after) = split_line(rest);
        vals.read_line(line);
        rest = after;
    }
    vals
}

// ---------------------------------------------------------------------------
// The `/slots` endpoint
// ---------------------------------------------------------------------------
/// What JSON values are.
pub open spec fn models(values: Seq<Json>) -> Seq<JsonModel> {
    Seq::new(values.len(), |i: int| values[i]@)
}

/// The counter that a JSON number stands for.
pub open spec fn numeral_counter(n: Numeral) -> Option<u64> {
    match n {
        Numeral::Unsigned(u) => Some(u),
        Numeral::Negative(_) => None,
        Numeral::Float(x) => counter_value(x),
    }
}

/// The counter that the member `key` stands for.
pub open spec fn member_counter(value: JsonModel, key: Seq<char>) -> Option<u64> {
    match member(value, key) {
        Some(JsonModel::Number(n)) => numeral_counter(n),
        _ => None,
    }
}

/// Whether a slot says that it is at work.
pub open spec fn is_busy(slot: JsonModel) -> bool {
    member(slot, "is_processing"@) == Some(JsonModel::Bool(true))
}

/// The number of slots at work.
pub open spec fn busy_count(slots: Seq<JsonModel>) -> nat
    decreases slots.len(),
{
    if slots.len() == 0 {
        0
    } else {
        busy_count(slots.drop_last()) + if is_busy(slots.last()) {
            1nat
        } else {
            0
        }
    }
}

/// The tokens that a slot has decoded: its own count, or that of its next token,
/// or that of the first of its next tokens.
pub open spec fn decoded_tokens(slot: JsonModel) -> u64 {
    match (member_counter(slot, "n_decoded"@), member(slot, "next_token"@)) {
        (Some(n), _) => n,
        (None, None) => 0,
        (None, Some(next)) => match (member_counter(next, "n_decoded"@), next) {
            (Some(n), _) => n,
            (None, JsonModel::Array(items)) => if items.len() > 0 {
                match member_counter(items[0], "n_decoded"@) {
                    Some(n) => n,
                    None => 0,
                }
            } else {
                0
            },
            (None, _) => 0,
        },
    }
}

/// The context size of a slot.
pub open spec fn slot_context(slot: JsonModel) -> Option<u64> {
    member_counter(slot, "n_ctx"@)
}

/// The tokens that a slot holds, before its context size limits them: `n_past`,
/// or else `n_prompt_tokens`, which counts generated tokens already, or else the
/// decoded tokens.
pub open spec fn held_tokens(slot: JsonModel) -> u64 {
    match (member_counter(slot, "n_past"@), member_counter(slot, "n_prompt_tokens"@)) {
        (Some(n), _) => n,
        (None, Some(n)) => n,
        (None, None) => decoded_tokens(slot),
    }
}

/// The tokens that a slot holds, no more than its context size.
pub open spec fn used_tokens(slot: JsonModel) -> u64 {
    match slot_context(slot) {
        Some(n) => if held_tokens(slot) <= n {
            held_tokens(slot)
        } else {
            n
        },
        None => held_tokens(slot),
    }
}

/// The tokens that all slots hold.
pub open spec fn total_used(slots: Seq<JsonModel>) -> nat
    decreases slots.len(),
{
    if slots.len() == 0 {
        0
    } else {
        total_used(slots.drop_last()) + used_tokens(slots.last()) as nat
    }
}

/// The context sizes of all slots together.
pub open spec fn total_context(slots: Seq<JsonModel>) -> nat
    decreases slots.len(),
{
    if slots.len() == 0 {
        0
    } else {
        total_context(slots.drop_last()) + match slot_context(slots.last()) {
            Some(n) => n as nat,
            None => 0,
        }
    }
}

/// A count, no more than a machine word holds.
pub open spec fn capped(n: nat) -> u64 {
    if n <= u64::MAX {
        n as u64
    } else {
        u64::MAX
    }
}

fn json_u64(v: &Json, key: &str) -> (r: Option<u64>)
    ensures
        r == member_counter(v@, key@),
{
    match v.get(key) {
        Some(Json::Number(n)) => match n {
            Numeral::Unsigned(u) => Some(*u),
            Numeral::Negative(_) => None,
            Numeral::Float(x) => prometheus_f64_to_u64(*x),
        },
        _ => None,
    }
}

fn slot_decoded_tokens(slot: &Json) -> (r: u64)
    ensures
        r == decoded_tokens(slot@),
{
    if let Some(n) = json_u64(slot, "n_decoded") {
        return n;
    }
    let next = match slot.get("next_token") {
        Some(next) => next,
        None => return 0,
    };
    if let Some(n) = json_u64(next, "n_decoded") {
        return n;
    }
    match next.first_item() {
        Some(first) => match json_u64(first, "n_decoded") {
            Some(n) => n,
            None => 0,
        },
        None => 0,
    }
}

fn slot_used_tokens(slot: &Json) -> (r: u64)
    ensures
        r == used_tokens(slot@),
{
    let held: u64 = match json_u64(slot, "n_past") {
        Some(n) => n,
        None => match json_u64(slot, "n_prompt_tokens") {
            Some(n) => n,
            None => slot_decoded_tokens(slot),
        },
    };
    match json_u64(slot, "n_ctx") {
        Some(n) => if held <= n {
            held
        } else {
            n
        },
        None => held,
    }
}

/// The tokens that all slots hold, and their context sizes together.
pub fn slots_kv_usage(slots: &[Json]) -> (r: (u64, u64))
    ensures
        r.0 == capped(total_used(models(slots@))),
        r.1 == capped(total_context(models(slots@))),
{
    let mut used: u64 = 0;
    let mut max: u64 = 0;
    let n: usize = slots.len();
    let mut i: usize = 0;
    let ghost all = models(slots@);
    assert(all.take(0) =~= Seq::<JsonModel>::empty());
    while i < n
        invariant
            n == slots@.len(),
            i <= n,
            all == models(slots@),
            used == capped(total_used(all.take(i as int))),
            max == capped(total_context(all.take(i as int))),
        decreases n - i,
    {
        let slot = &slots[i];
        proof {
            assert(all.take(i + 1).drop_last() =~= all.take(i as int));
            assert(all.take(i + 1).last() == slot@);
        }
        let n_ctx: u64 = match json_u64(slot, "n_ctx") {
            Some(n) => n,
            None => 0,
        };
        max = max.saturating_add(n_ctx);
        used = used.saturating_add(slot_used_tokens(slot));
        i = i + 1;
    }
    assert(all.take(n as int) =~= all);
    (used, max)
}

// ---------------------------------------------------------------------------
// The snapshot
// ---------------------------------------------------------------------------
/// The live snapshot of the server. A gauge is absent where its source failed; zero
/// is a valid idle reading.
pub struct LlamaMetrics {
    /// Prompt tokens per second.
    pub prompt_tokens_per_sec: Option<Binary64>,
    /// Generated tokens per second.
    pub generation_tokens_per_sec: Option<Binary64>,
    /// What the server is doing, by its log lines.
    pub inference_phase: Option<InferencePhase>,
    /// Whether the prompt speed is live or retained.
    pub prompt_speed_kind: Option<SpeedKind>,
    /// Whether the generation speed is live or retained.
    pub generation_speed_kind: Option<SpeedKind>,
    /// The average speed of the whole generation.
    pub generation_tokens_per_sec_avg: Option<Binary64>,
    /// Prompt tokens of the server's session.
    pub prompt_tokens_total: u64,
    /// Generated tokens of the server's session.
    pub predicted_tokens_total: u64,
    /// Tokens that the slots hold.
    pub kv_cache_tokens: Option<u64>,
    /// Tokens that the slots can hold.
    pub kv_cache_max: Option<u64>,
    /// The high-water mark of the context, not what is held now.
    pub n_tokens_max: Option<u64>,
    /// Slots at rest.
    pub slots_idle: Option<u32>,
    /// Slots at work.
    pub slots_processing: Option<u32>,
    /// Requests in work.
    pub requests_processing: Option<u32>,
    /// Drafted tokens of speculative decoding.
    pub spec_draft_tokens: Option<u64>,
    /// Accepted tokens of speculative decoding.
    pub spec_accepted_tokens: Option<u64>,
    /// Drafts of speculative decoding.
    pub spec_drafts: Option<u64>,
    /// Accepted tokens per drafted token.
    pub spec_acceptance_ratio: Option<Binary64>,
    /// Busy slots per decoding step.
    pub n_busy_slots_per_decode: Option<Binary64>,
    /// The server's health.
    pub status: String,
    /// The slots that log lines have told of.
    pub live_slots: LiveSlotTracker,
}

impl Default for LlamaMetrics {
    fn default() -> (r: LlamaMetrics)
        ensures
            r.wf(),
            r.live_slots.slots.entries@.len() == 0,
            r.live_slots@ == Map::<int, super::live_slots::SlotLiveState>::empty(),
            r.status@ == Seq::<char>::empty(),
            no_gauge(r),
            r.prompt_tokens_total == 0,
            r.predicted_tokens_total == 0,
    {
        LlamaMetrics {
            prompt_tokens_per_sec: None,
            generation_tokens_per_sec: None,
            inference_phase: None,
            prompt_speed_kind: None,
            generation_speed_kind: None,
            generation_tokens_per_sec_avg: None,
            prompt_tokens_total: 0,
            predicted_tokens_total: 0,
            kv_cache_tokens: None,
            kv_cache_max: None,
            n_tokens_max: None,
            slots_idle: None,
            slots_processing: None,
            requests_processing: None,
            spec_draft_tokens: None,
            spec_accepted_tokens: None,
            spec_drafts: None,
            spec_acceptance_ratio: None,
            n_busy_slots_per_decode: None,
            status: String::new(),
            live_slots: LiveSlotTracker::default(),
        }
    }
}

/// Whether every gauge of a snapshot is absent.
pub open spec fn no_gauge(m: LlamaMetrics) -> bool {
    &&& m.prompt_tokens_per_sec is None
    &&& m.generation_tokens_per_sec is None
    &&& m.inference_phase is None
    &&& m.prompt_speed_kind is None
    &&& m.generation_speed_kind is None
    &&& m.generation_tokens_per_sec_avg is None
    &&& m.kv_cache_tokens is None
    &&& m.kv_cache_max is None
    &&& m.n_tokens_max is None
    &&& m.slots_idle is None
    &&& m.slots_processing is None
    &&& m.requests_processing is None
    &&& m.spec_draft_tokens is None
    &&& m.spec_accepted_tokens is None
    &&& m.spec_drafts is None
    &&& m.spec_acceptance_ratio is None
    &&& m.n_busy_slots_per_decode is None
}

/// The snapshot with the speeds and the phase that the log lines tell at `now`;
/// without a log line about any slot it stays as it is.
pub open spec fn published(m: LlamaMetrics, now: Moment) -> LlamaMetrics {
    let slots = m.live_slots.slots.entries@;
    let view = dashboard_view(slots, now);
    if slots.len() == 0 {
        m
    } else {
        LlamaMetrics {
            prompt_tokens_per_sec: view.prompt_tokens_per_sec,
            generation_tokens_per_sec: view.generation_tokens_per_sec,
            generation_tokens_per_sec_avg: view.generation_tokens_per_sec_avg,
            inference_phase: Some(view.phase),
            prompt_speed_kind: view.prompt_speed_kind,
            generation_speed_kind: view.generation_speed_kind,
            ..m
        }
    }
}

/// The snapshot after a scrape of `/metrics`.
pub open spec fn after_metrics(m: LlamaMetrics, prom: PrometheusValues, now: Moment) -> LlamaMetrics {
    published(
        LlamaMetrics {
            prompt_tokens_total: prom.prompt_tokens_total,
            predicted_tokens_total: prom.predicted_tokens_total,
            requests_processing: Some(prom.requests_processing),
            n_tokens_max: prom.n_tokens_max,
            spec_draft_tokens: prom.spec_decode_num_draft_tokens_total,
            spec_accepted_tokens: prom.spec_decode_num_accepted_tokens_total,
            spec_drafts: prom.spec_decode_num_drafts_total,
            spec_acceptance_ratio: acceptance_ratio(prom),
            n_busy_slots_per_decode: prom.n_busy_slots_per_decode,
            ..m
        },
        now,
    )
}

/// The snapshot after a scrape of `/slots`.
pub open spec fn after_slots(m: LlamaMetrics, slots: Seq<JsonModel>) -> LlamaMetrics {
    LlamaMetrics {
        slots_idle: Some((slots.len() - busy_count(slots)) as u32),
        slots_processing: Some(busy_count(slots) as u32),
        kv_cache_tokens: Some(capped(total_used(slots))),
        kv_cache_max: Some(capped(total_context(slots))),
        ..m
    }
}

/// The snapshot after `/metrics` could not be scraped.
pub open spec fn without_metrics(m: LlamaMetrics) -> LlamaMetrics {
    LlamaMetrics { requests_processing: None, ..m }
}

/// The snapshot after `/slots` could not be scraped.
pub open spec fn without_slots(m: LlamaMetrics) -> LlamaMetrics {
    LlamaMetrics {
        kv_cache_tokens: None,
        kv_cache_max: None,
        slots_idle: None,
        slots_processing: None,
        ..m
    }
}

fn slot_is_busy(slot: &Json) -> (r: bool)
    ensures
        r == is_busy(slot@),
{
    match slot.get("is_processing") {
        Some(Json::Bool(b)) => *b,
        _ => false,
    }
}

impl LlamaMetrics {
    /// Whether the slots stand in order.
    pub open spec fn wf(&self) -> bool {
        self.live_slots.wf()
    }

    /// Takes in a scrape of `/metrics`. The scrape's own speeds are averages, so
    /// the speeds shown come from the log lines alone.
    pub fn apply_metrics_at(&mut self, prom: &PrometheusValues, now: Moment)
        requires
            old(self).wf(),
        ensures
            final(self).wf(),
            *final(self) == after_metrics(*old(self), *prom, now),
    {
        self.prompt_tokens_total = prom.prompt_tokens_total;
        self.predicted_tokens_total = prom.predicted_tokens_total;
        self.requests_processing = Some(prom.requests_processing);
        self.n_tokens_max = prom.n_tokens_max;
        self.spec_draft_tokens = prom.spec_decode_num_draft_tokens_total;
        self.spec_accepted_tokens = prom.spec_decode_num_accepted_tokens_total;
        self.spec_drafts = prom.spec_decode_num_drafts_total;
        self.spec_acceptance_ratio = prom.speculative_acceptance_ratio();
        self.n_busy_slots_per_decode = prom.n_busy_slots_per_decode;
        self.publish_live_from_logs(now);
    }

    /// Takes in a log line of the server.
    pub fn apply_log_line_at(&mut self, line: &str, now: Moment)
        requires
            old(self).wf(),
        ensures
            final(self).wf(),
            match line_event(line@) {
                Some(event) => {
                    &&& final(self).live_slots@ == slots_after(old(self).live_slots@, event, now)
                    &&& *final(self) == published(
                        LlamaMetrics { live_slots: final(self).live_slots, ..*old(self) },
                        now,
                    )
                },
                None => *final(self) == *old(self),
            },
    {
        if self.live_slots.apply_line(line, now) {
            self.publish_live_from_logs(now);
        }
    }

    /// Tells live speeds from retained ones anew, as time passes.
    pub fn refresh_live(&mut self, now: Moment)
        requires
            old(self).wf(),
        ensures
            final(self).wf(),
            *final(self) == published(*old(self), now),
    {
        self.publish_live_from_logs(now);
    }

    fn publish_live_from_logs(&mut self, now: Moment)
        requires
            old(self).wf(),
        ensures
            final(self).wf(),
            *final(self) == published(*old(self), now),
    {
        if self.live_slots.is_empty() {
            return;
        }
        let view = self.live_slots.dashboard(now);
        self.prompt_tokens_per_sec = view.prompt_tokens_per_sec;
        self.generation_tokens_per_sec = view.generation_tokens_per_sec;
        self.generation_tokens_per_sec_avg = view.generation_tokens_per_sec_avg;
        self.inference_phase = Some(view.phase);
        self.prompt_speed_kind = view.prompt_speed_kind;
        self.generation_speed_kind = view.generation_speed_kind;
    }

    /// `/metrics` could not be scraped: its occupancy gauge is unavailable.
    pub fn clear_metrics_gauges(&mut self)
        ensures
            *final(self) == without_metrics(*old(self)),
    {
        self.requests_processing = None;
    }

    /// Takes in a scrape of `/slots`.
    pub fn apply_slots(&mut self, slots: &[Json])
        requires
            slots@.len() <= u32::MAX,
        ensures
            *final(self) == after_slots(*old(self), models(slots@)),
    {
        let mut processing: u32 = 0;
        let n: usize = slots.len();
        let mut i: usize = 0;
        let ghost all = models(slots@);
        assert(all.take(0) =~= Seq::<JsonModel>::empty());
        while i < n
            invariant
                n == slots@.len(),
                n <= u32::MAX,
                i <= n,
                all == models(slots@),
                processing == busy_count(all.take(i as int)),
                processing <= i,
            decreases n - i,
        {
            proof {
                assert(all.take(i + 1).drop_last() =~= all.take(i as int));
                assert(all.take(i + 1).last() == slots@[i as int]@);
            }
            if slot_is_busy(&slots[i]) {
                processing = processing + 1;
            }
            i = i + 1;
        }
        assert(all.take(n as int) =~= all);
        let (kv_used, kv_max) = slots_kv_usage(slots);
        self.slots_idle = Some(n as u32 - processing);
        self.slots_processing = Some(processing);
        self.kv_cache_tokens = Some(kv_used);
        self.kv_cache_max = Some(kv_max);
    }

    /// `/slots` could not be scraped: its gauges are unavailable.
    pub fn clear_slots_gauges(&mut self)
        ensures
            *final(self) == without_slots(*old(self)),
    {
        self.kv_cache_tokens = None;
        self.kv_cache_max = None;
        self.slots_idle = None;
        self.slots_processing = None;
    }

    /// The requests in work, none where that is unknown.
    pub fn busy_requests(&self) -> (r: u32)
        ensures
            r == match self.requests_processing {
                Some(n) => n,
                None => 0,
            },
    {
        match self.requests_processing {
            Some(n) => n,
            None => 0,
        }
    }

    /// The slots at work, none where that is unknown.
    pub fn busy_slots(&self) -> (r: u32)
        ensures
            r == match self.slots_processing {
                Some(n) => n,
                None => 0,
            },
    {
        match self.slots_processing {
            Some(n) => n,
            None => 0,
        }
    }
}

// ---------------------------------------------------------------------------
// Laws
// ---------------------------------------------------------------------------
/// Whether a series is one of interest.
pub open spec fn is_series(name: Seq<char>) -> bool {
    ||| name == "llamacpp:prompt_tokens_seconds"@
    ||| name == "llamacpp:predicted_tokens_seconds"@
    ||| name == "llamacpp:prompt_tokens_total"@
    ||| name == "llamacpp:prompt_seconds_total"@
    ||| name == "llamacpp:tokens_predicted_total"@
    ||| name == "llamacpp:tokens_predicted_seconds_total"@
    ||| name == "llamacpp:requests_processing"@
    ||| name == "llamacpp:prompt_tokens_cached_total"@
    ||| name == "llamacpp:n_tokens_max"@
    ||| name == "llamacpp:spec_decode_num_draft_tokens_total"@
    ||| name == "llamacpp:spec_decode_num_accepted_tokens_total"@
    ||| name == "llamacpp:spec_decode_num_drafts_total"@
    ||| name == "llamacpp:n_busy_slots_per_decode"@
}

/// Whether a line tells nothing: it is empty, a comment, or of no series of interest.
pub open spec fn is_silent(line: Seq<char>) -> bool {
    line.len() == 0 || line[0] == '#' || !is_series(first_word(line))
}

/// The lines of a text that may tell something, in their order.
pub open spec fn telling_lines(body: Seq<char>) -> Seq<Seq<char>>
    decreases body.len(),
{
    if body.len() == 0 {
        Seq::empty()
    } else if is_silent(first_line(body)) {
        telling_lines(after_first_line(body))
    } else {
        seq![first_line(body)] + telling_lines(after_first_line(body))
    }
}

/// The values after some lines.
pub open spec fn after_lines(v: PrometheusValues, lines: Seq<Seq<char>>) -> PrometheusValues
    decreases lines.len(),
{
    if lines.len() == 0 {
        v
    } else {
        after_lines(after_line(v, lines[0]), lines.drop_first())
    }
}

/// Comments, empty lines and lines of other series are as good as absent: a scrape
/// gives what its telling lines give. Two bodies with the same telling lines, among
/// whatever other lines, give the same values, and a body without any gives none.
pub proof fn law_only_telling_lines_matter(v: PrometheusValues, body: Seq<char>)
    ensures
        after_text(v, body) == after_lines(v, telling_lines(body)),
        telling_lines(body).len() == 0 ==> after_text(v, body) == v,
    decreases body.len(),
{
    if body.len() > 0 {
        let line = first_line(body);
        let rest = after_first_line(body);
        law_only_telling_lines_matter(after_line(v, line), rest);
        if !is_silent(line) {
            assert(telling_lines(body).drop_first() =~= telling_lines(rest));
        }
    }
}

/// A line that tells nothing may be inserted between any two lines of a body, and
/// before the first and behind the last: the values stay the same. `a` holds whole
/// lines, and `end` is the line end of the inserted one.
pub proof fn law_silent_line_may_be_inserted(
    v: PrometheusValues,
    a: Seq<char>,
    line: Seq<char>,
    end: Seq<char>,
    b: Seq<char>,
)
    requires
        a.len() == 0 || a.last() == '\n',
        !line.contains('\n'),
        is_silent(line),
        is_line_end(line, end, b),
    ensures
        telling_lines(a + (line + end + b)) == telling_lines(a + b),
        after_text(v, a + (line + end + b)) == after_text(v, a + b),
    decreases a.len(),
{
    let more = line + end + b;
    if a.len() == 0 {
        assert(a + more =~= more);
        assert(a + b =~= b);
        lemma_first_line_is(line, end, b);
    } else {
        lemma_first_line_of_lines(a, more);
        lemma_first_line_of_lines(a, b);
        law_silent_line_may_be_inserted(v, after_first_line(a), line, end, b);
    }
    law_only_telling_lines_matter(v, a + more);
    law_only_telling_lines_matter(v, a + b);
}

/// The averages that a scrape reports as speeds never reach the snapshot.
pub proof fn law_scraped_speeds_are_not_live(
    m: LlamaMetrics,
    prom: PrometheusValues,
    other: PrometheusValues,
    now: Moment,
)
    requires
        other == (PrometheusValues {
            prompt_tokens_per_sec: other.prompt_tokens_per_sec,
            predicted_tokens_per_sec: other.predicted_tokens_per_sec,
            prompt_seconds_total: other.prompt_seconds_total,
            predicted_seconds_total: other.predicted_seconds_total,
            ..prom
        }),
    ensures
        after_metrics(m, prom, now) == after_metrics(m, other, now),
{
}

/// Without a log line about any slot, no scrape makes up a speed or a phase.
pub proof fn law_no_log_no_speed(m: LlamaMetrics, prom: PrometheusValues, now: Moment)
    requires
        m.live_slots.slots.entries@.len() == 0,
    ensures
        after_metrics(m, prom, now).prompt_tokens_per_sec == m.prompt_tokens_per_sec,
        after_metrics(m, prom, now).generation_tokens_per_sec == m.generation_tokens_per_sec,
        after_metrics(m, prom, now).inference_phase == m.inference_phase,
{
}

/// The high-water mark of the context is never shown as what the slots hold.
pub proof fn law_peak_is_not_occupancy(m: LlamaMetrics, prom: PrometheusValues, now: Moment)
    ensures
        after_metrics(m, prom, now).kv_cache_tokens == m.kv_cache_tokens,
        after_metrics(m, prom, now).kv_cache_max == m.kv_cache_max,
        after_metrics(m, prom, now).n_tokens_max == prom.n_tokens_max,
{
}

/// A failed scrape keeps the session counters and the speeds.
pub proof fn law_failed_scrape_keeps_counters(m: LlamaMetrics)
    ensures
        without_metrics(m).prompt_tokens_total == m.prompt_tokens_total,
        without_metrics(m).predicted_tokens_total == m.predicted_tokens_total,
        without_metrics(m).prompt_tokens_per_sec == m.prompt_tokens_per_sec,
        without_metrics(m).generation_tokens_per_sec == m.generation_tokens_per_sec,
        without_slots(m).prompt_tokens_total == m.prompt_tokens_total,
        without_slots(m).predicted_tokens_total == m.predicted_tokens_total,
{
}

/// Decoded tokens are never added to the tokens that a slot says it holds.
pub proof fn law_decoded_is_not_added(slot: JsonModel, held: u64)
    requires
        member_counter(slot, "n_past"@) == Some(held) || (member_counter(slot, "n_past"@) is None
            && member_counter(slot, "n_prompt_tokens"@) == Some(held)),
    ensures
        used_tokens(slot) == match slot_context(slot) {
            Some(context) => if held < context {
                held
            } else {
                context
            },
            None => held,
        },
{
}

/// Where every slot states its context size, the slots hold no more than they can.
pub proof fn law_used_within_context(slots: Seq<JsonModel>)
    requires
        forall|i: int| 0 <= i < slots.len() ==> slot_context(#[trigger] slots[i]) is Some,
    ensures
        total_used(slots) <= total_context(slots),
        capped(total_used(slots)) <= capped(total_context(slots)),
    decreases slots.len(),
{
    if slots.len() > 0 {
        assert forall|i: int| 0 <= i < slots.drop_last().len() implies slot_context(
            #[trigger] slots.drop_last()[i],
        ) is Some by {
            assert(slots.drop_last()[i] == slots[i]);
        }
        law_used_within_context(slots.drop_last());
        assert(slot_context(slots[slots.len() - 1]) is Some);
    }
}

proof fn lemma_busy_count(slots: Seq<JsonModel>)
    ensures
        busy_count(slots) <= slots.len(),
    decreases slots.len(),
{
    if slots.len() > 0 {
        lemma_busy_count(slots.drop_last());
    }
}

/// Every slot is either at rest or at work.
pub proof fn law_slots_are_idle_or_busy(m: LlamaMetrics, slots: Seq<JsonModel>)
    requires
        slots.len() <= u32::MAX,
    ensures
        after_slots(m, slots).slots_idle is Some,
        after_slots(m, slots).slots_processing is Some,
        after_slots(m, slots).slots_idle->0 + after_slots(m, slots).slots_processing->0
            == slots.len(),
{
    lemma_busy_count(slots);
}

/// A counter written in digits is read exactly, however large.
pub proof fn law_digits_are_exact(raw: Seq<char>)
    requires
        raw.len() > 0,
        all_digits(raw),
        decimal_value(raw) <= u64::MAX,
    ensures
        counter_text(raw) == Some(decimal_value(raw) as u64),
{
    assert(is_digit(raw[0]) && is_digit(raw[raw.len() - 1]));
}

proof fn lemma_text_in_two(v: PrometheusValues, a: Seq<char>, b: Seq<char>)
    requires
        a.len() == 0 || a.last() == '\n',
    ensures
        after_text(v, a + b) == after_text(after_text(v, a), b),
    decreases a.len(),
{
    if a.len() == 0 {
        assert(a + b =~= b);
    } else {
        lemma_first_line_of_lines(a, b);
        lemma_first_line_of_lines(a, Seq::empty());
        assert(a + Seq::<char>::empty() =~= a);
        lemma_text_in_two(after_line(v, first_line(a)), after_first_line(a), b);
    }
}

/// A sample sets the value of its series and nothing else: a line behind others that
/// names a series and writes a value puts that value in the place of what the lines
/// before gave. A counter that a server must count is zero where the text is none, one
/// that it may count is absent then, and a text that is no number leaves a gauge as it
/// is.
pub proof fn law_sample_sets_its_series(
    v: PrometheusValues,
    lines: Seq<char>,
    name: Seq<char>,
    space: Seq<char>,
    raw: Seq<char>,
    rest: Seq<char>,
    end: Seq<char>,
)
    requires
        lines.len() == 0 || lines.last() == '\n',
        is_word(name),
        name[0] != '#',
        is_word(raw),
        space.len() > 0,
        forall|i: int| 0 <= i < space.len() ==> is_space(#[trigger] space[i]),
        rest.len() == 0 || is_space(rest[0]),
        !(name + space + raw + rest).contains('\n'),
        is_line_end(name + space + raw + rest, end, Seq::empty()),
    ensures
        ({
            let before = after_text(v, lines);
            let after = after_text(v, lines + (name + space + raw + rest + end));
            let counter = counter_text(raw);
            let number = float_value(raw);
            let total = match counter {
                Some(n) => n,
                None => 0,
            };
            &&& name == "llamacpp:prompt_tokens_seconds"@ ==> after == (PrometheusValues {
                prompt_tokens_per_sec: if number is Some {
                    number->0
                } else {
                    before.prompt_tokens_per_sec
                },
                ..before
            })
            &&& name == "llamacpp:predicted_tokens_seconds"@ ==> after == (PrometheusValues {
                predicted_tokens_per_sec: if number is Some {
                    number->0
                } else {
                    before.predicted_tokens_per_sec
                },
                ..before
            })
            &&& name == "llamacpp:prompt_tokens_total"@ ==> after == (PrometheusValues {
                prompt_tokens_total: total,
                ..before
            })
            &&& name == "llamacpp:prompt_seconds_total"@ ==> after == (PrometheusValues {
                prompt_seconds_total: if number is Some {
                    number->0
                } else {
                    before.prompt_seconds_total
                },
                ..before
            })
            &&& name == "llamacpp:tokens_predicted_total"@ ==> after == (PrometheusValues {
                predicted_tokens_total: total,
                ..before
            })
            &&& name == "llamacpp:tokens_predicted_seconds_total"@ ==> after == (PrometheusValues {
                predicted_seconds_total: if number is Some {
                    number->0
                } else {
                    before.predicted_seconds_total
                },
                ..before
            })
            &&& name == "llamacpp:requests_processing"@ ==> after == (PrometheusValues {
                requests_processing: if number is Some && number->0.finite() && number->0.rank()
                    >= 0 {
                    if number->0.rounded() <= u32::MAX {
                        number->0.rounded() as u32
                    } else {
                        u32::MAX
                    }
                } else {
                    before.requests_processing
                },
                ..before
            })
            &&& name == "llamacpp:prompt_tokens_cached_total"@ ==> after == (PrometheusValues {
                prompt_tokens_cached_total: counter,
                ..before
            })
            &&& name == "llamacpp:n_tokens_max"@ ==> after == (PrometheusValues {
                n_tokens_max: counter,
                ..before
            })
            &&& name == "llamacpp:spec_decode_num_draft_tokens_total"@ ==> after == (
            PrometheusValues { spec_decode_num_draft_tokens_total: counter, ..before })
            &&& name == "llamacpp:spec_decode_num_accepted_tokens_total"@ ==> after == (
            PrometheusValues { spec_decode_num_accepted_tokens_total: counter, ..before })
            &&& name == "llamacpp:spec_decode_num_drafts_total"@ ==> after == (PrometheusValues {
                spec_decode_num_drafts_total: counter,
                ..before
            })
            &&& name == "llamacpp:n_busy_slots_per_decode"@ ==> after == (PrometheusValues {
                n_busy_slots_per_decode: if number is Some && number->0.finite() {
                    number
                } else {
                    before.n_busy_slots_per_decode
                },
                ..before
            })
        }),
{
    let line = name + space + raw + rest;
    let none = Seq::<char>::empty();
    law_words_are_set_apart(name, space, raw, rest);
    assert(line[0] == name[0]);
    lemma_text_in_two(v, lines, line + end);
    lemma_first_line_is(line, end, none);
    assert(line + end + none =~= line + end);
    let w = after_text(v, lines);
    assert(after_text(w, line + end) == after_text(after_line(w, line), none));
    lemma_series_differ();
}

proof fn lemma_series_differ()
    ensures
        "llamacpp:prompt_tokens_seconds"@.len() == 30,
        "llamacpp:predicted_tokens_seconds"@.len() == 33,
        "llamacpp:prompt_tokens_total"@.len() == 28,
        "llamacpp:prompt_seconds_total"@.len() == 29,
        "llamacpp:tokens_predicted_total"@.len() == 31,
        "llamacpp:tokens_predicted_seconds_total"@.len() == 39,
        "llamacpp:requests_processing"@.len() == 28,
        "llamacpp:prompt_tokens_cached_total"@.len() == 35,
        "llamacpp:n_tokens_max"@.len() == 21,
        "llamacpp:spec_decode_num_draft_tokens_total"@.len() == 43,
        "llamacpp:spec_decode_num_accepted_tokens_total"@.len() == 46,
        "llamacpp:spec_decode_num_drafts_total"@.len() == 37,
        "llamacpp:n_busy_slots_per_decode"@.len() == 32,
        "llamacpp:prompt_tokens_total"@ != "llamacpp:requests_processing"@,
{
    reveal_strlit("llamacpp:prompt_tokens_seconds");
    reveal_strlit("llamacpp:predicted_tokens_seconds");
    reveal_strlit("llamacpp:prompt_tokens_total");
    reveal_strlit("llamacpp:prompt_seconds_total");
    reveal_strlit("llamacpp:tokens_predicted_total");
    reveal_strlit("llamacpp:tokens_predicted_seconds_total");
    reveal_strlit("llamacpp:requests_processing");
    reveal_strlit("llamacpp:prompt_tokens_cached_total");
    reveal_strlit("llamacpp:n_tokens_max");
    reveal_strlit("llamacpp:spec_decode_num_draft_tokens_total");
    reveal_strlit("llamacpp:spec_decode_num_accepted_tokens_total");
    reveal_strlit("llamacpp:spec_decode_num_drafts_total");
    reveal_strlit("llamacpp:n_busy_slots_per_decode");
    assert("llamacpp:prompt_tokens_total"@[9] != "llamacpp:requests_processing"@[9]);
}

/// A counter is the number that its text writes, in any notation: digits alone are read
/// as they stand, any other numeral is rounded to an integer. No counter is a number that
/// is not finite, is negative, or does not fit in 64 bits, nor a text that is no number.
pub proof fn law_counter_is_the_number_written(raw: Seq<char>)
    requires
        is_word(raw),
    ensures
        all_digits(raw) ==> counter_text(raw) == if decimal_value(raw) <= u64::MAX {
            Some(decimal_value(raw) as u64)
        } else {
            None
        },
        !all_digits(raw) && float_value(raw) is None ==> counter_text(raw) is None,
        !all_digits(raw) && float_value(raw) is Some ==> {
            let x = float_value(raw)->0;
            let fits = x.finite() && x.rank() >= 0 && x.rounded() <= u64::MAX;
            counter_text(raw) == if fits {
                Some(x.rounded() as u64)
            } else {
                None
            }
        },
{
    lemma_word_is_trimmed(raw);
}

/// The slots at work are those that say so, and the others are idle: as many as there
/// are.
pub proof fn law_slots_at_work_are_counted(m: LlamaMetrics, slots: Seq<JsonModel>)
    requires
        slots.len() <= u32::MAX,
    ensures
        ({
            let busy = slots.filter(
                |slot: JsonModel| member(slot, "is_processing"@) == Some(JsonModel::Bool(true)),
            ).len();
            &&& after_slots(m, slots).slots_processing == Some(busy as u32)
            &&& after_slots(m, slots).slots_idle == Some((slots.len() - busy) as u32)
            &&& busy <= slots.len()
        }),
{
    lemma_busy_are_filtered(slots);
    lemma_busy_count(slots);
}

proof fn lemma_busy_are_filtered(slots: Seq<JsonModel>)
    ensures
        busy_count(slots) == slots.filter(
            |slot: JsonModel| member(slot, "is_processing"@) == Some(JsonModel::Bool(true)),
        ).len(),
    decreases slots.len(),
{
    reveal(Seq::filter);
    if slots.len() > 0 {
        lemma_busy_are_filtered(slots.drop_last());
    }
}

/// The counter that a member of a slot states: an integer that is not negative, or another
/// number rounded to one.
pub open spec fn stated(slot: JsonModel, key: Seq<char>) -> Option<u64> {
    match member(slot, key) {
        Some(JsonModel::Number(Numeral::Unsigned(n))) => Some(n),
        Some(JsonModel::Number(Numeral::Float(x))) => if x.finite() && x.rank() >= 0
            && x.rounded() <= u64::MAX {
            Some(x.rounded() as u64)
        } else {
            None
        },
        _ => None,
    }
}

/// The lesser of two counts.
pub open spec fn lesser(a: int, b: int) -> int {
    if a <= b {
        a
    } else {
        b
    }
}

/// Every slot counts: one more slot adds one to those at work or to those at rest, its
/// context size to what all can hold, and the tokens it holds, no more than its context
/// size, to what all hold. These are `n_past`, or else `n_prompt_tokens`, or else the
/// decoded tokens of the slot or of its next token. No slots hold nothing.
pub proof fn law_every_slot_counts(m: LlamaMetrics, slots: Seq<JsonModel>, slot: JsonModel)
    requires
        slots.len() < u32::MAX,
    ensures
        ({
            let before = after_slots(m, slots);
            let after = after_slots(m, slots.push(slot));
            let none = after_slots(m, Seq::empty());
            let works = member(slot, "is_processing"@) == Some(JsonModel::Bool(true));
            let context = stated(slot, "n_ctx"@);
            let next = member(slot, "next_token"@);
            let decoded = if stated(slot, "n_decoded"@) is Some {
                stated(slot, "n_decoded"@)
            } else if next is Some && stated(next->0, "n_decoded"@) is Some {
                stated(next->0, "n_decoded"@)
            } else if next is Some && next->0 is Array && next->0->Array_0.len() > 0 {
                stated(next->0->Array_0[0], "n_decoded"@)
            } else {
                None
            };
            let held = if stated(slot, "n_past"@) is Some {
                stated(slot, "n_past"@)->0
            } else if stated(slot, "n_prompt_tokens"@) is Some {
                stated(slot, "n_prompt_tokens"@)->0
            } else if decoded is Some {
                decoded->0
            } else {
                0
            };
            let used = if context is Some {
                lesser(held as int, context->0 as int)
            } else {
                held as int
            };
            &&& none.slots_processing == Some(0u32) && none.slots_idle == Some(0u32)
            &&& none.kv_cache_tokens == Some(0u64) && none.kv_cache_max == Some(0u64)
            &&& after.slots_processing->0 == before.slots_processing->0 + if works {
                1int
            } else {
                0
            }
            &&& after.slots_idle->0 == before.slots_idle->0 + if works {
                0int
            } else {
                1
            }
            &&& after.kv_cache_tokens->0 == lesser(
                before.kv_cache_tokens->0 + used,
                u64::MAX as int,
            )
            &&& after.kv_cache_max->0 == lesser(
                before.kv_cache_max->0 + if context is Some {
                    context->0 as int
                } else {
                    0
                },
                u64::MAX as int,
            )
        }),
{
    assert(slots.push(slot).drop_last() =~= slots);
    lemma_busy_count(slots);
}

/// What is shown of a scrape of the slots and of one of the counters leaves all else as it
/// was, and what could not be scraped is shown as absent.
pub proof fn law_scrapes_change_their_own(m: LlamaMetrics, slots: Seq<JsonModel>)
    ensures
        after_slots(m, slots) == (LlamaMetrics {
            slots_idle: after_slots(m, slots).slots_idle,
            slots_processing: after_slots(m, slots).slots_processing,
            kv_cache_tokens: after_slots(m, slots).kv_cache_tokens,
            kv_cache_max: after_slots(m, slots).kv_cache_max,
            ..m
        }),
        without_slots(m) == (LlamaMetrics {
            slots_idle: None,
            slots_processing: None,
            kv_cache_tokens: None,
            kv_cache_max: None,
            ..m
        }),
        without_metrics(m) == (LlamaMetrics { requests_processing: None, ..m }),
{
}

/// A scrape of the counters is shown as it is: every counter and gauge of it that the
/// snapshot has is the scrape's, the share of accepted tokens is accepted by drafted where
/// any were drafted, and all else stays but what the log lines tell.
pub proof fn law_scrape_is_shown(m: LlamaMetrics, prom: PrometheusValues, now: Moment)
    ensures
        ({
            let after = after_metrics(m, prom, now);
            let slots = m.live_slots.slots.entries@;
            let view = dashboard_view(slots, now);
            let draft = prom.spec_decode_num_draft_tokens_total;
            let accepted = prom.spec_decode_num_accepted_tokens_total;
            let heard = slots.len() > 0;
            after == (LlamaMetrics {
                prompt_tokens_total: prom.prompt_tokens_total,
                predicted_tokens_total: prom.predicted_tokens_total,
                requests_processing: Some(prom.requests_processing),
                n_tokens_max: prom.n_tokens_max,
                spec_draft_tokens: draft,
                spec_accepted_tokens: accepted,
                spec_drafts: prom.spec_decode_num_drafts_total,
                spec_acceptance_ratio: if draft is Some && accepted is Some && draft->0 > 0 {
                    Some(
                        Binary64::of(accepted->0 as nat).quotient(
                            Binary64::of(draft->0 as nat),
                        ),
                    )
                } else {
                    None
                },
                n_busy_slots_per_decode: prom.n_busy_slots_per_decode,
                prompt_tokens_per_sec: if heard {
                    view.prompt_tokens_per_sec
                } else {
                    m.prompt_tokens_per_sec
                },
                generation_tokens_per_sec: if heard {
                    view.generation_tokens_per_sec
                } else {
                    m.generation_tokens_per_sec
                },
                generation_tokens_per_sec_avg: if heard {
                    view.generation_tokens_per_sec_avg
                } else {
                    m.generation_tokens_per_sec_avg
                },
                inference_phase: if heard {
                    Some(view.phase)
                } else {
                    m.inference_phase
                },
                prompt_speed_kind: if heard {
                    view.prompt_speed_kind
                } else {
                    m.prompt_speed_kind
                },
                generation_speed_kind: if heard {
                    view.generation_speed_kind
                } else {
                    m.generation_speed_kind
                },
                ..m
            })
        }),
{
}

/// As time passes, the snapshot shows what the dashboard of the log lines shows, and
/// nothing else of it changes.
pub proof fn law_time_passes_on_the_dashboard(m: LlamaMetrics, now: Moment)
    ensures
        m.live_slots.slots.entries@.len() == 0 ==> published(m, now) == m,
        m.live_slots.slots.entries@.len() > 0 ==> {
            let view = dashboard_view(m.live_slots.slots.entries@, now);
            published(m, now) == (LlamaMetrics {
                prompt_tokens_per_sec: view.prompt_tokens_per_sec,
                generation_tokens_per_sec: view.generation_tokens_per_sec,
                generation_tokens_per_sec_avg: view.generation_tokens_per_sec_avg,
                inference_phase: Some(view.phase),
                prompt_speed_kind: view.prompt_speed_kind,
                generation_speed_kind: view.generation_speed_kind,
                ..m
            })
        },
{
}

/// A server that told nothing has counted nothing, and comments tell nothing.
pub proof fn law_silence_tells_nothing(v: PrometheusValues, line: Seq<char>)
    ensures
        after_text(v, Seq::empty()) == v,
        line.len() > 0 && line[0] == '#' ==> after_line(v, line) == v,
        no_values().prompt_tokens_total == 0 && no_values().predicted_tokens_total == 0,
        no_values().prompt_tokens_per_sec.bits == 0 && no_values().predicted_tokens_per_sec.bits
            == 0,
        no_values().prompt_seconds_total.bits == 0 && no_values().predicted_seconds_total.bits == 0,
        no_values().requests_processing == 0,
        no_values().prompt_tokens_cached_total is None && no_values().n_tokens_max is None,
        no_values().spec_decode_num_draft_tokens_total is None,
        no_values().spec_decode_num_accepted_tokens_total is None,
        no_values().spec_decode_num_drafts_total is None,
        no_values().n_busy_slots_per_decode is None,
{
}

/// A counter of a line is the number that its text writes, in any notation: the two totals
/// that every server has are those numbers after the line, and zero where the text writes
/// none.
pub proof fn law_totals_are_read_in_any_notation(
    v: PrometheusValues,
    lines: Seq<char>,
    name: Seq<char>,
    raw: Seq<char>,
)
    requires
        lines.len() == 0 || lines.last() == '\n',
        name == "llamacpp:prompt_tokens_total"@ || name == "llamacpp:tokens_predicted_total"@,
        is_word(raw),
        !raw.contains('\n'),
    ensures
        ({
            let after = after_text(v, lines + (name + seq![' '] + raw + seq!['\n']));
            let total = if name == "llamacpp:prompt_tokens_total"@ {
                after.prompt_tokens_total
            } else {
                after.predicted_tokens_total
            };
            let x = float_value(raw)->0;
            &&& all_digits(raw) && decimal_value(raw) <= u64::MAX ==> total == decimal_value(raw)
            &&& !all_digits(raw) && float_value(raw) is Some && x.finite() && x.rank() >= 0
                && x.rounded() <= u64::MAX ==> total == x.rounded()
        }),
{
    reveal_strlit("llamacpp:prompt_tokens_total");
    reveal_strlit("llamacpp:tokens_predicted_total");
    let none = Seq::<char>::empty();
    let space = seq![' '];
    let end = seq!['\n'];
    let line = name + space + raw + none;
    assert(line =~= name + space + raw);
    assert forall|i: int| 0 <= i < name.len() implies !is_space(#[trigger] name[i]) && name[i]
        != '\n' by {}
    assert forall|i: int| 0 <= i < raw.len() implies !is_space(#[trigger] raw[i]) by {}
    if line.contains('\n') {
        let i = line.index_of('\n');
        if i < name.len() {
            assert(name[i] == '\n');
        } else if i > name.len() {
            assert(raw[i - name.len() - 1] == '\n');
            assert(raw.contains('\n'));
        }
    }
    assert(line.last() == raw[raw.len() - 1]);
    law_sample_sets_its_series(v, lines, name, space, raw, none, end);
    law_counter_is_the_number_written(raw);
    lemma_series_differ();
}

} // verus!
