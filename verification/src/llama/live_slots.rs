//! Live speed and phase of each server slot, read from the server's log lines.
use crate::binary::Binary64;
use crate::clock::{elapsed, Moment};
use crate::decimal::{float_value, parse_float};
use crate::table::Table;
use crate::text::{
    all_digits, chars_of, contains, decimal_value, find, first_part, first_place, has_prefix, holds,
    has_part, is_alphanumeric, is_ascii_alphanumeric, is_ascii_digit, is_digit, is_space,
    is_white_space, law_first_place, law_held_is_a_part, lemma_leading_space, lemma_run_length,
    lemma_trailing_space, occurs_at, parse_unsigned, rest_from, run_length, skip_char, starts_with,
    trim_end, trim_start, without_leading_space, without_prefix_char, without_trailing_space,
};
use vstd::prelude::*;

verus! {

/// A live generation print older than this many nanoseconds is shown as last, not
/// live.
pub const LIVE_STALE: u64 = 8_000_000_000;

/// What the server is doing as a whole.
#[derive(Clone, Copy, Debug, PartialEq, Eq, Structural)]
pub enum InferencePhase {
    /// No slot is live.
    Idle,
    /// Some slot reads its prompt and none generates.
    Prefill,
    /// Some slot generates.
    Generation,
}

impl Default for InferencePhase {
    fn default() -> (r: InferencePhase)
        ensures
            r == InferencePhase::Idle,
    {
        InferencePhase::Idle
    }
}

/// Whether a speed is read now or retained.
#[derive(Clone, Copy, Debug, PartialEq, Eq, Structural)]
pub enum SpeedKind {
    /// Read from a live slot.
    Live,
    /// The last reading, retained.
    Last,
}

/// What one slot is doing.
#[derive(Clone, Copy, Debug, PartialEq, Eq, Structural)]
pub enum SlotPhase {
    /// Nothing.
    Idle,
    /// Reading its prompt.
    Prefill,
    /// Generating.
    Generation,
}

/// What is known of one slot.
#[derive(Clone, Copy, Debug, PartialEq, Eq, Structural)]
pub struct SlotLiveState {
    /// The task the slot last worked on.
    pub task_id: Option<u64>,
    /// What the slot is doing.
    pub phase: SlotPhase,
    /// The last prompt speed.
    pub prompt_speed: Option<Binary64>,
    /// The last generation speed.
    pub generation_speed: Option<Binary64>,
    /// The last whole-generation average speed.
    pub generation_speed_avg: Option<Binary64>,
    /// When the slot was last heard of.
    pub last_update: Moment,
}

/// What a log line reports of a slot.
#[derive(Clone, Copy, Debug, PartialEq, Eq, Structural)]
pub enum LiveLogEvent {
    /// A task starts.
    Launch {
        /// The slot.
        slot_id: u32,
        /// The task.
        task_id: u64,
    },
    /// The prompt is being read.
    Prefill {
        /// The slot.
        slot_id: u32,
        /// The task.
        task_id: u64,
        /// The prompt speed.
        prompt_speed: Binary64,
    },
    /// Tokens are being generated.
    Generation {
        /// The slot.
        slot_id: u32,
        /// The task.
        task_id: u64,
        /// The average speed of the whole generation.
        tg: Option<Binary64>,
        /// The speed of the last three seconds.
        tg_3s: Binary64,
    },
    /// The prompt has been read.
    PromptEvalDone {
        /// The slot.
        slot_id: u32,
        /// The task.
        task_id: u64,
        /// The prompt speed.
        tokens_per_sec: Binary64,
    },
    /// The generation has ended.
    EvalDone {
        /// The slot.
        slot_id: u32,
        /// The task.
        task_id: u64,
        /// The generation speed.
        tokens_per_sec: Binary64,
    },
    /// The slot is free again.
    Release {
        /// The slot.
        slot_id: u32,
        /// The task.
        task_id: u64,
    },
}

/// What the dashboard shows of all slots together.
#[derive(Clone, Copy, Debug, PartialEq, Eq, Structural)]
pub struct LiveDashboardView {
    /// What the server is doing.
    pub phase: InferencePhase,
    /// The prompt speed.
    pub prompt_tokens_per_sec: Option<Binary64>,
    /// The generation speed.
    pub generation_tokens_per_sec: Option<Binary64>,
    /// The average speed of the whole generation.
    pub generation_tokens_per_sec_avg: Option<Binary64>,
    /// Whether the prompt speed is live or retained.
    pub prompt_speed_kind: Option<SpeedKind>,
    /// Whether the generation speed is live or retained.
    pub generation_speed_kind: Option<SpeedKind>,
}

impl Default for LiveDashboardView {
    fn default() -> (r: LiveDashboardView)
        ensures
            r == empty_view(),
    {
        LiveDashboardView {
            phase: InferencePhase::Idle,
            prompt_tokens_per_sec: None,
            generation_tokens_per_sec: None,
            generation_tokens_per_sec_avg: None,
            prompt_speed_kind: None,
            generation_speed_kind: None,
        }
    }
}

/// What the dashboard shows where no slot has been heard of.
pub open spec fn empty_view() -> LiveDashboardView {
    LiveDashboardView {
        phase: InferencePhase::Idle,
        prompt_tokens_per_sec: None,
        generation_tokens_per_sec: None,
        generation_tokens_per_sec_avg: None,
        prompt_speed_kind: None,
        generation_speed_kind: None,
    }
}

// ---------------------------------------------------------------------------
// Reading log lines
// ---------------------------------------------------------------------------
/// The number that the digits at the start of a text write, where it fits.
pub open spec fn leading_u64(s: Seq<char>) -> Option<u64> {
    let digits = s.take(run_length(s, |c: char| is_digit(c)) as int);
    if digits.len() > 0 && decimal_value(digits) <= u64::MAX {
        Some(decimal_value(digits) as u64)
    } else {
        None
    }
}

/// A character that may stand in a floating-point numeral.
pub open spec fn is_numeral_char(c: char) -> bool {
    is_digit(c) || c == '.' || c == '-' || c == '+' || c == 'e' || c == 'E'
}

/// The number at the start of a text, where it is finite and not negative.
pub open spec fn leading_float(s: Seq<char>) -> Option<Binary64> {
    let numeral = s.take(run_length(s, |c: char| is_numeral_char(c)) as int);
    match float_value(numeral) {
        Some(x) => if numeral.len() > 0 && x.finite() && x.rank() >= 0 {
            Some(x)
        } else {
            None
        },
        None => None,
    }
}

/// Whether a word may start at place `i`: no letter or digit stands before it.
pub open spec fn starts_word(s: Seq<char>, i: nat) -> bool {
    i == 0 || !is_alphanumeric(s[i - 1])
}

/// Whether a word may end before place `i`: no letter, digit or underscore stands
/// there.
pub open spec fn ends_word(s: Seq<char>, i: nat) -> bool {
    i >= s.len() || (!is_alphanumeric(s[i as int]) && s[i as int] != '_')
}

/// The number after a key, past an optional colon and an optional bar.
pub open spec fn value_after(rest: Seq<char>) -> Option<u64> {
    let past_colon = without_leading_space(
        without_prefix_char(without_leading_space(rest), ':'),
    );
    leading_u64(without_leading_space(without_prefix_char(past_colon, '|')))
}

/// The number after the first occurrence of `key`, from place `i` on, that is a
/// word of its own and is followed by a number.
pub open spec fn keyed_u64_from(s: Seq<char>, key: Seq<char>, i: nat) -> Option<u64>
    decreases s.len() + 1 - i,
{
    if i + key.len() > s.len() {
        None
    } else if occurs_at(s, key, i) && starts_word(s, i) && ends_word(s, i + key.len())
        && value_after(s.skip((i + key.len()) as int)) is Some {
        value_after(s.skip((i + key.len()) as int))
    } else {
        keyed_u64_from(s, key, i + 1)
    }
}

/// The number after the first occurrence of `key` that is a word of its own and is
/// followed by a number.
pub open spec fn keyed_u64(s: Seq<char>, key: Seq<char>) -> Option<u64> {
    keyed_u64_from(s, key, 0)
}

/// The slot and task that a line names.
pub open spec fn slot_and_task(s: Seq<char>) -> Option<(u32, u64)> {
    match (keyed_u64(s, "id"@), keyed_u64(s, "task"@)) {
        (Some(id), Some(task)) => if id <= u32::MAX {
            Some((id as u32, task))
        } else {
            None
        },
        _ => None,
    }
}

/// The number after a tag, past an optional equals sign.
pub open spec fn float_after(rest: Seq<char>) -> Option<Binary64> {
    leading_float(without_leading_space(without_prefix_char(without_leading_space(rest), '=')))
}

/// The number after the first occurrence of `tag`.
pub open spec fn tagged_float(s: Seq<char>, tag: Seq<char>) -> Option<Binary64> {
    match first_place(s, tag) {
        Some(i) => float_after(s.skip((i + tag.len()) as int)),
        None => None,
    }
}

/// The number after the first `tg`, from place `i` on, that starts a word, is not
/// part of `tg_3s` and is followed by a number.
pub open spec fn whole_average_from(s: Seq<char>, i: nat) -> Option<Binary64>
    decreases s.len() + 1 - i,
{
    if i + 2 > s.len() {
        None
    } else if occurs_at(s, "tg"@, i) && !has_prefix(s.skip((i + 2) as int), "_3s"@)
        && starts_word(s, i) && float_after(s.skip((i + 2) as int)) is Some {
        float_after(s.skip((i + 2) as int))
    } else {
        whole_average_from(s, i + 1)
    }
}

/// A character between two words of a speed report.
pub open spec fn is_separator(c: char) -> bool {
    is_space(c) || c == '/'
}

/// The longest suffix without separators.
pub open spec fn last_run(s: Seq<char>) -> Seq<char>
    decreases s.len(),
{
    if s.len() > 0 && !is_separator(s.last()) {
        last_run(s.drop_last()).push(s.last())
    } else {
        Seq::empty()
    }
}

/// The last word of a text, empty where it has none.
pub open spec fn last_word(s: Seq<char>) -> Seq<char>
    decreases s.len(),
{
    if s.len() > 0 && is_separator(s.last()) {
        last_word(s.drop_last())
    } else {
        last_run(s)
    }
}

/// The speed before the first `tokens per second`.
pub open spec fn reported_speed(s: Seq<char>) -> Option<Binary64> {
    match first_place(s, "tokens per second"@) {
        Some(i) => leading_float(last_word(without_trailing_space(s.take(i as int)))),
        None => None,
    }
}

/// What a log line reports.
pub open spec fn line_event(s: Seq<char>) -> Option<LiveLogEvent> {
    match slot_and_task(s) {
        None => None,
        Some((slot_id, task_id)) => if holds(s, "stop processing"@) {
            Some(LiveLogEvent::Release { slot_id, task_id })
        } else if (holds(s, "launch_slot"@) || holds(s, "processing task"@)) && !holds(
            s,
            "prompt processing"@,
        ) && !holds(s, "tg_3s"@) && !holds(s, "eval time"@) {
            Some(LiveLogEvent::Launch { slot_id, task_id })
        } else if tagged_float(s, "tg_3s"@) is Some {
            Some(
                LiveLogEvent::Generation {
                    slot_id,
                    task_id,
                    tg: whole_average_from(s, 0),
                    tg_3s: tagged_float(s, "tg_3s"@)->0,
                },
            )
        } else if reported_speed(s) is None {
            None
        } else if holds(s, "prompt processing"@) {
            Some(
                LiveLogEvent::Prefill { slot_id, task_id, prompt_speed: reported_speed(s)->0 },
            )
        } else if holds(s, "prompt eval time"@) {
            Some(
                LiveLogEvent::PromptEvalDone {
                    slot_id,
                    task_id,
                    tokens_per_sec: reported_speed(s)->0,
                },
            )
        } else if holds(s, "eval time"@) {
            Some(LiveLogEvent::EvalDone { slot_id, task_id, tokens_per_sec: reported_speed(s)->0 })
        } else {
            None
        },
    }
}

proof fn lemma_digit_run(s: Seq<char>, n: nat)
    requires
        n <= s.len(),
        all_digits(s.take(n as int)),
    ensures
        n > 0 ==> without_prefix_char(s.take(n as int), '+') == s.take(n as int),
{
    if n > 0 {
        assert(is_digit(s.take(n as int)[0]));
    }
}

/// The number that the digits at the start of a text write, where it fits.
pub fn parse_leading_u64(s: &[char]) -> (r: Option<u64>)
    ensures
        r == leading_u64(s@),
{
    let mut end: usize = 0;
    while end < s.len() && is_ascii_digit(s[end])
        invariant
            end <= s@.len(),
            forall|j: int| 0 <= j < end ==> is_digit(#[trigger] s@[j]),
        decreases s@.len() - end,
    {
        end = end + 1;
    }
    proof {
        lemma_run_length(s@, |c: char| is_digit(c), end as nat);
    }
    if end == 0 {
        return None;
    }
    let digits = first_part(s, end);
    proof {
        lemma_digit_run(s@, end as nat);
    }
    parse_unsigned(digits, u64::MAX)
}

/// The number at the start of a text, where it is finite and not negative.
pub fn parse_leading_float(s: &[char]) -> (r: Option<Binary64>)
    ensures
        r == leading_float(s@),
{
    let mut end: usize = 0;
    while end < s.len() && (is_ascii_digit(s[end]) || s[end] == '.' || s[end] == '-' || s[end]
        == '+' || s[end] == 'e' || s[end] == 'E')
        invariant
            end <= s@.len(),
            forall|j: int| 0 <= j < end ==> is_numeral_char(#[trigger] s@[j]),
        decreases s@.len() - end,
    {
        end = end + 1;
    }
    proof {
        lemma_run_length(s@, |c: char| is_numeral_char(c), end as nat);
    }
    if end == 0 {
        return None;
    }
    match parse_float(first_part(s, end)) {
        Some(x) => if x.is_nonnegative() {
            Some(x)
        } else {
            None
        },
        None => None,
    }
}

/// The number after the first occurrence of `key` that is a word of its own and is
/// followed by a number.
pub fn scan_key_u64(line: &[char], key: &str) -> (r: Option<u64>)
    requires
        key@.len() > 0,
    ensures
        r == keyed_u64(line@, key@),
{
    let pattern = chars_of(key);
    let k: usize = pattern.len();
    let n: usize = line.len();
    let mut i: usize = 0;
    while i < n && k <= n - i
        invariant
            pattern@ == key@,
            k == key@.len(),
            k > 0,
            n == line@.len(),
            i <= n,
            keyed_u64_from(line@, key@, i as nat) == keyed_u64(line@, key@),
        decreases n - i,
    {
        let here = rest_from(line, i);
        assert(line@.skip(i as int).take(k as int) =~= line@.subrange(i as int, i + k));
        if starts_with(here, pattern.as_slice()) {
            let before_ok: bool = i == 0 || !is_ascii_alphanumeric(line[i - 1]);
            let after: usize = i + k;
            let after_ok: bool = after >= n || (!is_ascii_alphanumeric(line[after]) && line[after]
                != '_');
            if before_ok && after_ok {
                let past_colon = trim_start(skip_char(trim_start(rest_from(line, after)), ':'));
                let value = parse_leading_u64(trim_start(skip_char(past_colon, '|')));
                if value.is_some() {
                    return value;
                }
            }
        }
        i = i + 1;
    }
    None
}

/// The slot and task that a line names.
pub fn parse_id_task(line: &[char]) -> (r: Option<(u32, u64)>)
    ensures
        r == slot_and_task(line@),
{
    proof {
        reveal_strlit("id");
        reveal_strlit("task");
    }
    let id: u64 = match scan_key_u64(line, "id") {
        Some(id) => id,
        None => return None,
    };
    let task: u64 = match scan_key_u64(line, "task") {
        Some(task) => task,
        None => return None,
    };
    if id <= u32::MAX as u64 {
        Some((id as u32, task))
    } else {
        None
    }
}

fn find_tagged_float(hay: &[char], tag: &str) -> (r: Option<Binary64>)
    ensures
        r == tagged_float(hay@, tag@),
{
    let pattern = chars_of(tag);
    let n: usize = hay.len();
    match find(hay, pattern.as_slice()) {
        Some(i) => {
            let rest = rest_from(hay, i + pattern.len());
            parse_leading_float(trim_start(skip_char(trim_start(rest), '=')))
        },
        None => None,
    }
}

fn find_whole_average(hay: &[char]) -> (r: Option<Binary64>)
    ensures
        r == whole_average_from(hay@, 0),
{
    proof {
        reveal_strlit("tg");
    }
    let tag = chars_of("tg");
    let excluded = chars_of("_3s");
    let n: usize = hay.len();
    let mut i: usize = 0;
    while i < n && 2 <= n - i
        invariant
            tag@ == "tg"@,
            "tg"@.len() == 2,
            excluded@ == "_3s"@,
            n == hay@.len(),
            i <= n,
            whole_average_from(hay@, i as nat) == whole_average_from(hay@, 0),
        decreases n - i,
    {
        let here = rest_from(hay, i);
        assert(hay@.skip(i as int).take(2) =~= hay@.subrange(i as int, i + 2));
        if starts_with(here, tag.as_slice()) {
            let rest = rest_from(hay, i + 2);
            let before_ok: bool = i == 0 || !is_ascii_alphanumeric(hay[i - 1]);
            if !starts_with(rest, excluded.as_slice()) && before_ok {
                let value = parse_leading_float(trim_start(skip_char(trim_start(rest), '=')));
                if value.is_some() {
                    return value;
                }
            }
        }
        i = i + 1;
    }
    None
}

proof fn lemma_last_run(s: Seq<char>, start: int, end: int)
    requires
        0 <= start <= end <= s.len(),
        forall|j: int| start <= j < end ==> !is_separator(#[trigger] s[j]),
        start > 0 ==> is_separator(s[start - 1]),
    ensures
        last_run(s.take(end)) == s.subrange(start, end),
    decreases end - start,
{
    let t = s.take(end);
    if start < end {
        assert(t.last() == s[end - 1]);
        assert(t.drop_last() =~= s.take(end - 1));
        lemma_last_run(s, start, end - 1);
        assert(s.subrange(start, end) =~= s.subrange(start, end - 1).push(s[end - 1]));
    } else {
        assert(s.subrange(start, end) =~= Seq::<char>::empty());
        if end > 0 {
            assert(t.last() == s[end - 1]);
        }
    }
}

fn speed_before_tokens_per_second(line: &[char]) -> (r: Option<Binary64>)
    ensures
        r == reported_speed(line@),
{
    let pattern = chars_of("tokens per second");
    let i: usize = match find(line, pattern.as_slice()) {
        Some(i) => i,
        None => return None,
    };
    let before = trim_end(first_part(line, i));
    let mut end: usize = before.len();
    assert(before@.take(end as int) =~= before@);
    while end > 0 && (is_white_space(before[end - 1]) || before[end - 1] == '/')
        invariant
            end <= before@.len(),
            last_word(before@.take(end as int)) == last_word(before@),
        decreases end,
    {
        assert(before@.take(end as int).drop_last() =~= before@.take(end - 1));
        end = end - 1;
    }
    let mut start: usize = end;
    while start > 0 && !(is_white_space(before[start - 1]) || before[start - 1] == '/')
        invariant
            start <= end <= before@.len(),
            forall|j: int| start <= j < end ==> !is_separator(#[trigger] before@[j]),
        decreases start,
    {
        start = start - 1;
    }
    proof {
        lemma_last_run(before@, start as int, end as int);
        let t = before@.take(end as int);
        if end > 0 {
            assert(t.last() == before@[end - 1]);
        }
        assert(last_word(t) == last_run(t));
        assert(before@.take(end as int).skip(start as int) =~= before@.subrange(
            start as int,
            end as int,
        ));
    }
    parse_leading_float(rest_from(first_part(before, end), start))
}

/// What a log line reports.
pub fn parse_live_log_event(line: &str) -> (r: Option<LiveLogEvent>)
    ensures
        r == line_event(line@),
{
    let text = chars_of(line);
    let s = text.as_slice();
    let (slot_id, task_id) = match parse_id_task(s) {
        Some(pair) => pair,
        None => return None,
    };
    if contains(s, "stop processing") {
        return Some(LiveLogEvent::Release { slot_id, task_id });
    }
    if (contains(s, "launch_slot") || contains(s, "processing task")) && !contains(
        s,
        "prompt processing",
    ) && !contains(s, "tg_3s") && !contains(s, "eval time") {
        return Some(LiveLogEvent::Launch { slot_id, task_id });
    }
    if let Some(tg_3s) = find_tagged_float(s, "tg_3s") {
        let tg = find_whole_average(s);
        return Some(LiveLogEvent::Generation { slot_id, task_id, tg, tg_3s });
    }
    let speed = match speed_before_tokens_per_second(s) {
        Some(speed) => speed,
        None => return None,
    };
    if contains(s, "prompt processing") {
        return Some(LiveLogEvent::Prefill { slot_id, task_id, prompt_speed: speed });
    }
    if contains(s, "prompt eval time") {
        return Some(LiveLogEvent::PromptEvalDone { slot_id, task_id, tokens_per_sec: speed });
    }
    if contains(s, "eval time") {
        return Some(LiveLogEvent::EvalDone { slot_id, task_id, tokens_per_sec: speed });
    }
    None
}

// ---------------------------------------------------------------------------
// Following the slots
// ---------------------------------------------------------------------------
/// A slot that has just been heard of for the first time.
pub open spec fn fresh_slot(now: Moment) -> SlotLiveState {
    SlotLiveState {
        task_id: None,
        phase: SlotPhase::Idle,
        prompt_speed: None,
        generation_speed: None,
        generation_speed_avg: None,
        last_update: now,
    }
}

/// The slot `slot_id` once it works on `task_id`: a new task puts it in phase
/// `if_new`, and keeps the speeds of the task before.
pub open spec fn on_task(
    slots: Map<int, SlotLiveState>,
    slot_id: u32,
    task_id: u64,
    now: Moment,
    if_new: SlotPhase,
) -> SlotLiveState {
    let slot = if slots.dom().contains(slot_id as int) {
        slots[slot_id as int]
    } else {
        fresh_slot(now)
    };
    if slot.task_id == Some(task_id) {
        slot
    } else {
        SlotLiveState { task_id: Some(task_id), phase: if_new, ..slot }
    }
}

/// The slot that an event is about.
pub open spec fn event_slot(event: LiveLogEvent) -> u32 {
    match event {
        LiveLogEvent::Launch { slot_id, .. } => slot_id,
        LiveLogEvent::Prefill { slot_id, .. } => slot_id,
        LiveLogEvent::Generation { slot_id, .. } => slot_id,
        LiveLogEvent::PromptEvalDone { slot_id, .. } => slot_id,
        LiveLogEvent::EvalDone { slot_id, .. } => slot_id,
        LiveLogEvent::Release { slot_id, .. } => slot_id,
    }
}

/// The state of its slot after an event.
pub open spec fn slot_after(
    slots: Map<int, SlotLiveState>,
    event: LiveLogEvent,
    now: Moment,
) -> SlotLiveState {
    match event {
        LiveLogEvent::Launch { slot_id, task_id } => on_task(
            slots,
            slot_id,
            task_id,
            now,
            SlotPhase::Idle,
        ),
        LiveLogEvent::Prefill { slot_id, task_id, prompt_speed } => SlotLiveState {
            phase: SlotPhase::Prefill,
            prompt_speed: Some(prompt_speed),
            last_update: now,
            ..on_task(slots, slot_id, task_id, now, SlotPhase::Prefill)
        },
        LiveLogEvent::Generation { slot_id, task_id, tg, tg_3s } => {
            let slot = on_task(slots, slot_id, task_id, now, SlotPhase::Generation);
            SlotLiveState {
                phase: SlotPhase::Generation,
                generation_speed: Some(tg_3s),
                generation_speed_avg: if tg is Some {
                    tg
                } else {
                    slot.generation_speed_avg
                },
                last_update: now,
                ..slot
            }
        },
        LiveLogEvent::PromptEvalDone { slot_id, task_id, tokens_per_sec } => SlotLiveState {
            prompt_speed: Some(tokens_per_sec),
            last_update: now,
            ..on_task(slots, slot_id, task_id, now, SlotPhase::Idle)
        },
        LiveLogEvent::EvalDone { slot_id, task_id, tokens_per_sec } => {
            let slot = on_task(slots, slot_id, task_id, now, SlotPhase::Idle);
            SlotLiveState {
                generation_speed: if slot.phase == SlotPhase::Generation
                    && slot.generation_speed is Some {
                    slot.generation_speed
                } else {
                    Some(tokens_per_sec)
                },
                last_update: now,
                ..slot
            }
        },
        LiveLogEvent::Release { slot_id, task_id } => SlotLiveState {
            phase: SlotPhase::Idle,
            last_update: now,
            ..on_task(slots, slot_id, task_id, now, SlotPhase::Idle)
        },
    }
}

/// The slots after an event.
pub open spec fn slots_after(
    slots: Map<int, SlotLiveState>,
    event: LiveLogEvent,
    now: Moment,
) -> Map<int, SlotLiveState> {
    slots.insert(event_slot(event) as int, slot_after(slots, event, now))
}

/// Whether a slot is at work and was heard of recently.
pub open spec fn is_live(slot: SlotLiveState, now: Moment) -> bool {
    slot.phase != SlotPhase::Idle && elapsed(slot.last_update, now) <= LIVE_STALE
}

/// One of the speeds that the dashboard shows.
#[derive(Clone, Copy, Debug, PartialEq, Eq, Structural)]
pub enum Tile {
    /// The prompt speed.
    Prompt,
    /// The generation speed.
    Generation,
    /// The average speed of the whole generation.
    Average,
}

/// The speed of a slot that a tile shows.
pub open spec fn tile_speed(slot: SlotLiveState, tile: Tile) -> Option<Binary64> {
    match tile {
        Tile::Prompt => slot.prompt_speed,
        Tile::Generation => slot.generation_speed,
        Tile::Average => slot.generation_speed_avg,
    }
}

/// The phase in which the speed of a tile is live.
pub open spec fn tile_phase(tile: Tile) -> SlotPhase {
    match tile {
        Tile::Prompt => SlotPhase::Prefill,
        Tile::Generation => SlotPhase::Generation,
        Tile::Average => SlotPhase::Generation,
    }
}

/// The sum of the live speeds of the slots, in their order, where there are any.
pub open spec fn live_speed(slots: Seq<(u32, SlotLiveState)>, now: Moment, tile: Tile) -> Option<
    Binary64,
>
    decreases slots.len(),
{
    if slots.len() == 0 {
        None
    } else {
        let before = live_speed(slots.drop_last(), now, tile);
        let slot = slots.last().1;
        match tile_speed(slot, tile) {
            Some(speed) => if is_live(slot, now) && slot.phase == tile_phase(tile) {
                match before {
                    Some(total) => Some(total.sum(speed)),
                    None => Some((Binary64 { bits: 0 }).sum(speed)),
                }
            } else {
                before
            },
            None => before,
        }
    }
}

/// The speed of the slot heard of last, the later in order of two heard of
/// together, and when that was.
pub open spec fn last_speed(slots: Seq<(u32, SlotLiveState)>, tile: Tile) -> Option<
    (Moment, Binary64),
>
    decreases slots.len(),
{
    if slots.len() == 0 {
        None
    } else {
        let before = last_speed(slots.drop_last(), tile);
        let slot = slots.last().1;
        match (tile_speed(slot, tile), before) {
            (Some(speed), None) => Some((slot.last_update, speed)),
            (Some(speed), Some((at, _))) => if slot.last_update.nanos >= at.nanos {
                Some((slot.last_update, speed))
            } else {
                before
            },
            (None, _) => before,
        }
    }
}

/// Whether some live slot is in `phase`.
pub open spec fn any_live(slots: Seq<(u32, SlotLiveState)>, now: Moment, phase: SlotPhase) -> bool {
    exists|i: int|
        0 <= i < slots.len() && is_live((#[trigger] slots[i]).1, now) && slots[i].1.phase == phase
}

/// What a tile shows: the live speed, or else the last one.
pub open spec fn shown_speed(slots: Seq<(u32, SlotLiveState)>, now: Moment, tile: Tile) -> Option<
    Binary64,
> {
    match live_speed(slots, now, tile) {
        Some(speed) => Some(speed),
        None => match last_speed(slots, tile) {
            Some((_, speed)) => Some(speed),
            None => None,
        },
    }
}

/// Whether a tile shows a live speed or the last one.
pub open spec fn shown_kind(slots: Seq<(u32, SlotLiveState)>, now: Moment, tile: Tile) -> Option<
    SpeedKind,
> {
    if live_speed(slots, now, tile) is Some {
        Some(SpeedKind::Live)
    } else if last_speed(slots, tile) is Some {
        Some(SpeedKind::Last)
    } else {
        None
    }
}

/// What the dashboard shows.
pub open spec fn dashboard_view(slots: Seq<(u32, SlotLiveState)>, now: Moment) -> LiveDashboardView {
    LiveDashboardView {
        phase: if any_live(slots, now, SlotPhase::Generation) {
            InferencePhase::Generation
        } else if any_live(slots, now, SlotPhase::Prefill) {
            InferencePhase::Prefill
        } else {
            InferencePhase::Idle
        },
        prompt_tokens_per_sec: shown_speed(slots, now, Tile::Prompt),
        generation_tokens_per_sec: shown_speed(slots, now, Tile::Generation),
        generation_tokens_per_sec_avg: shown_speed(slots, now, Tile::Average),
        prompt_speed_kind: shown_kind(slots, now, Tile::Prompt),
        generation_speed_kind: shown_kind(slots, now, Tile::Generation),
    }
}

fn slot_is_live(slot: &SlotLiveState, now: Moment) -> (r: bool)
    ensures
        r == is_live(*slot, now),
{
    slot.phase != SlotPhase::Idle && now.since(slot.last_update) <= LIVE_STALE
}

/// One tile while the slots are gone through.
#[derive(Clone, Copy)]
struct Gathered {
    tile: Tile,
    live: Option<Binary64>,
    last: Option<(Moment, Binary64)>,
}

impl Gathered {
    spec fn covers(self, slots: Seq<(u32, SlotLiveState)>, now: Moment) -> bool {
        self.live == live_speed(slots, now, self.tile) && self.last == last_speed(slots, self.tile)
    }

    fn start(tile: Tile, now: Moment) -> (r: Gathered)
        ensures
            r.tile == tile,
            r.covers(Seq::empty(), now),
    {
        Gathered { tile, live: None, last: None }
    }

    fn with(
        self,
        slot: &SlotLiveState,
        live_now: bool,
        now: Moment,
        Ghost(slots): Ghost<Seq<(u32, SlotLiveState)>>,
        Ghost(i): Ghost<int>,
    ) -> (r: Gathered)
        requires
            0 <= i < slots.len(),
            slots[i].1 == *slot,
            live_now == is_live(*slot, now),
            self.covers(slots.take(i), now),
        ensures
            r.tile == self.tile,
            r.covers(slots.take(i + 1), now),
    {
        proof {
            assert(slots.take(i + 1).drop_last() =~= slots.take(i));
            assert(slots.take(i + 1).last() == slots[i]);
        }
        let (speed, phase) = match self.tile {
            Tile::Prompt => (slot.prompt_speed, SlotPhase::Prefill),
            Tile::Generation => (slot.generation_speed, SlotPhase::Generation),
            Tile::Average => (slot.generation_speed_avg, SlotPhase::Generation),
        };
        let mut r = self;
        if let Some(speed) = speed {
            if live_now && slot.phase == phase {
                let total = match self.live {
                    Some(total) => total,
                    None => Binary64::zero(),
                };
                r.live = Some(total.plus(speed));
            }
            let newer: bool = match self.last {
                Some((at, _)) => slot.last_update.nanos >= at.nanos,
                None => true,
            };
            if newer {
                r.last = Some((slot.last_update, speed));
            }
        }
        r
    }

    fn shown(self) -> (r: (Option<Binary64>, Option<SpeedKind>))
        ensures
            forall|slots: Seq<(u32, SlotLiveState)>, now: Moment|
                self.covers(slots, now) ==> r.0 == #[trigger] shown_speed(slots, now, self.tile)
                    && r.1 == shown_kind(slots, now, self.tile),
    {
        if self.live.is_some() {
            return (self.live, Some(SpeedKind::Live));
        }
        match self.last {
            Some((_, speed)) => (Some(speed), Some(SpeedKind::Last)),
            None => (None, None),
        }
    }
}

/// The slots that log lines have told of.
pub struct LiveSlotTracker {
    /// The state of each slot, by its number.
    pub slots: Table<u32, SlotLiveState>,
}

impl Default for LiveSlotTracker {
    fn default() -> (r: LiveSlotTracker)
        ensures
            r.wf(),
            r@ == Map::<int, SlotLiveState>::empty(),
            r.slots.entries@.len() == 0,
    {
        LiveSlotTracker { slots: Table::new() }
    }
}

impl View for LiveSlotTracker {
    type V = Map<int, SlotLiveState>;

    open spec fn view(&self) -> Map<int, SlotLiveState> {
        self.slots@
    }
}

impl LiveSlotTracker {
    /// Whether the slots stand in order.
    pub open spec fn wf(&self) -> bool {
        self.slots.wf()
    }

    /// Takes in a log line, and says whether it reported anything.
    pub fn apply_line(&mut self, line: &str, now: Moment) -> (r: bool)
        requires
            old(self).wf(),
        ensures
            final(self).wf(),
            r == line_event(line@) is Some,
            match line_event(line@) {
                Some(event) => final(self)@ == slots_after(old(self)@, event, now),
                None => *final(self) == *old(self),
            },
    {
        match parse_live_log_event(line) {
            Some(event) => {
                self.apply_event(event, now);
                true
            },
            None => false,
        }
    }

    /// Takes in an event.
    pub fn apply_event(&mut self, event: LiveLogEvent, now: Moment)
        requires
            old(self).wf(),
        ensures
            final(self).wf(),
            final(self)@ == slots_after(old(self)@, event, now),
    {
        match event {
            LiveLogEvent::Launch { slot_id, task_id } => {
                let slot = self.begin_task(slot_id, task_id, now, SlotPhase::Idle);
                self.slots.insert(slot_id, slot);
            },
            LiveLogEvent::Prefill { slot_id, task_id, prompt_speed } => {
                let mut slot = self.begin_task(slot_id, task_id, now, SlotPhase::Prefill);
                slot.phase = SlotPhase::Prefill;
                slot.prompt_speed = Some(prompt_speed);
                slot.last_update = now;
                self.slots.insert(slot_id, slot);
            },
            LiveLogEvent::Generation { slot_id, task_id, tg, tg_3s } => {
                let mut slot = self.begin_task(slot_id, task_id, now, SlotPhase::Generation);
                slot.phase = SlotPhase::Generation;
                slot.generation_speed = Some(tg_3s);
                if tg.is_some() {
                    slot.generation_speed_avg = tg;
                }
                slot.last_update = now;
                self.slots.insert(slot_id, slot);
            },
            LiveLogEvent::PromptEvalDone { slot_id, task_id, tokens_per_sec } => {
                let mut slot = self.begin_task(slot_id, task_id, now, SlotPhase::Idle);
                slot.prompt_speed = Some(tokens_per_sec);
                slot.last_update = now;
                self.slots.insert(slot_id, slot);
            },
            LiveLogEvent::EvalDone { slot_id, task_id, tokens_per_sec } => {
                let mut slot = self.begin_task(slot_id, task_id, now, SlotPhase::Idle);
                if slot.phase != SlotPhase::Generation || slot.generation_speed.is_none() {
                    slot.generation_speed = Some(tokens_per_sec);
                }
                slot.last_update = now;
                self.slots.insert(slot_id, slot);
            },
            LiveLogEvent::Release { slot_id, task_id } => {
                let mut slot = self.begin_task(slot_id, task_id, now, SlotPhase::Idle);
                slot.phase = SlotPhase::Idle;
                slot.last_update = now;
                self.slots.insert(slot_id, slot);
            },
        }
    }

    fn begin_task(&self, slot_id: u32, task_id: u64, now: Moment, if_new_phase: SlotPhase) -> (r:
        SlotLiveState)
        requires
            self.wf(),
        ensures
            r == on_task(self@, slot_id, task_id, now, if_new_phase),
    {
        let mut slot = match self.slots.get(&slot_id) {
            Some(slot) => *slot,
            None => SlotLiveState {
                task_id: None,
                phase: SlotPhase::Idle,
                prompt_speed: None,
                generation_speed: None,
                generation_speed_avg: None,
                last_update: now,
            },
        };
        let known: bool = match slot.task_id {
            Some(task) => task == task_id,
            None => false,
        };
        if !known {
            slot.task_id = Some(task_id);
            slot.phase = if_new_phase;
        }
        slot
    }

    /// The state of a slot.
    pub fn slot(&self, slot_id: u32) -> (r: Option<&SlotLiveState>)
        requires
            self.wf(),
        ensures
            match r {
                Some(slot) => self@.dom().contains(slot_id as int) && *slot
                    == self@[slot_id as int],
                None => !self@.dom().contains(slot_id as int),
            },
    {
        self.slots.get(&slot_id)
    }

    /// Whether no slot has been heard of.
    pub fn is_empty(&self) -> (r: bool)
        requires
            self.wf(),
        ensures
            r == (self.slots.entries@.len() == 0),
            r == (self@ == Map::<int, SlotLiveState>::empty()),
    {
        self.slots.is_empty()
    }

    /// What the dashboard shows.
    pub fn dashboard(&self, now: Moment) -> (r: LiveDashboardView)
        requires
            self.wf(),
        ensures
            r == dashboard_view(self.slots.entries@, now),
    {
        let mut prompt = Gathered::start(Tile::Prompt, now);
        let mut generation = Gathered::start(Tile::Generation, now);
        let mut average = Gathered::start(Tile::Average, now);
        let mut any_prefill: bool = false;
        let mut any_generation: bool = false;
        let n: usize = self.slots.entries.len();
        let mut i: usize = 0;
        assert(self.slots.entries@.take(0) =~= Seq::<(u32, SlotLiveState)>::empty());
        while i < n
            invariant
                n == self.slots.entries@.len(),
                i <= n,
                prompt.tile == Tile::Prompt,
                generation.tile == Tile::Generation,
                average.tile == Tile::Average,
                prompt.covers(self.slots.entries@.take(i as int), now),
                generation.covers(self.slots.entries@.take(i as int), now),
                average.covers(self.slots.entries@.take(i as int), now),
                any_prefill == any_live(
                    self.slots.entries@.take(i as int),
                    now,
                    SlotPhase::Prefill,
                ),
                any_generation == any_live(
                    self.slots.entries@.take(i as int),
                    now,
                    SlotPhase::Generation,
                ),
            decreases n - i,
        {
            let slot = &self.slots.entries[i].1;
            let live: bool = slot_is_live(slot, now);
            let ghost all = self.slots.entries@;
            proof {
                lemma_any_live_step(all, i as int, now, SlotPhase::Prefill);
                lemma_any_live_step(all, i as int, now, SlotPhase::Generation);
            }
            if live && slot.phase == SlotPhase::Prefill {
                any_prefill = true;
            }
            if live && slot.phase == SlotPhase::Generation {
                any_generation = true;
            }
            prompt = prompt.with(slot, live, now, Ghost(all), Ghost(i as int));
            generation = generation.with(slot, live, now, Ghost(all), Ghost(i as int));
            average = average.with(slot, live, now, Ghost(all), Ghost(i as int));
            i = i + 1;
        }
        assert(self.slots.entries@.take(i as int) =~= self.slots.entries@);
        let phase = if any_generation {
            InferencePhase::Generation
        } else if any_prefill {
            InferencePhase::Prefill
        } else {
            InferencePhase::Idle
        };
        let (prompt_speed, prompt_kind) = prompt.shown();
        let (generation_speed, generation_kind) = generation.shown();
        let (average_speed, _) = average.shown();
        LiveDashboardView {
            phase,
            prompt_tokens_per_sec: prompt_speed,
            generation_tokens_per_sec: generation_speed,
            generation_tokens_per_sec_avg: average_speed,
            prompt_speed_kind: prompt_kind,
            generation_speed_kind: generation_kind,
        }
    }
}

proof fn lemma_any_live_step(
    slots: Seq<(u32, SlotLiveState)>,
    i: int,
    now: Moment,
    phase: SlotPhase,
)
    requires
        0 <= i < slots.len(),
    ensures
        any_live(slots.take(i + 1), now, phase) == (any_live(slots.take(i), now, phase) || (is_live(
            slots[i].1,
            now,
        ) && slots[i].1.phase == phase)),
{
    let s = slots.take(i);
    let t = slots.take(i + 1);
    assert(t[i] == slots[i]);
    if any_live(s, now, phase) {
        let j = choose|j: int|
            0 <= j < s.len() && is_live((#[trigger] s[j]).1, now) && s[j].1.phase == phase;
        assert(t[j] == s[j]);
    }
    if any_live(t, now, phase) {
        let j = choose|j: int|
            0 <= j < t.len() && is_live((#[trigger] t[j]).1, now) && t[j].1.phase == phase;
        if j < i {
            assert(s[j] == t[j]);
        }
    }
}

// ---------------------------------------------------------------------------
// Laws
// ---------------------------------------------------------------------------
/// An event changes its own slot and no other.
pub proof fn law_event_touches_one_slot(
    slots: Map<int, SlotLiveState>,
    event: LiveLogEvent,
    now: Moment,
    other: int,
)
    requires
        other != event_slot(event),
    ensures
        slots_after(slots, event, now).dom().contains(other) == slots.dom().contains(other),
        slots.dom().contains(other) ==> slots_after(slots, event, now)[other] == slots[other],
{
}

/// A released slot is idle, and keeps its speeds.
pub proof fn law_release_keeps_speeds(
    slots: Map<int, SlotLiveState>,
    slot_id: u32,
    task_id: u64,
    now: Moment,
)
    requires
        slots.dom().contains(slot_id as int),
    ensures
        ({
            let before = slots[slot_id as int];
            let after = slots_after(
                slots,
                LiveLogEvent::Release { slot_id, task_id },
                now,
            )[slot_id as int];
            &&& after.phase == SlotPhase::Idle
            &&& after.prompt_speed == before.prompt_speed
            &&& after.generation_speed == before.generation_speed
            &&& after.generation_speed_avg == before.generation_speed_avg
        }),
{
}

/// A new task keeps the speeds of the task before until it reports its own.
pub proof fn law_launch_keeps_speeds(
    slots: Map<int, SlotLiveState>,
    slot_id: u32,
    task_id: u64,
    now: Moment,
)
    requires
        slots.dom().contains(slot_id as int),
    ensures
        ({
            let before = slots[slot_id as int];
            let after = slots_after(
                slots,
                LiveLogEvent::Launch { slot_id, task_id },
                now,
            )[slot_id as int];
            &&& after.task_id == Some(task_id)
            &&& after.prompt_speed == before.prompt_speed
            &&& after.generation_speed == before.generation_speed
            &&& after.generation_speed_avg == before.generation_speed_avg
        }),
{
}

/// Where no slot is live, the dashboard is idle and shows no speed as live.
pub proof fn law_stale_is_never_live(slots: Seq<(u32, SlotLiveState)>, now: Moment)
    requires
        forall|i: int| 0 <= i < slots.len() ==> !is_live((#[trigger] slots[i]).1, now),
    ensures
        dashboard_view(slots, now).phase == InferencePhase::Idle,
        dashboard_view(slots, now).prompt_speed_kind != Some(SpeedKind::Live),
        dashboard_view(slots, now).generation_speed_kind != Some(SpeedKind::Live),
{
    lemma_no_live_speed(slots, now, Tile::Prompt);
    lemma_no_live_speed(slots, now, Tile::Generation);
}

proof fn lemma_no_live_speed(slots: Seq<(u32, SlotLiveState)>, now: Moment, tile: Tile)
    requires
        forall|i: int| 0 <= i < slots.len() ==> !is_live((#[trigger] slots[i]).1, now),
    ensures
        live_speed(slots, now, tile) is None,
    decreases slots.len(),
{
    if slots.len() > 0 {
        assert forall|i: int| 0 <= i < slots.drop_last().len() implies !is_live(
            (#[trigger] slots.drop_last()[i]).1,
            now,
        ) by {
            assert(slots.drop_last()[i] == slots[i]);
        }
        lemma_no_live_speed(slots.drop_last(), now, tile);
        assert(!is_live(slots[slots.len() - 1].1, now));
    }
}

/// A speed that some slot has reported stays on the dashboard, live or last.
pub proof fn law_speed_is_retained(slots: Seq<(u32, SlotLiveState)>, now: Moment, tile: Tile, i: int)
    requires
        0 <= i < slots.len(),
        tile_speed(slots[i].1, tile) is Some,
    ensures
        shown_speed(slots, now, tile) is Some,
        shown_kind(slots, now, tile) is Some,
{
    lemma_last_speed_exists(slots, tile, i);
}

proof fn lemma_last_speed_exists(slots: Seq<(u32, SlotLiveState)>, tile: Tile, i: int)
    requires
        0 <= i < slots.len(),
        tile_speed(slots[i].1, tile) is Some,
    ensures
        last_speed(slots, tile) is Some,
    decreases slots.len(),
{
    if i < slots.len() - 1 {
        assert(slots.drop_last()[i] == slots[i]);
        lemma_last_speed_exists(slots.drop_last(), tile, i);
    }
}

/// With no slot heard of, the dashboard is empty.
pub proof fn law_empty_dashboard(now: Moment)
    ensures
        dashboard_view(Seq::empty(), now) == empty_view(),
{
}

/// Whether a slot is in a phase, and was heard of no more than eight seconds ago.
pub open spec fn is_busy_in(slot: SlotLiveState, phase: SlotPhase, now: Moment) -> bool {
    slot.phase == phase && now.nanos <= slot.last_update.nanos + 8_000_000_000
}

/// Whether some slot is in a phase, and was heard of no more than eight seconds ago.
pub open spec fn some_busy_in(
    slots: Seq<(u32, SlotLiveState)>,
    phase: SlotPhase,
    now: Moment,
) -> bool {
    exists|i: int| 0 <= i < slots.len() && is_busy_in((#[trigger] slots[i]).1, phase, now)
}

proof fn lemma_some_busy(slots: Seq<(u32, SlotLiveState)>, phase: SlotPhase, now: Moment)
    requires
        phase != SlotPhase::Idle,
    ensures
        any_live(slots, now, phase) == some_busy_in(slots, phase, now),
{
    if any_live(slots, now, phase) {
        let i = choose|i: int|
            0 <= i < slots.len() && is_live((#[trigger] slots[i]).1, now) && slots[i].1.phase
                == phase;
        assert(is_busy_in(slots[i].1, phase, now));
    }
    if some_busy_in(slots, phase, now) {
        let i = choose|i: int|
            0 <= i < slots.len() && is_busy_in((#[trigger] slots[i]).1, phase, now);
        assert(is_live(slots[i].1, now) && slots[i].1.phase == phase);
    }
}

/// The dashboard's phase is what the live slots do: generation where some slot heard of
/// in the last eight seconds generates, prefill where some such slot reads its prompt
/// and none generates, and idle exactly where neither is so.
pub proof fn law_phase_is_what_live_slots_do(slots: Seq<(u32, SlotLiveState)>, now: Moment)
    ensures
        ({
            let generates = some_busy_in(slots, SlotPhase::Generation, now);
            let reads = some_busy_in(slots, SlotPhase::Prefill, now);
            let phase = dashboard_view(slots, now).phase;
            &&& (phase == InferencePhase::Generation) == generates
            &&& (phase == InferencePhase::Prefill) == (reads && !generates)
            &&& (phase == InferencePhase::Idle) == (!reads && !generates)
        }),
{
    lemma_some_busy(slots, SlotPhase::Generation, now);
    lemma_some_busy(slots, SlotPhase::Prefill, now);
}

proof fn lemma_live_speed_exists(slots: Seq<(u32, SlotLiveState)>, now: Moment, tile: Tile)
    ensures
        live_speed(slots, now, tile) is Some == exists|i: int|
            0 <= i < slots.len() && is_busy_in((#[trigger] slots[i]).1, tile_phase(tile), now)
                && tile_speed(slots[i].1, tile) is Some,
    decreases slots.len(),
{
    if slots.len() > 0 {
        let front = slots.drop_last();
        lemma_live_speed_exists(front, now, tile);
        if live_speed(slots, now, tile) is Some {
            if live_speed(front, now, tile) is Some {
                let i = choose|i: int|
                    0 <= i < front.len() && is_busy_in(
                        (#[trigger] front[i]).1,
                        tile_phase(tile),
                        now,
                    ) && tile_speed(front[i].1, tile) is Some;
                assert(slots[i] == front[i]);
            } else {
                assert(is_busy_in(slots[slots.len() - 1].1, tile_phase(tile), now));
            }
        }
        if exists|i: int|
            0 <= i < slots.len() && is_busy_in((#[trigger] slots[i]).1, tile_phase(tile), now)
                && tile_speed(slots[i].1, tile) is Some {
            let i = choose|i: int|
                0 <= i < slots.len() && is_busy_in((#[trigger] slots[i]).1, tile_phase(tile), now)
                    && tile_speed(slots[i].1, tile) is Some;
            if i < front.len() {
                assert(front[i] == slots[i]);
            }
        }
    }
}

proof fn lemma_one_more_slot(
    slots: Seq<(u32, SlotLiveState)>,
    id: u32,
    slot: SlotLiveState,
    now: Moment,
    tile: Tile,
)
    ensures
        live_speed(slots.push((id, slot)), now, tile) == if is_busy_in(slot, tile_phase(tile), now)
            && tile_speed(slot, tile) is Some {
            Some(
                (match live_speed(slots, now, tile) {
                    Some(total) => total,
                    None => Binary64 { bits: 0 },
                }).sum(tile_speed(slot, tile)->0),
            )
        } else {
            live_speed(slots, now, tile)
        },
{
    assert(slots.push((id, slot)).drop_last() =~= slots);
}

/// The live speeds of all slots are added up, in their order: one more slot that reads
/// its prompt adds its prompt speed to the prompt speed shown live, one that generates
/// adds its generation speed and its average, and any other slot leaves live speeds as
/// they are. The sum begins at zero.
pub proof fn law_live_speeds_add_up(
    slots: Seq<(u32, SlotLiveState)>,
    id: u32,
    slot: SlotLiveState,
    now: Moment,
)
    ensures
        ({
            let before = dashboard_view(slots, now);
            let after = dashboard_view(slots.push((id, slot)), now);
            let zero = Binary64 { bits: 0 };
            let reads = is_busy_in(slot, SlotPhase::Prefill, now);
            let generates = is_busy_in(slot, SlotPhase::Generation, now);
            let averaged = exists|i: int|
                0 <= i < slots.len() && is_busy_in(
                    (#[trigger] slots[i]).1,
                    SlotPhase::Generation,
                    now,
                ) && slots[i].1.generation_speed_avg is Some;
            &&& reads && slot.prompt_speed is Some ==> {
                &&& after.prompt_speed_kind == Some(SpeedKind::Live)
                &&& after.prompt_tokens_per_sec == Some(
                    (if before.prompt_speed_kind == Some(SpeedKind::Live) {
                        before.prompt_tokens_per_sec->0
                    } else {
                        zero
                    }).sum(slot.prompt_speed->0),
                )
            }
            &&& !(reads && slot.prompt_speed is Some) && before.prompt_speed_kind == Some(
                SpeedKind::Live,
            ) ==> {
                &&& after.prompt_speed_kind == Some(SpeedKind::Live)
                &&& after.prompt_tokens_per_sec == before.prompt_tokens_per_sec
            }
            &&& generates && slot.generation_speed is Some ==> {
                &&& after.generation_speed_kind == Some(SpeedKind::Live)
                &&& after.generation_tokens_per_sec == Some(
                    (if before.generation_speed_kind == Some(SpeedKind::Live) {
                        before.generation_tokens_per_sec->0
                    } else {
                        zero
                    }).sum(slot.generation_speed->0),
                )
            }
            &&& !(generates && slot.generation_speed is Some) && before.generation_speed_kind
                == Some(SpeedKind::Live) ==> {
                &&& after.generation_speed_kind == Some(SpeedKind::Live)
                &&& after.generation_tokens_per_sec == before.generation_tokens_per_sec
            }
            &&& generates && slot.generation_speed_avg is Some
                ==> after.generation_tokens_per_sec_avg == Some(
                (if averaged {
                    before.generation_tokens_per_sec_avg->0
                } else {
                    zero
                }).sum(slot.generation_speed_avg->0),
            )
            &&& !(generates && slot.generation_speed_avg is Some) && averaged
                ==> after.generation_tokens_per_sec_avg == before.generation_tokens_per_sec_avg
        }),
{
    lemma_one_more_slot(slots, id, slot, now, Tile::Prompt);
    lemma_one_more_slot(slots, id, slot, now, Tile::Generation);
    lemma_one_more_slot(slots, id, slot, now, Tile::Average);
    lemma_live_speed_exists(slots, now, Tile::Average);
}

/// A speed is shown as live exactly where some slot heard of in the last eight seconds
/// is in the phase of that speed and has told it, as retained exactly where none is so
/// but some slot has told it, and not at all exactly where no slot has told it.
pub proof fn law_kind_of_the_shown_speeds(slots: Seq<(u32, SlotLiveState)>, now: Moment)
    ensures
        ({
            let view = dashboard_view(slots, now);
            let reads = exists|i: int|
                0 <= i < slots.len() && is_busy_in(
                    (#[trigger] slots[i]).1,
                    SlotPhase::Prefill,
                    now,
                ) && slots[i].1.prompt_speed is Some;
            let generates = exists|i: int|
                0 <= i < slots.len() && is_busy_in(
                    (#[trigger] slots[i]).1,
                    SlotPhase::Generation,
                    now,
                ) && slots[i].1.generation_speed is Some;
            let read = exists|i: int|
                0 <= i < slots.len() && (#[trigger] slots[i]).1.prompt_speed is Some;
            let generated = exists|i: int|
                0 <= i < slots.len() && (#[trigger] slots[i]).1.generation_speed is Some;
            let averaged = exists|i: int|
                0 <= i < slots.len() && (#[trigger] slots[i]).1.generation_speed_avg is Some;
            &&& (view.prompt_speed_kind == Some(SpeedKind::Live)) == reads
            &&& (view.prompt_speed_kind is None) == !read
            &&& view.prompt_tokens_per_sec is Some == read
            &&& (view.generation_speed_kind == Some(SpeedKind::Live)) == generates
            &&& (view.generation_speed_kind is None) == !generated
            &&& view.generation_tokens_per_sec is Some == generated
            &&& view.generation_tokens_per_sec_avg is Some == averaged
        }),
{
    lemma_live_speed_exists(slots, now, Tile::Prompt);
    lemma_live_speed_exists(slots, now, Tile::Generation);
    lemma_live_speed_exists(slots, now, Tile::Average);
    lemma_last_speed_is_some(slots, Tile::Prompt);
    lemma_last_speed_is_some(slots, Tile::Generation);
    lemma_last_speed_is_some(slots, Tile::Average);
}

proof fn lemma_last_speed_is_some(slots: Seq<(u32, SlotLiveState)>, tile: Tile)
    ensures
        last_speed(slots, tile) is Some == exists|i: int|
            0 <= i < slots.len() && tile_speed((#[trigger] slots[i]).1, tile) is Some,
    decreases slots.len(),
{
    if slots.len() > 0 {
        let front = slots.drop_last();
        lemma_last_speed_is_some(front, tile);
        if exists|i: int|
            0 <= i < slots.len() && tile_speed((#[trigger] slots[i]).1, tile) is Some {
            let i = choose|i: int|
                0 <= i < slots.len() && tile_speed((#[trigger] slots[i]).1, tile) is Some;
            lemma_last_speed_exists(slots, tile, i);
        }
        if last_speed(slots, tile) is Some {
            if tile_speed(slots.last().1, tile) is Some {
                assert(tile_speed(slots[slots.len() - 1].1, tile) is Some);
            } else {
                let i = choose|i: int|
                    0 <= i < front.len() && tile_speed((#[trigger] front[i]).1, tile) is Some;
                assert(slots[i] == front[i]);
            }
        }
    }
}

proof fn lemma_latest_speed(slots: Seq<(u32, SlotLiveState)>, tile: Tile, i: int)
    requires
        0 <= i < slots.len(),
        tile_speed(slots[i].1, tile) is Some,
        forall|j: int|
            #![trigger slots[j]]
            0 <= j < slots.len() && tile_speed(slots[j].1, tile) is Some
                ==> slots[j].1.last_update.nanos < slots[i].1.last_update.nanos || (j <= i
                && slots[j].1.last_update.nanos == slots[i].1.last_update.nanos),
    ensures
        last_speed(slots, tile) == Some(
            (slots[i].1.last_update, tile_speed(slots[i].1, tile)->0),
        ),
    decreases slots.len(),
{
    let front = slots.drop_last();
    let n = slots.len() - 1;
    if i < n {
        assert(front[i] == slots[i]);
        assert forall|j: int|
            #![trigger front[j]]
            0 <= j < front.len() && tile_speed(front[j].1, tile) is Some implies
            front[j].1.last_update.nanos < front[i].1.last_update.nanos || (j <= i
            && front[j].1.last_update.nanos == front[i].1.last_update.nanos) by {
            assert(front[j] == slots[j]);
        }
        lemma_latest_speed(front, tile, i);
        assert(slots[n] == slots.last());
    } else {
        lemma_last_is_some_slots(front, tile);
        if last_speed(front, tile) is Some {
            let j = choose|j: int|
                0 <= j < front.len() && (#[trigger] front[j]).1.last_update
                    == (last_speed(front, tile)->0).0 && tile_speed(front[j].1, tile) is Some;
            assert(slots[j] == front[j]);
        }
    }
}

proof fn lemma_last_is_some_slots(slots: Seq<(u32, SlotLiveState)>, tile: Tile)
    ensures
        last_speed(slots, tile) is Some ==> exists|j: int|
            0 <= j < slots.len() && (#[trigger] slots[j]).1.last_update
                == (last_speed(slots, tile)->0).0 && tile_speed(slots[j].1, tile) is Some,
    decreases slots.len(),
{
    if slots.len() > 0 && last_speed(slots, tile) is Some {
        let front = slots.drop_last();
        lemma_last_is_some_slots(front, tile);
        if last_speed(slots, tile) == last_speed(front, tile) && last_speed(front, tile) is Some {
            let j = choose|j: int|
                0 <= j < front.len() && (#[trigger] front[j]).1.last_update
                    == (last_speed(front, tile)->0).0 && tile_speed(front[j].1, tile) is Some;
            assert(slots[j] == front[j]);
        } else {
            assert(slots[slots.len() - 1] == slots.last());
        }
    }
}

/// Whether a slot was heard of later than another, or together with it and stands
/// behind it.
pub open spec fn comes_after(slots: Seq<(u32, SlotLiveState)>, i: int, j: int) -> bool {
    slots[j].1.last_update.nanos < slots[i].1.last_update.nanos || (j <= i
        && slots[j].1.last_update.nanos == slots[i].1.last_update.nanos)
}

/// A retained speed is that of the slot heard of last among those that have told one,
/// the last in order of several heard of together.
pub proof fn law_retained_speed_is_the_latest(
    slots: Seq<(u32, SlotLiveState)>,
    now: Moment,
    i: int,
)
    requires
        0 <= i < slots.len(),
    ensures
        ({
            let view = dashboard_view(slots, now);
            let slot = slots[i].1;
            let averages = exists|j: int|
                0 <= j < slots.len() && is_busy_in(
                    (#[trigger] slots[j]).1,
                    SlotPhase::Generation,
                    now,
                ) && slots[j].1.generation_speed_avg is Some;
            &&& slot.prompt_speed is Some && view.prompt_speed_kind == Some(SpeedKind::Last) && (
            forall|j: int|
                #![trigger slots[j]]
                0 <= j < slots.len() && slots[j].1.prompt_speed is Some ==> comes_after(
                    slots,
                    i,
                    j,
                )) ==> view.prompt_tokens_per_sec == slot.prompt_speed
            &&& slot.generation_speed is Some && view.generation_speed_kind == Some(
                SpeedKind::Last,
            ) && (forall|j: int|
                #![trigger slots[j]]
                0 <= j < slots.len() && slots[j].1.generation_speed is Some ==> comes_after(
                    slots,
                    i,
                    j,
                )) ==> view.generation_tokens_per_sec == slot.generation_speed
            &&& slot.generation_speed_avg is Some && !averages && (forall|j: int|
                #![trigger slots[j]]
                0 <= j < slots.len() && slots[j].1.generation_speed_avg is Some ==> comes_after(
                    slots,
                    i,
                    j,
                )) ==> view.generation_tokens_per_sec_avg == slot.generation_speed_avg
        }),
{
    lemma_live_speed_exists(slots, now, Tile::Average);
    let slot = slots[i].1;
    if slot.prompt_speed is Some && (forall|j: int|
        #![trigger slots[j]]
        0 <= j < slots.len() && slots[j].1.prompt_speed is Some ==> comes_after(slots, i, j)) {
        lemma_latest_speed(slots, Tile::Prompt, i);
    }
    if slot.generation_speed is Some && (forall|j: int|
        #![trigger slots[j]]
        0 <= j < slots.len() && slots[j].1.generation_speed is Some ==> comes_after(slots, i, j)) {
        lemma_latest_speed(slots, Tile::Generation, i);
    }
    if slot.generation_speed_avg is Some && (forall|j: int|
        #![trigger slots[j]]
        0 <= j < slots.len() && slots[j].1.generation_speed_avg is Some ==> comes_after(
            slots,
            i,
            j,
        )) {
        lemma_latest_speed(slots, Tile::Average, i);
    }
}

/// What an event makes of its slot. A report of a prompt or of a generation puts the slot
/// in that phase with the speed it tells, the end of a prompt or of a generation tells a
/// speed, a release makes the slot idle, and a launch only names the task. All but a
/// launch tell that the slot was heard of now, a new task leaves the phase before, and
/// no event forgets a speed that it does not tell.
pub proof fn law_event_sets_its_slot(
    slots: Map<int, SlotLiveState>,
    slot_id: u32,
    task_id: u64,
    speed: Binary64,
    average: Option<Binary64>,
    now: Moment,
)
    ensures
        ({
            let known = slots.dom().contains(slot_id as int);
            let before = slots[slot_id as int];
            let prompt = if known {
                before.prompt_speed
            } else {
                None
            };
            let generation = if known {
                before.generation_speed
            } else {
                None
            };
            let averaged = if known {
                before.generation_speed_avg
            } else {
                None
            };
            let goes_on = known && before.task_id == Some(task_id);
            let launched = slots_after(slots, LiveLogEvent::Launch { slot_id, task_id }, now);
            let reading = slots_after(
                slots,
                LiveLogEvent::Prefill { slot_id, task_id, prompt_speed: speed },
                now,
            );
            let generating = slots_after(
                slots,
                LiveLogEvent::Generation { slot_id, task_id, tg: average, tg_3s: speed },
                now,
            );
            let read = slots_after(
                slots,
                LiveLogEvent::PromptEvalDone { slot_id, task_id, tokens_per_sec: speed },
                now,
            );
            let generated = slots_after(
                slots,
                LiveLogEvent::EvalDone { slot_id, task_id, tokens_per_sec: speed },
                now,
            );
            let released = slots_after(slots, LiveLogEvent::Release { slot_id, task_id }, now);
            let id = slot_id as int;
            &&& launched.dom().contains(id) && reading.dom().contains(id)
                && generating.dom().contains(id) && read.dom().contains(id)
                && generated.dom().contains(id) && released.dom().contains(id)
            &&& goes_on ==> launched[id] == before
            &&& !goes_on ==> launched[id] == (SlotLiveState {
                task_id: Some(task_id),
                phase: SlotPhase::Idle,
                prompt_speed: prompt,
                generation_speed: generation,
                generation_speed_avg: averaged,
                last_update: if known {
                    before.last_update
                } else {
                    now
                },
            })
            &&& reading[id] == (SlotLiveState {
                task_id: Some(task_id),
                phase: SlotPhase::Prefill,
                prompt_speed: Some(speed),
                generation_speed: generation,
                generation_speed_avg: averaged,
                last_update: now,
            })
            &&& generating[id] == (SlotLiveState {
                task_id: Some(task_id),
                phase: SlotPhase::Generation,
                prompt_speed: prompt,
                generation_speed: Some(speed),
                generation_speed_avg: if average is Some {
                    average
                } else {
                    averaged
                },
                last_update: now,
            })
            &&& read[id] == (SlotLiveState {
                task_id: Some(task_id),
                phase: if goes_on {
                    before.phase
                } else {
                    SlotPhase::Idle
                },
                prompt_speed: Some(speed),
                generation_speed: generation,
                generation_speed_avg: averaged,
                last_update: now,
            })
            &&& generated[id] == (SlotLiveState {
                task_id: Some(task_id),
                phase: if goes_on {
                    before.phase
                } else {
                    SlotPhase::Idle
                },
                prompt_speed: prompt,
                generation_speed: if goes_on && before.phase == SlotPhase::Generation
                    && generation is Some {
                    generation
                } else {
                    Some(speed)
                },
                generation_speed_avg: averaged,
                last_update: now,
            })
            &&& released[id] == (SlotLiveState {
                task_id: Some(task_id),
                phase: SlotPhase::Idle,
                prompt_speed: prompt,
                generation_speed: generation,
                generation_speed_avg: averaged,
                last_update: now,
            })
        }),
{
}

/// Whether a text is white space alone.
pub open spec fn is_blank(s: Seq<char>) -> bool {
    forall|i: int| 0 <= i < s.len() ==> is_space(#[trigger] s[i])
}

/// Whether `p` stands nowhere in `s` before place `n`.
pub open spec fn is_absent_before(s: Seq<char>, p: Seq<char>, n: nat) -> bool {
    forall|i: int| 0 <= i < n ==> #[trigger] s.subrange(i, i + p.len()) != p
}

/// Digits before another character are a number.
pub proof fn lemma_digits_lead(digits: Seq<char>, b: Seq<char>)
    requires
        all_digits(digits),
        digits.len() > 0,
        decimal_value(digits) <= u64::MAX,
        b.len() == 0 || !is_digit(b[0]),
    ensures
        leading_u64(digits + b) == Some(decimal_value(digits) as u64),
{
    let s = digits + b;
    let keep = |c: char| is_digit(c);
    assert forall|j: int| 0 <= j < digits.len() implies keep(#[trigger] s[j]) by {
        assert(s[j] == digits[j]);
    }
    if b.len() > 0 {
        assert(s[digits.len() as int] == b[0]);
    }
    lemma_run_length(s, keep, digits.len());
    assert(s.take(digits.len() as int) =~= digits);
}

proof fn lemma_keyed_from(s: Seq<char>, key: Seq<char>, i: nat, k: nat)
    requires
        i <= k,
        k + key.len() <= s.len(),
        is_absent_before(s, key, k),
        occurs_at(s, key, k),
        starts_word(s, k),
        ends_word(s, k + key.len()),
        value_after(s.skip((k + key.len()) as int)) is Some,
    ensures
        keyed_u64_from(s, key, i) == value_after(s.skip((k + key.len()) as int)),
    decreases k - i,
{
    if i < k {
        assert(s.subrange(i as int, i as int + key.len()) != key);
        assert(!occurs_at(s, key, i));
        lemma_keyed_from(s, key, i + 1, k);
    }
}

/// The number behind a key is read: where the first occurrence of `key` is a word of its
/// own, and white space and digits follow it, the number is the one that the digits
/// write, whatever comes later.
pub proof fn law_number_behind_a_key_is_read(
    a: Seq<char>,
    key: Seq<char>,
    space: Seq<char>,
    digits: Seq<char>,
    b: Seq<char>,
)
    requires
        key.len() > 0,
        is_absent_before(a + key + space + digits + b, key, a.len()),
        a.len() == 0 || !is_alphanumeric(a.last()),
        space.len() > 0,
        is_blank(space),
        all_digits(digits),
        digits.len() > 0,
        decimal_value(digits) <= u64::MAX,
        b.len() == 0 || !is_digit(b[0]),
    ensures
        keyed_u64(a + key + space + digits + b, key) == Some(decimal_value(digits) as u64),
{
    let s = a + key + space + digits + b;
    let k = a.len();
    let t = digits + b;
    assert(s.subrange(k as int, (k + key.len()) as int) =~= key);
    if k > 0 {
        assert(s[k - 1] == a.last());
    }
    assert(s[(k + key.len()) as int] == space[0]);
    assert(is_space(space[0]));
    assert(is_digit(digits[0]));
    assert(t[0] == digits[0]);
    let rest = s.skip((k + key.len()) as int);
    assert(rest =~= space + t);
    lemma_leading_space(space, t);
    assert(without_prefix_char(t, ':') == t);
    assert(without_leading_space(t) == t);
    assert(without_prefix_char(t, '|') == t);
    lemma_digits_lead(digits, b);
    lemma_keyed_from(s, key, 0, k);
}

/// A line names the slot behind `id` and the task behind `task`, and nothing else is
/// taken for them.
pub proof fn law_line_names_slot_and_task(
    s: Seq<char>,
    a1: Seq<char>,
    space1: Seq<char>,
    slot: Seq<char>,
    b1: Seq<char>,
    a2: Seq<char>,
    space2: Seq<char>,
    task: Seq<char>,
    b2: Seq<char>,
)
    requires
        s == a1 + "id"@ + space1 + slot + b1,
        s == a2 + "task"@ + space2 + task + b2,
        is_absent_before(s, "id"@, a1.len()),
        is_absent_before(s, "task"@, a2.len()),
        a1.len() == 0 || !is_alphanumeric(a1.last()),
        a2.len() == 0 || !is_alphanumeric(a2.last()),
        space1.len() > 0,
        space2.len() > 0,
        is_blank(space1),
        is_blank(space2),
        all_digits(slot),
        all_digits(task),
        slot.len() > 0,
        task.len() > 0,
        decimal_value(slot) <= u32::MAX,
        decimal_value(task) <= u64::MAX,
        b1.len() == 0 || !is_digit(b1[0]),
        b2.len() == 0 || !is_digit(b2[0]),
    ensures
        slot_and_task(s) == Some((decimal_value(slot) as u32, decimal_value(task) as u64)),
{
    reveal_strlit("id");
    reveal_strlit("task");
    law_number_behind_a_key_is_read(a1, "id"@, space1, slot, b1);
    law_number_behind_a_key_is_read(a2, "task"@, space2, task, b2);
}

/// A speed that a numeral writes: a finite number that is not negative.
pub open spec fn speed_written(numeral: Seq<char>) -> Option<Binary64> {
    match float_value(numeral) {
        Some(x) => if x.finite() && x.rank() >= 0 {
            Some(x)
        } else {
            None
        },
        None => None,
    }
}

/// Whether a text is made of the characters of a numeral alone, and holds any.
pub open spec fn is_numeral(s: Seq<char>) -> bool {
    s.len() > 0 && forall|i: int|
        0 <= i < s.len() ==> is_digit(#[trigger] s[i]) || s[i] == '.' || s[i] == '-' || s[i] == '+'
            || s[i] == 'e' || s[i] == 'E'
}

proof fn lemma_numeral_leads(numeral: Seq<char>, b: Seq<char>)
    requires
        is_numeral(numeral),
        b.len() == 0 || !is_numeral_char(b[0]),
    ensures
        leading_float(numeral + b) == speed_written(numeral),
{
    let s = numeral + b;
    let keep = |c: char| is_numeral_char(c);
    assert forall|j: int| 0 <= j < numeral.len() implies keep(#[trigger] s[j]) by {
        assert(s[j] == numeral[j]);
    }
    if b.len() > 0 {
        assert(s[numeral.len() as int] == b[0]);
    }
    lemma_run_length(s, keep, numeral.len());
    assert(s.take(numeral.len() as int) =~= numeral);
}

/// The speed before the words `tokens per second` is read: the numeral that stands as the
/// last word before them.
pub proof fn law_speed_before_its_unit_is_read(
    a: Seq<char>,
    numeral: Seq<char>,
    space: Seq<char>,
    b: Seq<char>,
)
    requires
        is_numeral(numeral),
        a.len() == 0 || is_space(a.last()) || a.last() == '/',
        is_blank(space),
        is_absent_before(
            a + numeral + space + "tokens per second"@ + b,
            "tokens per second"@,
            (a + numeral + space).len(),
        ),
    ensures
        reported_speed(a + numeral + space + "tokens per second"@ + b) == speed_written(numeral),
{
    let unit = "tokens per second"@;
    let head = a + numeral + space;
    let s = head + unit + b;
    assert(s =~= a + numeral + space + unit + b);
    law_first_place(head, unit, b);
    assert(s.take(head.len() as int) =~= head);
    let t = a + numeral;
    assert(t.last() == numeral.last());
    assert(!is_separator(numeral[numeral.len() - 1]));
    assert(head =~= t + space);
    lemma_trailing_space(t, space);
    assert forall|j: int| a.len() <= j < t.len() implies !is_separator(#[trigger] t[j]) by {
        assert(t[j] == numeral[j - a.len()]);
    }
    if a.len() > 0 {
        assert(t[a.len() - 1] == a.last());
    }
    lemma_last_run(t, a.len() as int, t.len() as int);
    assert(t.take(t.len() as int) =~= t);
    assert(t.subrange(a.len() as int, t.len() as int) =~= numeral);
    assert(last_word(t) == numeral);
    lemma_numeral_leads(numeral, Seq::empty());
    assert(numeral + Seq::<char>::empty() =~= numeral);
}

proof fn lemma_float_after(
    space1: Seq<char>,
    space2: Seq<char>,
    numeral: Seq<char>,
    b: Seq<char>,
)
    requires
        is_blank(space1),
        is_blank(space2),
        is_numeral(numeral),
        b.len() == 0 || !is_numeral_char(b[0]),
    ensures
        float_after(space1 + seq!['='] + space2 + numeral + b) == speed_written(numeral),
{
    let tail = space2 + (numeral + b);
    let mid = seq!['='] + tail;
    assert((numeral + b)[0] == numeral[0]);
    assert(!is_space(numeral[0]));
    assert(space1 + seq!['='] + space2 + numeral + b =~= space1 + mid);
    lemma_leading_space(space1, mid);
    assert(without_prefix_char(mid, '=') =~= tail);
    lemma_leading_space(space2, numeral + b);
    lemma_numeral_leads(numeral, b);
}

/// The speed of the last three seconds is the one behind `tg_3s =`.
pub proof fn law_recent_speed_is_read(
    a: Seq<char>,
    space1: Seq<char>,
    space2: Seq<char>,
    numeral: Seq<char>,
    b: Seq<char>,
)
    requires
        is_blank(space1),
        is_blank(space2),
        is_numeral(numeral),
        b.len() == 0 || !is_numeral_char(b[0]),
        is_absent_before(
            a + "tg_3s"@ + (space1 + seq!['='] + space2 + numeral + b),
            "tg_3s"@,
            a.len(),
        ),
    ensures
        tagged_float(a + "tg_3s"@ + (space1 + seq!['='] + space2 + numeral + b), "tg_3s"@)
            == speed_written(numeral),
{
    let rest = space1 + seq!['='] + space2 + numeral + b;
    let s = a + "tg_3s"@ + rest;
    law_first_place(a, "tg_3s"@, rest);
    assert(s.skip((a.len() + "tg_3s"@.len()) as int) =~= rest);
    lemma_float_after(space1, space2, numeral, b);
}

proof fn lemma_average_from(s: Seq<char>, i: nat, k: nat)
    requires
        i <= k,
        k + 2 <= s.len(),
        is_absent_before(s, "tg"@, k),
        occurs_at(s, "tg"@, k),
        !has_prefix(s.skip((k + 2) as int), "_3s"@),
        starts_word(s, k),
        float_after(s.skip((k + 2) as int)) is Some,
    ensures
        whole_average_from(s, i) == float_after(s.skip((k + 2) as int)),
    decreases k - i,
{
    if i < k {
        assert(s.subrange(i as int, i as int + "tg"@.len()) != "tg"@);
        assert(!occurs_at(s, "tg"@, i));
        lemma_average_from(s, i + 1, k);
    }
}

/// The average speed of a generation is the one behind the first `tg =`.
pub proof fn law_average_speed_is_read(
    a: Seq<char>,
    space1: Seq<char>,
    space2: Seq<char>,
    numeral: Seq<char>,
    b: Seq<char>,
)
    requires
        a.len() == 0 || !is_alphanumeric(a.last()),
        is_blank(space1),
        is_blank(space2),
        is_numeral(numeral),
        speed_written(numeral) is Some,
        b.len() == 0 || !is_numeral_char(b[0]),
        is_absent_before(
            a + "tg"@ + (space1 + seq!['='] + space2 + numeral + b),
            "tg"@,
            a.len(),
        ),
    ensures
        whole_average_from(a + "tg"@ + (space1 + seq!['='] + space2 + numeral + b), 0)
            == speed_written(numeral),
{
    reveal_strlit("tg");
    reveal_strlit("_3s");
    let rest = space1 + seq!['='] + space2 + numeral + b;
    let s = a + "tg"@ + rest;
    assert(s.skip((a.len() + 2) as int) =~= rest);
    assert(s.subrange(a.len() as int, (a.len() + 2) as int) =~= "tg"@);
    if a.len() > 0 {
        assert(s[a.len() - 1] == a.last());
    }
    lemma_float_after(space1, space2, numeral, b);
    assert(rest[0] != '_') by {
        if space1.len() > 0 {
            assert(rest[0] == space1[0]);
            assert(is_space(space1[0]));
        } else {
            assert(rest[0] == '=');
        }
    }
    if has_prefix(rest, "_3s"@) {
        assert(rest.take(3)[0] == "_3s"@[0]);
    }
    lemma_average_from(s, 0, a.len());
}

/// What a line that names a slot and a task reports, by the words it holds: the end of
/// the work, else the launch of a task, else a generation with its recent speed, else a
/// prompt being read, a prompt that has been read or a generation that has ended with
/// the speed told. A line without slot and task reports nothing.
pub proof fn law_words_tell_the_event(s: Seq<char>, slot_id: u32, task_id: u64)
    ensures
        slot_and_task(s) is None ==> line_event(s) is None,
        slot_and_task(s) == Some((slot_id, task_id)) ==> {
            let stops = has_part(s, "stop processing"@);
            let reads = has_part(s, "prompt processing"@);
            let ended = has_part(s, "eval time"@);
            let launches = (has_part(s, "launch_slot"@) || has_part(s, "processing task"@))
                && !reads && !has_part(s, "tg_3s"@) && !ended;
            let recent = tagged_float(s, "tg_3s"@);
            let speed = reported_speed(s);
            &&& stops ==> line_event(s) == Some(LiveLogEvent::Release { slot_id, task_id })
            &&& !stops && launches ==> line_event(s) == Some(
                LiveLogEvent::Launch { slot_id, task_id },
            )
            &&& !stops && !launches && recent is Some ==> line_event(s) == Some(
                LiveLogEvent::Generation {
                    slot_id,
                    task_id,
                    tg: whole_average_from(s, 0),
                    tg_3s: recent->0,
                },
            )
            &&& !stops && !launches && recent is None && speed is None ==> line_event(s) is None
            &&& !stops && !launches && recent is None && speed is Some ==> {
                &&& reads ==> line_event(s) == Some(
                    LiveLogEvent::Prefill { slot_id, task_id, prompt_speed: speed->0 },
                )
                &&& !reads && has_part(s, "prompt eval time"@) ==> line_event(s) == Some(
                    LiveLogEvent::PromptEvalDone { slot_id, task_id, tokens_per_sec: speed->0 },
                )
                &&& !reads && !has_part(s, "prompt eval time"@) && ended ==> line_event(s) == Some(
                    LiveLogEvent::EvalDone { slot_id, task_id, tokens_per_sec: speed->0 },
                )
                &&& !reads && !has_part(s, "prompt eval time"@) && !ended ==> line_event(s) is None
            }
        },
{
    law_held_is_a_part(s, "stop processing"@);
    law_held_is_a_part(s, "prompt processing"@);
    law_held_is_a_part(s, "eval time"@);
    law_held_is_a_part(s, "launch_slot"@);
    law_held_is_a_part(s, "processing task"@);
    law_held_is_a_part(s, "tg_3s"@);
    law_held_is_a_part(s, "prompt eval time"@);
}

} // verus!
