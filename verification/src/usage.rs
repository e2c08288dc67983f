//! Lifetime token usage, and what it would have cost elsewhere.
use crate::binary::Binary64;
use crate::clock::{elapsed, Moment};
use crate::llama::live_slots::{
    is_absent_before, is_blank, leading_u64, lemma_digits_lead, parse_leading_u64,
};
use crate::text::{
    all_digits, chars_of, decimal_value, find_from, has_part, is_digit, law_first_place,
    law_held_is_a_part, lemma_leading_space, next_place, rest_from, skip_char, trim_start, without_leading_space,
};
use vstd::prelude::*;

verus! {

/// Nanoseconds within which the same cache report counts once.
pub const CACHE_DEDUP_WINDOW: u64 = 2_000_000_000;

/// Nanoseconds between two saves.
pub const SAVE_DEBOUNCE: u64 = 5_000_000_000;

/// Prices of one provider, in dollars per million tokens.
#[derive(Clone, Copy, Debug, PartialEq, Eq, Structural)]
pub struct ProviderRates {
    /// Prompt tokens.
    pub input_per_m: Binary64,
    /// Prompt tokens taken from the cache, where they have a price of their own.
    pub cached_input_per_m: Option<Binary64>,
    /// Generated tokens.
    pub output_per_m: Binary64,
}

/// The prices of GPT-5.6 Luna.
pub open spec fn luna() -> ProviderRates {
    ProviderRates {
        input_per_m: Binary64::ratio_of(20, 100),
        cached_input_per_m: Some(Binary64::ratio_of(2, 100)),
        output_per_m: Binary64::ratio_of(120, 100),
    }
}

/// The prices of Qwen3.8-27B in Singapore, with its implicit cache.
pub open spec fn qwen() -> ProviderRates {
    ProviderRates {
        input_per_m: Binary64::ratio_of(50, 100),
        cached_input_per_m: Some(Binary64::ratio_of(10, 100)),
        output_per_m: Binary64::ratio_of(300, 100),
    }
}

/// The prices of GPT-5.6 Luna.
pub fn luna_rates() -> (r: ProviderRates)
    ensures
        r == luna(),
{
    ProviderRates {
        input_per_m: Binary64::ratio(20, 100),
        cached_input_per_m: Some(Binary64::ratio(2, 100)),
        output_per_m: Binary64::ratio(120, 100),
    }
}

/// The prices of Qwen3.8-27B in Singapore, with its implicit cache.
pub fn qwen_rates() -> (r: ProviderRates)
    ensures
        r == qwen(),
{
    ProviderRates {
        input_per_m: Binary64::ratio(50, 100),
        cached_input_per_m: Some(Binary64::ratio(10, 100)),
        output_per_m: Binary64::ratio(300, 100),
    }
}

/// The price of cached prompt tokens: their own, or that of other prompt tokens.
pub open spec fn cached_rate(rates: ProviderRates) -> Binary64 {
    match rates.cached_input_per_m {
        Some(rate) => rate,
        None => rates.input_per_m,
    }
}

impl ProviderRates {
    /// The price of cached prompt tokens.
    pub fn effective_cached_input_per_m(self) -> (r: Binary64)
        ensures
            r == cached_rate(self),
    {
        match self.cached_input_per_m {
            Some(rate) => rate,
            None => self.input_per_m,
        }
    }
}

/// What so many tokens cost at a price per million.
pub open spec fn price(tokens: u64, rate: Binary64) -> Binary64 {
    Binary64::of(tokens as nat).product(rate).quotient(Binary64::of(1_000_000))
}

/// What so many tokens of each kind would have cost.
pub open spec fn api_cost(
    prompt: u64,
    cached: u64,
    predicted: u64,
    rates: ProviderRates,
) -> Binary64 {
    price(prompt, rates.input_per_m).sum(price(cached, cached_rate(rates))).sum(
        price(predicted, rates.output_per_m),
    )
}

/// What so many tokens of each kind would have cost.
pub fn estimated_api_cost(prompt: u64, cached: u64, predicted: u64, rates: &ProviderRates) -> (r:
    Binary64)
    ensures
        r == api_cost(prompt, cached, predicted, *rates),
{
    let million = Binary64::from_u64(1_000_000);
    let input = Binary64::from_u64(prompt).times(rates.input_per_m).over(million);
    let reused = Binary64::from_u64(cached).times(rates.effective_cached_input_per_m()).over(
        million,
    );
    let output = Binary64::from_u64(predicted).times(rates.output_per_m).over(million);
    input.plus(reused).plus(output)
}

/// Lifetime counters, and the server's counters that they were last brought up to
/// date with.
#[derive(Clone, Debug)]
pub struct UsageStats {
    /// Prompt tokens processed.
    pub prompt_tokens: u64,
    /// Tokens generated.
    pub predicted_tokens: u64,
    /// Prompt tokens taken from the cache.
    pub cached_tokens: u64,
    /// The largest context that the server has held.
    pub peak_context_tokens: u64,
    /// Tokens drafted by speculative decoding.
    pub mtp_draft_tokens: u64,
    /// Drafted tokens that were accepted.
    pub mtp_accepted_tokens: u64,
    /// The server's prompt counter at the last sample.
    pub last_prompt: u64,
    /// The server's generation counter at the last sample.
    pub last_predicted: u64,
    /// The server's cache counter at the last sample.
    pub last_cached: u64,
    /// The server's counter of drafted tokens at the last sample.
    pub last_mtp_draft: u64,
    /// The server's counter of accepted tokens at the last sample.
    pub last_mtp_accepted: u64,
    /// Whether the server's session counts cached tokens itself.
    pub native_cached_counter: bool,
    /// When the counters last changed, in seconds of Unix time.
    pub updated_at: u64,
    /// Whether there is anything to save.
    pub dirty: bool,
    /// When the counters were last saved.
    pub last_saved: Option<Moment>,
    /// The cache reports that counted and may come again within the window, and when
    /// they came.
    pub recent_reports: Vec<(u64, Moment)>,
}

/// What the counters are.
#[verifier::ext_equal]
pub struct Usage {
    /// Prompt tokens processed.
    pub prompt_tokens: u64,
    /// Tokens generated.
    pub predicted_tokens: u64,
    /// Prompt tokens taken from the cache.
    pub cached_tokens: u64,
    /// The largest context that the server has held.
    pub peak_context_tokens: u64,
    /// Tokens drafted by speculative decoding.
    pub mtp_draft_tokens: u64,
    /// Drafted tokens that were accepted.
    pub mtp_accepted_tokens: u64,
    /// The server's prompt counter at the last sample.
    pub last_prompt: u64,
    /// The server's generation counter at the last sample.
    pub last_predicted: u64,
    /// The server's cache counter at the last sample.
    pub last_cached: u64,
    /// The server's counter of drafted tokens at the last sample.
    pub last_mtp_draft: u64,
    /// The server's counter of accepted tokens at the last sample.
    pub last_mtp_accepted: u64,
    /// Whether the server's session counts cached tokens itself.
    pub native_cached_counter: bool,
    /// When the counters last changed, in seconds of Unix time.
    pub updated_at: u64,
    /// Whether there is anything to save.
    pub dirty: bool,
    /// When the counters were last saved.
    pub last_saved: Option<Moment>,
    /// The cache reports that counted and may come again within the window, and when
    /// they came.
    pub recent_reports: Seq<(u64, Moment)>,
}

impl View for UsageStats {
    type V = Usage;

    open spec fn view(&self) -> Usage {
        Usage {
            prompt_tokens: self.prompt_tokens,
            predicted_tokens: self.predicted_tokens,
            cached_tokens: self.cached_tokens,
            peak_context_tokens: self.peak_context_tokens,
            mtp_draft_tokens: self.mtp_draft_tokens,
            mtp_accepted_tokens: self.mtp_accepted_tokens,
            last_prompt: self.last_prompt,
            last_predicted: self.last_predicted,
            last_cached: self.last_cached,
            last_mtp_draft: self.last_mtp_draft,
            last_mtp_accepted: self.last_mtp_accepted,
            native_cached_counter: self.native_cached_counter,
            updated_at: self.updated_at,
            dirty: self.dirty,
            last_saved: self.last_saved,
            recent_reports: self.recent_reports@,
        }
    }
}

/// Counters that have counted nothing.
pub open spec fn no_usage() -> Usage {
    Usage {
        prompt_tokens: 0,
        predicted_tokens: 0,
        cached_tokens: 0,
        peak_context_tokens: 0,
        mtp_draft_tokens: 0,
        mtp_accepted_tokens: 0,
        last_prompt: 0,
        last_predicted: 0,
        last_cached: 0,
        last_mtp_draft: 0,
        last_mtp_accepted: 0,
        native_cached_counter: false,
        updated_at: 0,
        dirty: false,
        last_saved: None,
        recent_reports: Seq::empty(),
    }
}

impl Default for UsageStats {
    fn default() -> (r: UsageStats)
        ensures
            r@ == no_usage(),
    {
        UsageStats {
            prompt_tokens: 0,
            predicted_tokens: 0,
            cached_tokens: 0,
            peak_context_tokens: 0,
            mtp_draft_tokens: 0,
            mtp_accepted_tokens: 0,
            last_prompt: 0,
            last_predicted: 0,
            last_cached: 0,
            last_mtp_draft: 0,
            last_mtp_accepted: 0,
            native_cached_counter: false,
            updated_at: 0,
            dirty: false,
            last_saved: None,
            recent_reports: Vec::new(),
        }
    }
}

/// A sample of the server's counters.
#[derive(Clone, Copy, Debug, PartialEq, Eq, Structural)]
pub struct PrometheusUsageSample {
    /// Prompt tokens processed in the session.
    pub prompt: u64,
    /// Tokens generated in the session.
    pub predicted: u64,
    /// Prompt tokens taken from the cache, where the server counts them.
    pub cached: Option<u64>,
    /// The largest context of the session, where the server tells it.
    pub peak_context: Option<u64>,
    /// Tokens drafted, where the server counts them.
    pub mtp_draft: Option<u64>,
    /// Drafted tokens that were accepted, where the server counts them.
    pub mtp_accepted: Option<u64>,
}

/// Prices as they are shown.
#[derive(Clone, Copy, Debug)]
pub struct UsageRatesInfo {
    /// Luna, prompt tokens.
    pub luna_input_per_m: Binary64,
    /// Luna, cached prompt tokens.
    pub luna_cached_input_per_m: Option<Binary64>,
    /// Luna, generated tokens.
    pub luna_output_per_m: Binary64,
    /// Qwen, prompt tokens.
    pub qwen_input_per_m: Binary64,
    /// Qwen, cached prompt tokens.
    pub qwen_cached_input_per_m: Option<Binary64>,
    /// Qwen, generated tokens.
    pub qwen_output_per_m: Binary64,
    /// What the prices are of.
    pub label: &'static str,
}

/// Usage as it is shown.
#[derive(Clone, Copy, Debug)]
pub struct UsageSnapshot {
    /// Prompt tokens processed.
    pub prompt_tokens: u64,
    /// Tokens generated.
    pub predicted_tokens: u64,
    /// Prompt tokens taken from the cache.
    pub cached_tokens: u64,
    /// All prompt tokens.
    pub total_prompt_tokens: u64,
    /// The share of cached prompt tokens.
    pub cache_hit_ratio: Binary64,
    /// The share of cached prompt tokens.
    pub cache_reuse_ratio: Binary64,
    /// The largest context that the server has held.
    pub peak_context_tokens: u64,
    /// Tokens drafted by speculative decoding.
    pub mtp_draft_tokens: u64,
    /// Drafted tokens that were accepted.
    pub mtp_accepted_tokens: u64,
    /// The share of drafted tokens that were accepted, where any were drafted.
    pub mtp_acceptance_ratio: Option<Binary64>,
    /// What Luna would have cost.
    pub saved_luna_usd: Binary64,
    /// What Qwen would have cost.
    pub saved_qwen_usd: Binary64,
    /// The prices.
    pub rates: UsageRatesInfo,
}

/// A sum, no more than a machine word holds.
pub open spec fn added(a: u64, b: u64) -> u64 {
    if a + b > u64::MAX {
        u64::MAX
    } else {
        (a + b) as u64
    }
}

/// The share of cached prompt tokens, zero where there are no prompt tokens.
pub open spec fn reuse_ratio(s: Usage) -> Binary64 {
    let total = added(s.prompt_tokens, s.cached_tokens);
    if total > 0 {
        Binary64::of(s.cached_tokens as nat).quotient(Binary64::of(total as nat))
    } else {
        Binary64 { bits: 0 }
    }
}

/// The share of drafted tokens that were accepted, where any were drafted.
pub open spec fn accepted_share(s: Usage) -> Option<Binary64> {
    if s.mtp_draft_tokens > 0 {
        Some(
            Binary64::of(s.mtp_accepted_tokens as nat).quotient(
                Binary64::of(s.mtp_draft_tokens as nat),
            ),
        )
    } else {
        None
    }
}

/// The tokens that a counter has counted since it stood at `last`: a counter that
/// fell has started anew, and counts in full.
pub open spec fn counted(last: u64, current: u64) -> u64 {
    if current >= last {
        (current - last) as u64
    } else {
        current
    }
}

/// Whether a sample shows that the server has started anew.
pub open spec fn shows_restart(
    s: Usage,
    prompt: u64,
    predicted: u64,
    cached: Option<u64>,
) -> bool {
    prompt < s.last_prompt || predicted < s.last_predicted || (cached is Some && cached->0
        < s.last_cached)
}

/// The counters after a change at `unix_secs`.
pub open spec fn touched(s: Usage, unix_secs: u64) -> Usage {
    Usage { dirty: true, updated_at: unix_secs, ..s }
}

/// The counters after a sample of the server's counters.
pub open spec fn after_sample(
    s: Usage,
    prompt: u64,
    predicted: u64,
    cached: Option<u64>,
    unix_secs: u64,
) -> Usage {
    let folded = Usage {
        prompt_tokens: added(s.prompt_tokens, counted(s.last_prompt, prompt)),
        predicted_tokens: added(s.predicted_tokens, counted(s.last_predicted, predicted)),
        cached_tokens: match cached {
            Some(current) => added(s.cached_tokens, counted(s.last_cached, current)),
            None => s.cached_tokens,
        },
        last_prompt: prompt,
        last_predicted: predicted,
        last_cached: match cached {
            Some(current) => current,
            None => s.last_cached,
        },
        native_cached_counter: cached is Some || (s.native_cached_counter && !shows_restart(
            s,
            prompt,
            predicted,
            cached,
        )),
        ..s
    };
    if counted(s.last_prompt, prompt) != 0 || counted(s.last_predicted, predicted) != 0 || (cached
        is Some && counted(s.last_cached, cached->0) != 0) {
        touched(folded, unix_secs)
    } else {
        folded
    }
}

/// A total after the server's counter stands at `current`, where it has one.
pub open spec fn grown(total: u64, last: u64, current: Option<u64>) -> u64 {
    match current {
        Some(c) => added(total, counted(last, c)),
        None => total,
    }
}

/// The larger of two counts.
pub open spec fn larger(a: u64, b: Option<u64>) -> u64 {
    match b {
        Some(b) => if b > a {
            b
        } else {
            a
        },
        None => a,
    }
}

/// The last value of a counter, where it has one now.
pub open spec fn latest(last: u64, current: Option<u64>) -> u64 {
    match current {
        Some(c) => c,
        None => last,
    }
}

/// Whether a counter has counted anything since it stood at `last`.
pub open spec fn has_counted(last: u64, current: Option<u64>) -> bool {
    current is Some && counted(last, current->0) != 0
}

/// The counters after a whole sample: beside the tokens, the largest context is
/// kept, and drafted and accepted tokens are counted like the others.
pub open spec fn after_whole_sample(
    s: Usage,
    sample: PrometheusUsageSample,
    unix_secs: u64,
) -> Usage {
    let folded = Usage {
        peak_context_tokens: larger(s.peak_context_tokens, sample.peak_context),
        mtp_draft_tokens: grown(s.mtp_draft_tokens, s.last_mtp_draft, sample.mtp_draft),
        mtp_accepted_tokens: grown(
            s.mtp_accepted_tokens,
            s.last_mtp_accepted,
            sample.mtp_accepted,
        ),
        last_mtp_draft: latest(s.last_mtp_draft, sample.mtp_draft),
        last_mtp_accepted: latest(s.last_mtp_accepted, sample.mtp_accepted),
        ..after_sample(s, sample.prompt, sample.predicted, sample.cached, unix_secs)
    };
    if folded.peak_context_tokens != s.peak_context_tokens || has_counted(
        s.last_mtp_draft,
        sample.mtp_draft,
    ) || has_counted(s.last_mtp_accepted, sample.mtp_accepted) {
        touched(folded, unix_secs)
    } else {
        folded
    }
}

/// The reports that came within the window before `now`.
pub open spec fn still_recent(reports: Seq<(u64, Moment)>, now: Moment) -> Seq<(u64, Moment)>
    decreases reports.len(),
{
    if reports.len() == 0 {
        Seq::empty()
    } else {
        let before = still_recent(reports.drop_last(), now);
        if elapsed(reports.last().1, now) < CACHE_DEDUP_WINDOW {
            before.push(reports.last())
        } else {
            before
        }
    }
}

/// Whether the same report came within the window before `now`.
pub open spec fn is_repeated(reports: Seq<(u64, Moment)>, n: u64, now: Moment) -> bool {
    exists|i: int|
        0 <= i < reports.len() && (#[trigger] reports[i]).0 == n && elapsed(reports[i].1, now)
            < CACHE_DEDUP_WINDOW
}

/// Whether a cache report counts: not where the server counts itself, not an empty
/// one, and not one that counted already within the window, whatever came in
/// between.
pub open spec fn report_counts(s: Usage, n: u64, now: Moment) -> bool {
    !s.native_cached_counter && n != 0 && !is_repeated(s.recent_reports, n, now)
}

/// The counters after a cache report that counts.
pub open spec fn after_report(s: Usage, n: u64, now: Moment, unix_secs: u64) -> Usage {
    touched(
        Usage {
            cached_tokens: added(s.cached_tokens, n),
            recent_reports: still_recent(s.recent_reports, now).push((n, now)),
            ..s
        },
        unix_secs,
    )
}

/// The counters after a reset: the totals start anew, and the server's counters are
/// kept so that its session is not counted again.
pub open spec fn after_reset(s: Usage, unix_secs: u64) -> Usage {
    touched(
        Usage {
            prompt_tokens: 0,
            predicted_tokens: 0,
            cached_tokens: 0,
            peak_context_tokens: 0,
            mtp_draft_tokens: 0,
            mtp_accepted_tokens: 0,
            recent_reports: Seq::empty(),
            ..s
        },
        unix_secs,
    )
}

/// Whether the counters are to be saved.
pub open spec fn save_is_due(s: Usage, force: bool, now: Moment) -> bool {
    s.dirty && (force || s.last_saved is None || elapsed(s.last_saved->0, now) >= SAVE_DEBOUNCE)
}

/// Seconds of Unix time by `SystemTime::now`. Nothing is claimed of the result,
/// which the machine's clock decides.
#[verifier::external_body]
fn now_secs() -> u64 {
    std::time::SystemTime::now().duration_since(std::time::UNIX_EPOCH).unwrap_or_default().as_secs()
}

fn counted_since(last: u64, current: u64) -> (r: u64)
    ensures
        r == counted(last, current),
{
    if current >= last {
        current - last
    } else {
        current
    }
}

fn has_report(reports: &Vec<(u64, Moment)>, n: u64, now: Moment) -> (r: bool)
    ensures
        r == is_repeated(reports@, n, now),
{
    let len: usize = reports.len();
    let mut i: usize = 0;
    while i < len
        invariant
            len == reports@.len(),
            i <= len,
            forall|j: int|
                0 <= j < i ==> (#[trigger] reports@[j]).0 != n || elapsed(reports@[j].1, now)
                    >= CACHE_DEDUP_WINDOW,
        decreases len - i,
    {
        if reports[i].0 == n && now.since(reports[i].1) < CACHE_DEDUP_WINDOW {
            assert(reports@[i as int].0 == n);
            return true;
        }
        i = i + 1;
    }
    false
}

fn recent_of(reports: &Vec<(u64, Moment)>, now: Moment) -> (r: Vec<(u64, Moment)>)
    ensures
        r@ == still_recent(reports@, now),
{
    let len: usize = reports.len();
    let mut kept: Vec<(u64, Moment)> = Vec::new();
    let mut i: usize = 0;
    assert(reports@.take(0) =~= Seq::<(u64, Moment)>::empty());
    while i < len
        invariant
            len == reports@.len(),
            i <= len,
            kept@ == still_recent(reports@.take(i as int), now),
        decreases len - i,
    {
        proof {
            assert(reports@.take(i + 1).drop_last() =~= reports@.take(i as int));
        }
        if now.since(reports[i].1) < CACHE_DEDUP_WINDOW {
            kept.push(reports[i]);
        }
        i = i + 1;
    }
    assert(reports@.take(len as int) =~= reports@);
    kept
}

impl UsageStats {
    /// Usage as it is shown.
    pub fn snapshot(&self) -> (r: UsageSnapshot)
        ensures
            r.prompt_tokens == self.prompt_tokens,
            r.predicted_tokens == self.predicted_tokens,
            r.cached_tokens == self.cached_tokens,
            r.total_prompt_tokens == added(self.prompt_tokens, self.cached_tokens),
            r.cache_hit_ratio == reuse_ratio(self@),
            r.cache_reuse_ratio == reuse_ratio(self@),
            r.peak_context_tokens == self.peak_context_tokens,
            r.mtp_draft_tokens == self.mtp_draft_tokens,
            r.mtp_accepted_tokens == self.mtp_accepted_tokens,
            r.mtp_acceptance_ratio == accepted_share(self@),
            r.saved_luna_usd == api_cost(
                self.prompt_tokens,
                self.cached_tokens,
                self.predicted_tokens,
                luna(),
            ),
            r.saved_qwen_usd == api_cost(
                self.prompt_tokens,
                self.cached_tokens,
                self.predicted_tokens,
                qwen(),
            ),
            r.rates.luna_input_per_m == luna().input_per_m,
            r.rates.luna_cached_input_per_m == luna().cached_input_per_m,
            r.rates.luna_output_per_m == luna().output_per_m,
            r.rates.qwen_input_per_m == qwen().input_per_m,
            r.rates.qwen_cached_input_per_m == qwen().cached_input_per_m,
            r.rates.qwen_output_per_m == qwen().output_per_m,
            r.rates.label@ == "GPT-5.6 Luna / Qwen3.8-27B Singapore Implicit Cache"@,
    {
        let total_prompt_tokens: u64 = self.prompt_tokens.saturating_add(self.cached_tokens);
        let ratio = if total_prompt_tokens > 0 {
            Binary64::from_u64(self.cached_tokens).over(Binary64::from_u64(total_prompt_tokens))
        } else {
            Binary64::zero()
        };
        let accepted = if self.mtp_draft_tokens > 0 {
            Some(
                Binary64::from_u64(self.mtp_accepted_tokens).over(
                    Binary64::from_u64(self.mtp_draft_tokens),
                ),
            )
        } else {
            None
        };
        let luna = luna_rates();
        let qwen = qwen_rates();
        UsageSnapshot {
            prompt_tokens: self.prompt_tokens,
            predicted_tokens: self.predicted_tokens,
            cached_tokens: self.cached_tokens,
            total_prompt_tokens,
            cache_hit_ratio: ratio,
            cache_reuse_ratio: ratio,
            peak_context_tokens: self.peak_context_tokens,
            mtp_draft_tokens: self.mtp_draft_tokens,
            mtp_accepted_tokens: self.mtp_accepted_tokens,
            mtp_acceptance_ratio: accepted,
            saved_luna_usd: estimated_api_cost(
                self.prompt_tokens,
                self.cached_tokens,
                self.predicted_tokens,
                &luna,
            ),
            saved_qwen_usd: estimated_api_cost(
                self.prompt_tokens,
                self.cached_tokens,
                self.predicted_tokens,
                &qwen,
            ),
            rates: UsageRatesInfo {
                luna_input_per_m: luna.input_per_m,
                luna_cached_input_per_m: luna.cached_input_per_m,
                luna_output_per_m: luna.output_per_m,
                qwen_input_per_m: qwen.input_per_m,
                qwen_cached_input_per_m: qwen.cached_input_per_m,
                qwen_output_per_m: qwen.output_per_m,
                label: "GPT-5.6 Luna / Qwen3.8-27B Singapore Implicit Cache",
            },
        }
    }

    /// Folds a sample of the server's counters into the totals, at the machine's
    /// time.
    pub fn apply_prometheus(&mut self, prompt: u64, predicted: u64, cached: Option<u64>)
        ensures
            exists|unix_secs: u64|
                final(self)@ == #[trigger] after_sample(
                    old(self)@,
                    prompt,
                    predicted,
                    cached,
                    unix_secs,
                ),
    {
        let unix_secs: u64 = now_secs();
        self.apply_prometheus_at(prompt, predicted, cached, unix_secs);
    }

    /// Folds a sample of the server's counters into the totals: what was counted
    /// since the last sample is added, and a counter that fell counts in full.
    pub fn apply_prometheus_at(
        &mut self,
        prompt: u64,
        predicted: u64,
        cached: Option<u64>,
        unix_secs: u64,
    )
        ensures
            final(self)@ == after_sample(old(self)@, prompt, predicted, cached, unix_secs),
    {
        let cached_restart: bool = match cached {
            Some(current) => current < self.last_cached,
            None => false,
        };
        let server_restart: bool = prompt < self.last_prompt || predicted < self.last_predicted
            || cached_restart;
        let prompt_delta: u64 = counted_since(self.last_prompt, prompt);
        let predicted_delta: u64 = counted_since(self.last_predicted, predicted);
        let mut changed: bool = prompt_delta != 0 || predicted_delta != 0;
        self.prompt_tokens = self.prompt_tokens.saturating_add(prompt_delta);
        self.predicted_tokens = self.predicted_tokens.saturating_add(predicted_delta);
        self.last_prompt = prompt;
        self.last_predicted = predicted;
        if let Some(current) = cached {
            self.native_cached_counter = true;
            let cached_delta: u64 = counted_since(self.last_cached, current);
            if cached_delta != 0 {
                self.cached_tokens = self.cached_tokens.saturating_add(cached_delta);
                changed = true;
            }
            self.last_cached = current;
        } else if server_restart {
            self.native_cached_counter = false;
        }
        if changed {
            self.touch(unix_secs);
        }
    }

    /// Folds a whole sample of the server's counters into the totals, at the
    /// machine's time.
    pub fn apply_sample(&mut self, sample: &PrometheusUsageSample)
        ensures
            exists|unix_secs: u64|
                final(self)@ == #[trigger] after_whole_sample(old(self)@, *sample, unix_secs),
    {
        let unix_secs: u64 = now_secs();
        self.apply_sample_at(sample, unix_secs);
    }

    /// Folds a whole sample of the server's counters into the totals.
    pub fn apply_sample_at(&mut self, sample: &PrometheusUsageSample, unix_secs: u64)
        ensures
            final(self)@ == after_whole_sample(old(self)@, *sample, unix_secs),
    {
        self.apply_prometheus_at(sample.prompt, sample.predicted, sample.cached, unix_secs);
        let mut changed: bool = false;
        if let Some(peak) = sample.peak_context {
            if peak > self.peak_context_tokens {
                self.peak_context_tokens = peak;
                changed = true;
            }
        }
        if let Some(current) = sample.mtp_draft {
            let delta: u64 = counted_since(self.last_mtp_draft, current);
            if delta != 0 {
                self.mtp_draft_tokens = self.mtp_draft_tokens.saturating_add(delta);
                changed = true;
            }
            self.last_mtp_draft = current;
        }
        if let Some(current) = sample.mtp_accepted {
            let delta: u64 = counted_since(self.last_mtp_accepted, current);
            if delta != 0 {
                self.mtp_accepted_tokens = self.mtp_accepted_tokens.saturating_add(delta);
                changed = true;
            }
            self.last_mtp_accepted = current;
        }
        if changed {
            self.touch(unix_secs);
        }
    }

    /// Adds tokens taken from the cache, at the machine's time, and says whether
    /// they counted.
    pub fn add_cached(&mut self, n: u64, now: Moment) -> (r: bool)
        ensures
            r == report_counts(old(self)@, n, now),
            !r ==> final(self)@ == old(self)@,
            r ==> exists|unix_secs: u64|
                final(self)@ == #[trigger] after_report(old(self)@, n, now, unix_secs),
    {
        let unix_secs: u64 = now_secs();
        self.add_cached_at(n, now, unix_secs)
    }

    /// Adds tokens taken from the cache, and says whether they counted.
    pub fn add_cached_at(&mut self, n: u64, now: Moment, unix_secs: u64) -> (r: bool)
        ensures
            r == report_counts(old(self)@, n, now),
            !r ==> final(self)@ == old(self)@,
            r ==> final(self)@ == after_report(old(self)@, n, now, unix_secs),
    {
        if self.native_cached_counter || n == 0 {
            return false;
        }
        if has_report(&self.recent_reports, n, now) {
            return false;
        }
        let mut reports = recent_of(&self.recent_reports, now);
        reports.push((n, now));
        self.cached_tokens = self.cached_tokens.saturating_add(n);
        self.recent_reports = reports;
        self.touch(unix_secs);
        true
    }

    /// Starts the totals anew, at the machine's time.
    pub fn reset(&mut self)
        ensures
            exists|unix_secs: u64| final(self)@ == #[trigger] after_reset(old(self)@, unix_secs),
    {
        let unix_secs: u64 = now_secs();
        self.reset_at(unix_secs);
    }

    /// Starts the totals anew.
    pub fn reset_at(&mut self, unix_secs: u64)
        ensures
            final(self)@ == after_reset(old(self)@, unix_secs),
    {
        self.prompt_tokens = 0;
        self.predicted_tokens = 0;
        self.cached_tokens = 0;
        self.peak_context_tokens = 0;
        self.mtp_draft_tokens = 0;
        self.mtp_accepted_tokens = 0;
        self.recent_reports = Vec::new();
        self.touch(unix_secs);
    }

    fn touch(&mut self, unix_secs: u64)
        ensures
            final(self)@ == touched(old(self)@, unix_secs),
    {
        self.dirty = true;
        self.updated_at = unix_secs;
    }

    /// Whether the counters are to be saved now.
    pub fn is_save_due(&self, force: bool, now: Moment) -> (r: bool)
        ensures
            r == save_is_due(self@, force, now),
    {
        if !self.dirty {
            return false;
        }
        match self.last_saved {
            Some(at) => force || now.since(at) >= SAVE_DEBOUNCE,
            None => true,
        }
    }

    /// Notes that the counters have been saved.
    pub fn mark_saved(&mut self, now: Moment)
        ensures
            final(self)@ == (Usage { dirty: false, last_saved: Some(now), ..old(self)@ }),
    {
        self.dirty = false;
        self.last_saved = Some(now);
    }
}

/// The number in the first `"cache_n"` member from place `i` on that has one. The
/// name without a colon behind it is no member, and is passed over.
pub open spec fn cache_report_from(s: Seq<char>, i: nat) -> Option<u64>
    decreases s.len() + 1 - i,
    when i <= s.len() && "\"cache_n\""@.len() > 0
{
    match next_place(s, "\"cache_n\""@, i) {
        Some(k) => if i <= k && k + "\"cache_n\""@.len() <= s.len() {
            let start = k + "\"cache_n\""@.len();
            let rest = without_leading_space(s.skip(start as int));
            if rest.len() == 0 || rest[0] != ':' {
                cache_report_from(s, start)
            } else {
                match leading_u64(without_leading_space(rest.drop_first())) {
                    Some(n) => Some(n),
                    None => cache_report_from(s, start),
                }
            }
        } else {
            None
        },
        None => None,
    }
}

/// The number in the first `"cache_n"` member of a log line or a chunk of a chat
/// reply.
pub fn parse_cache_n(text: &str) -> (r: Option<u64>)
    ensures
        r == cache_report_from(text@, 0),
{
    proof {
        reveal_strlit("\"cache_n\"");
    }
    let chars = chars_of(text);
    let s = chars.as_slice();
    let key = chars_of("\"cache_n\"");
    let n: usize = s.len();
    let mut from: usize = 0;
    loop
        invariant
            s@ == text@,
            n == s@.len(),
            key@ == "\"cache_n\""@,
            key@.len() > 0,
            from <= n,
            cache_report_from(text@, from as nat) == cache_report_from(text@, 0),
        decreases n - from,
    {
        let k: usize = match find_from(s, key.as_slice(), from) {
            Some(k) => k,
            None => return None,
        };
        let start: usize = k + key.len();
        let rest = trim_start(rest_from(s, start));
        if rest.len() > 0 && rest[0] == ':' {
            let value = trim_start(skip_char(rest, ':'));
            let found = parse_leading_u64(value);
            if found.is_some() {
                return found;
            }
        }
        from = start;
    }
}

// ---------------------------------------------------------------------------
// Laws
// ---------------------------------------------------------------------------
/// A sample that repeats the last one adds nothing.
pub proof fn law_repeated_sample_adds_nothing(
    s: Usage,
    sample: PrometheusUsageSample,
    t1: u64,
    t2: u64,
)
    ensures
        ({
            let once = after_whole_sample(s, sample, t1);
            after_whole_sample(once, sample, t2) == once
        }),
{
}

/// A reset does not count the running session again: the same sample adds no tokens
/// to totals that were just reset.
pub proof fn law_reset_keeps_the_baseline(
    s: Usage,
    sample: PrometheusUsageSample,
    t1: u64,
    t2: u64,
    t3: u64,
)
    ensures
        ({
            let reset = after_reset(after_whole_sample(s, sample, t1), t2);
            let again = after_whole_sample(reset, sample, t3);
            &&& again.prompt_tokens == 0
            &&& again.predicted_tokens == 0
            &&& again.cached_tokens == 0
            &&& again.mtp_draft_tokens == 0
            &&& again.mtp_accepted_tokens == 0
        }),
{
}

/// Samples never lower the totals or the largest context.
pub proof fn law_totals_never_fall(s: Usage, sample: PrometheusUsageSample, unix_secs: u64)
    ensures
        ({
            let after = after_whole_sample(s, sample, unix_secs);
            &&& after.prompt_tokens >= s.prompt_tokens
            &&& after.predicted_tokens >= s.predicted_tokens
            &&& after.cached_tokens >= s.cached_tokens
            &&& after.mtp_draft_tokens >= s.mtp_draft_tokens
            &&& after.mtp_accepted_tokens >= s.mtp_accepted_tokens
            &&& after.peak_context_tokens >= s.peak_context_tokens
        }),
{
}

/// A sample without context and drafts does what the tokens alone do.
pub proof fn law_sample_of_tokens_alone(
    s: Usage,
    prompt: u64,
    predicted: u64,
    cached: Option<u64>,
    unix_secs: u64,
)
    ensures
        after_whole_sample(
            s,
            (PrometheusUsageSample {
                prompt,
                predicted,
                cached,
                peak_context: None,
                mtp_draft: None,
                mtp_accepted: None,
            }),
            unix_secs,
        ) == after_sample(s, prompt, predicted, cached, unix_secs),
{
}

/// A counter that fell, as after a restart of the server, is added in full.
pub proof fn law_restart_counts_in_full(
    s: Usage,
    prompt: u64,
    predicted: u64,
    cached: Option<u64>,
    unix_secs: u64,
)
    requires
        prompt < s.last_prompt,
        s.prompt_tokens + prompt <= u64::MAX,
    ensures
        after_sample(s, prompt, predicted, cached, unix_secs).prompt_tokens == s.prompt_tokens
            + prompt,
        after_sample(s, prompt, predicted, cached, unix_secs).last_prompt == prompt,
{
}

/// The counters after samples of the prompt counter alone.
pub open spec fn after_prompts(s: Usage, prompts: Seq<u64>) -> Usage
    decreases prompts.len(),
{
    if prompts.len() == 0 {
        s
    } else {
        let before = after_prompts(s, prompts.drop_last());
        after_sample(before, prompts.last(), before.last_predicted, None, 0)
    }
}

/// Over one session of the server, sampled however often, the total grows by what
/// the session's counter grew.
pub proof fn law_session_adds_its_growth(s: Usage, prompts: Seq<u64>)
    requires
        prompts.len() > 0,
        prompts[0] >= s.last_prompt,
        forall|i: int, j: int| 0 <= i <= j < prompts.len() ==> prompts[i] <= prompts[j],
        s.prompt_tokens + prompts.last() - s.last_prompt <= u64::MAX,
    ensures
        after_prompts(s, prompts).prompt_tokens == s.prompt_tokens + prompts.last()
            - s.last_prompt,
        after_prompts(s, prompts).last_prompt == prompts.last(),
    decreases prompts.len(),
{
    let front = prompts.drop_last();
    if front.len() > 0 {
        assert(front.last() == prompts[prompts.len() - 2]);
        assert(prompts[prompts.len() - 2] <= prompts[prompts.len() - 1]);
        assert forall|i: int, j: int| 0 <= i <= j < front.len() implies front[i] <= front[j] by {
            assert(front[i] == prompts[i] && front[j] == prompts[j]);
        }
        assert(front[0] == prompts[0]);
        law_session_adds_its_growth(s, front);
    } else {
        assert(after_prompts(s, front) == s);
    }
}

/// While the server counts cached tokens itself, cache reports never count.
pub proof fn law_native_counter_is_sole_source(s: Usage, n: u64, now: Moment)
    requires
        s.native_cached_counter,
    ensures
        !report_counts(s, n, now),
{
}

/// The same cache report counts again exactly when the window is over.
pub proof fn law_report_counts_again_after_the_window(
    s: Usage,
    n: u64,
    first: Moment,
    second: Moment,
    unix_secs: u64,
)
    requires
        report_counts(s, n, first),
    ensures
        report_counts(after_report(s, n, first, unix_secs), n, second) == (elapsed(first, second)
            >= CACHE_DEDUP_WINDOW),
{
    lemma_recent_reports(s.recent_reports, first);
    let kept = still_recent(s.recent_reports, first);
    let reports = after_report(s, n, first, unix_secs).recent_reports;
    assert(reports[kept.len() as int] == (n, first));
    assert forall|i: int| 0 <= i < kept.len() implies (#[trigger] reports[i]).0 != n by {
        assert(reports[i] == kept[i]);
        assert(s.recent_reports.contains(kept[i]));
        let k = s.recent_reports.index_of(kept[i]);
        assert(s.recent_reports[k] == kept[i]);
    }
}

proof fn lemma_recent_reports(reports: Seq<(u64, Moment)>, now: Moment)
    ensures
        forall|i: int|
            0 <= i < still_recent(reports, now).len() ==> reports.contains(
                #[trigger] still_recent(reports, now)[i],
            ) && elapsed(still_recent(reports, now)[i].1, now) < CACHE_DEDUP_WINDOW,
        forall|i: int|
            0 <= i < reports.len() && elapsed((#[trigger] reports[i]).1, now)
                < CACHE_DEDUP_WINDOW ==> still_recent(reports, now).contains(reports[i]),
    decreases reports.len(),
{
    if reports.len() > 0 {
        let front = reports.drop_last();
        lemma_recent_reports(front, now);
        let before = still_recent(front, now);
        let all = still_recent(reports, now);
        assert forall|i: int| 0 <= i < all.len() implies reports.contains(#[trigger] all[i])
            && elapsed(all[i].1, now) < CACHE_DEDUP_WINDOW by {
            if i < before.len() {
                assert(all[i] == before[i]);
                let k = front.index_of(before[i]);
                assert(reports[k] == before[i]);
            } else {
                assert(all[i] == reports[reports.len() - 1]);
            }
        }
        assert forall|i: int|
            0 <= i < reports.len() && elapsed((#[trigger] reports[i]).1, now)
                < CACHE_DEDUP_WINDOW implies all.contains(reports[i]) by {
            if i < front.len() {
                assert(front[i] == reports[i]);
                let k = before.index_of(reports[i]);
                assert(all[k] == before[k]);
            } else {
                assert(all[all.len() - 1] == reports[i]);
            }
        }
    }
}

/// The counters after some cache reports, of which each counts or not.
pub open spec fn after_reports(s: Usage, reports: Seq<(u64, Moment)>, unix_secs: u64) -> Usage
    decreases reports.len(),
{
    if reports.len() == 0 {
        s
    } else {
        let before = after_reports(s, reports.drop_last(), unix_secs);
        let (n, now) = reports.last();
        if report_counts(before, n, now) {
            after_report(before, n, now, unix_secs)
        } else {
            before
        }
    }
}

proof fn lemma_report_is_remembered(
    s: Usage,
    report: (u64, Moment),
    reports: Seq<(u64, Moment)>,
    unix_secs: u64,
)
    requires
        s.recent_reports.contains(report),
        forall|i: int|
            0 <= i < reports.len() ==> elapsed(report.1, (#[trigger] reports[i]).1)
                < CACHE_DEDUP_WINDOW,
    ensures
        after_reports(s, reports, unix_secs).recent_reports.contains(report),
    decreases reports.len(),
{
    if reports.len() > 0 {
        let front = reports.drop_last();
        assert forall|i: int| 0 <= i < front.len() implies elapsed(
            report.1,
            (#[trigger] front[i]).1,
        ) < CACHE_DEDUP_WINDOW by {
            assert(front[i] == reports[i]);
        }
        lemma_report_is_remembered(s, report, front, unix_secs);
        let before = after_reports(s, front, unix_secs);
        let (n, now) = reports.last();
        assert(reports[reports.len() - 1].1 == now);
        lemma_recent_reports(before.recent_reports, now);
        let k = before.recent_reports.index_of(report);
        assert(before.recent_reports[k] == report);
        let kept = still_recent(before.recent_reports, now);
        let j = kept.index_of(report);
        assert(kept.push((n, now))[j] == report);
    }
}

/// A cache report that counted does not count a second time within the window,
/// whatever other reports come in between.
pub proof fn law_reports_are_counted_once(
    s: Usage,
    n: u64,
    first: Moment,
    between: Seq<(u64, Moment)>,
    second: Moment,
    unix_secs: u64,
)
    requires
        report_counts(s, n, first),
        forall|i: int|
            0 <= i < between.len() ==> elapsed(first, (#[trigger] between[i]).1)
                < CACHE_DEDUP_WINDOW,
        elapsed(first, second) < CACHE_DEDUP_WINDOW,
    ensures
        !report_counts(
            after_reports(after_report(s, n, first, unix_secs), between, unix_secs),
            n,
            second,
        ),
{
    let once = after_report(s, n, first, unix_secs);
    let kept = still_recent(s.recent_reports, first);
    assert(once.recent_reports[kept.len() as int] == (n, first));
    lemma_report_is_remembered(once, (n, first), between, unix_secs);
    let later = after_reports(once, between, unix_secs).recent_reports;
    let k = later.index_of((n, first));
    assert(later[k].0 == n);
}

/// Nothing is saved that has not changed since it was saved.
pub proof fn law_saved_is_clean(s: Usage, at: Moment, force: bool, now: Moment)
    ensures
        !save_is_due(
            (Usage { dirty: false, last_saved: Some(at), ..s }),
            force,
            now,
        ),
{
}

/// Tokens cost their price by kind: each kind at its own price per million, cached ones at
/// that of other prompt tokens where they have none of their own.
pub proof fn law_every_kind_has_its_price(
    prompt: u64,
    cached: u64,
    predicted: u64,
    rates: ProviderRates,
)
    ensures
        ({
            let million = Binary64::of(1_000_000);
            let reused = if rates.cached_input_per_m is Some {
                rates.cached_input_per_m->0
            } else {
                rates.input_per_m
            };
            let input = Binary64::of(prompt as nat).product(rates.input_per_m).quotient(million);
            let again = Binary64::of(cached as nat).product(reused).quotient(million);
            let output = Binary64::of(predicted as nat).product(rates.output_per_m).quotient(
                million,
            );
            &&& api_cost(prompt, cached, predicted, rates) == input.sum(again).sum(output)
            &&& cached_rate(rates) == reused
        }),
{
}

/// The shares that are shown: cached tokens of all prompt tokens, and accepted tokens of
/// all that were drafted.
pub proof fn law_shares_are_parts_of_the_whole(s: Usage)
    requires
        s.prompt_tokens + s.cached_tokens <= u64::MAX,
    ensures
        added(s.prompt_tokens, s.cached_tokens) == s.prompt_tokens + s.cached_tokens,
        s.prompt_tokens + s.cached_tokens > 0 ==> reuse_ratio(s) == Binary64::of(
            s.cached_tokens as nat,
        ).quotient(Binary64::of((s.prompt_tokens + s.cached_tokens) as nat)),
        s.prompt_tokens + s.cached_tokens == 0 ==> reuse_ratio(s).bits == 0,
        s.mtp_draft_tokens > 0 ==> accepted_share(s) == Some(
            Binary64::of(s.mtp_accepted_tokens as nat).quotient(
                Binary64::of(s.mtp_draft_tokens as nat),
            ),
        ),
        s.mtp_draft_tokens == 0 ==> accepted_share(s) is None,
{
}

/// How much a counter adds to a total that has room for it: what it grew by, or all of it
/// where it fell.
pub open spec fn gain(last: u64, current: u64) -> int {
    if current < last {
        current as int
    } else {
        current - last
    }
}

/// A total with more, no more than a machine word holds.
pub open spec fn topped(total: u64, more: int) -> int {
    if total + more <= u64::MAX {
        total + more
    } else {
        u64::MAX as int
    }
}

/// Every counter of a sample adds what it counted to its own total and is remembered; one
/// that the server does not have changes nothing. The largest context is the largest that
/// was told.
pub proof fn law_every_counter_is_counted(
    s: Usage,
    sample: PrometheusUsageSample,
    unix_secs: u64,
)
    ensures
        ({
            let after = after_whole_sample(s, sample, unix_secs);
            &&& after.prompt_tokens == topped(s.prompt_tokens, gain(s.last_prompt, sample.prompt))
            &&& after.last_prompt == sample.prompt
            &&& after.predicted_tokens == topped(
                s.predicted_tokens,
                gain(s.last_predicted, sample.predicted),
            )
            &&& after.last_predicted == sample.predicted
            &&& sample.cached is Some ==> after.cached_tokens == topped(
                s.cached_tokens,
                gain(s.last_cached, sample.cached->0),
            ) && after.last_cached == sample.cached->0
            &&& sample.cached is None ==> after.cached_tokens == s.cached_tokens
                && after.last_cached == s.last_cached
            &&& sample.mtp_draft is Some ==> after.mtp_draft_tokens == topped(
                s.mtp_draft_tokens,
                gain(s.last_mtp_draft, sample.mtp_draft->0),
            ) && after.last_mtp_draft == sample.mtp_draft->0
            &&& sample.mtp_draft is None ==> after.mtp_draft_tokens == s.mtp_draft_tokens
                && after.last_mtp_draft == s.last_mtp_draft
            &&& sample.mtp_accepted is Some ==> after.mtp_accepted_tokens == topped(
                s.mtp_accepted_tokens,
                gain(s.last_mtp_accepted, sample.mtp_accepted->0),
            ) && after.last_mtp_accepted == sample.mtp_accepted->0
            &&& sample.mtp_accepted is None ==> after.mtp_accepted_tokens == s.mtp_accepted_tokens
                && after.last_mtp_accepted == s.last_mtp_accepted
            &&& sample.peak_context is Some && sample.peak_context->0 > s.peak_context_tokens
                ==> after.peak_context_tokens == sample.peak_context->0
            &&& sample.peak_context is None || sample.peak_context->0 <= s.peak_context_tokens
                ==> after.peak_context_tokens == s.peak_context_tokens
            &&& after.last_saved == s.last_saved
            &&& after.recent_reports == s.recent_reports
        }),
{
}

/// A sample is worth saving where some counter counted something or the largest context
/// grew, and its time is then that of the change.
pub proof fn law_change_is_worth_saving(
    s: Usage,
    sample: PrometheusUsageSample,
    unix_secs: u64,
)
    ensures
        ({
            let after = after_whole_sample(s, sample, unix_secs);
            let changed = gain(s.last_prompt, sample.prompt) != 0 || gain(
                s.last_predicted,
                sample.predicted,
            ) != 0 || (sample.cached is Some && gain(s.last_cached, sample.cached->0) != 0) || (
            sample.mtp_draft is Some && gain(s.last_mtp_draft, sample.mtp_draft->0) != 0) || (
            sample.mtp_accepted is Some && gain(s.last_mtp_accepted, sample.mtp_accepted->0) != 0)
                || (sample.peak_context is Some && sample.peak_context->0 > s.peak_context_tokens);
            &&& changed ==> after.dirty && after.updated_at == unix_secs
            &&& !changed ==> after.dirty == s.dirty && after.updated_at == s.updated_at
        }),
{
}

/// The server counts cached tokens itself from the first sample that tells them until a
/// counter falls in one that does not.
pub proof fn law_native_counter_lasts_for_a_session(
    s: Usage,
    sample: PrometheusUsageSample,
    unix_secs: u64,
)
    ensures
        ({
            let after = after_whole_sample(s, sample, unix_secs);
            let fell = sample.prompt < s.last_prompt || sample.predicted < s.last_predicted;
            &&& sample.cached is Some ==> after.native_cached_counter
            &&& sample.cached is None && fell ==> !after.native_cached_counter
            &&& sample.cached is None && !fell ==> after.native_cached_counter
                == s.native_cached_counter
        }),
{
}

/// A cache report counts where the server does not count itself, where it tells anything,
/// and where the same number did not count within the last two seconds.
pub proof fn law_report_counts(s: Usage, n: u64, now: Moment, i: int)
    ensures
        s.native_cached_counter || n == 0 ==> !report_counts(s, n, now),
        0 <= i < s.recent_reports.len() && s.recent_reports[i].0 == n && now.nanos
            < s.recent_reports[i].1.nanos + 2_000_000_000 ==> !report_counts(s, n, now),
        !s.native_cached_counter && n != 0 && (forall|j: int|
            0 <= j < s.recent_reports.len() && (#[trigger] s.recent_reports[j]).0 == n
                ==> now.nanos >= s.recent_reports[j].1.nanos + 2_000_000_000) ==> report_counts(
            s,
            n,
            now,
        ),
{
}

/// Reports are remembered for two seconds, in their order.
pub proof fn law_reports_are_remembered(
    reports: Seq<(u64, Moment)>,
    report: (u64, Moment),
    now: Moment,
)
    ensures
        still_recent(Seq::empty(), now) == Seq::<(u64, Moment)>::empty(),
        now.nanos < report.1.nanos + 2_000_000_000 ==> still_recent(reports.push(report), now)
            == still_recent(reports, now).push(report),
        now.nanos >= report.1.nanos + 2_000_000_000 ==> still_recent(reports.push(report), now)
            == still_recent(reports, now),
{
    assert(reports.push(report).drop_last() =~= reports);
}

/// A report that counts adds its tokens and is remembered behind the recent ones, and a
/// reset forgets the totals and the reports; both are worth saving and change nothing
/// else.
pub proof fn law_report_and_reset_change_their_own(s: Usage, n: u64, now: Moment, unix_secs: u64)
    ensures
        after_report(s, n, now, unix_secs) == (Usage {
            cached_tokens: topped(s.cached_tokens, n as int) as u64,
            recent_reports: still_recent(s.recent_reports, now).push((n, now)),
            dirty: true,
            updated_at: unix_secs,
            ..s
        }),
        after_reset(s, unix_secs) == (Usage {
            prompt_tokens: 0,
            predicted_tokens: 0,
            cached_tokens: 0,
            peak_context_tokens: 0,
            mtp_draft_tokens: 0,
            mtp_accepted_tokens: 0,
            recent_reports: Seq::empty(),
            dirty: true,
            updated_at: unix_secs,
            ..s
        }),
{
}

/// Changes are saved at once where asked for, or for the first time, and else once five
/// seconds have passed since they were last saved.
pub proof fn law_changes_are_saved_in_time(s: Usage, force: bool, now: Moment)
    ensures
        !s.dirty ==> !save_is_due(s, force, now),
        s.dirty && (force || s.last_saved is None) ==> save_is_due(s, force, now),
        s.dirty && !force && s.last_saved is Some ==> save_is_due(s, force, now) == (now.nanos
            >= s.last_saved->0.nanos + 5_000_000_000),
{
}

/// The number of a report is read: that behind the name and a colon, with white space
/// around the colon or without.
pub proof fn law_report_is_read(
    a: Seq<char>,
    before: Seq<char>,
    behind: Seq<char>,
    digits: Seq<char>,
    b: Seq<char>,
)
    requires
        is_absent_before(
            a + "\"cache_n\""@ + (before + seq![':'] + behind + (digits + b)),
            "\"cache_n\""@,
            a.len(),
        ),
        is_blank(before),
        is_blank(behind),
        all_digits(digits),
        digits.len() > 0,
        decimal_value(digits) <= u64::MAX,
        b.len() == 0 || !is_digit(b[0]),
    ensures
        cache_report_from(
            a + "\"cache_n\""@ + (before + seq![':'] + behind + (digits + b)),
            0,
        ) == Some(decimal_value(digits) as u64),
{
    let key = "\"cache_n\""@;
    let value = digits + b;
    let rest = before + seq![':'] + behind + value;
    let s = a + key + rest;
    reveal_strlit("\"cache_n\"");
    law_first_place(a, key, rest);
    assert(s.skip((a.len() + key.len()) as int) =~= rest);
    let colon = seq![':'] + behind + value;
    assert(rest =~= before + colon);
    assert(colon[0] == ':');
    lemma_leading_space(before, colon);
    assert(colon.drop_first() =~= behind + value);
    assert(is_digit(digits[0]));
    assert(value[0] == digits[0]);
    lemma_leading_space(behind, value);
    lemma_digits_lead(digits, b);
}

/// The name without a colon and a number behind it is passed over, and a text without the
/// name holds no report.
pub proof fn law_names_alone_are_passed_over(a: Seq<char>, rest: Seq<char>)
    requires
        is_absent_before(a + "\"cache_n\""@ + rest, "\"cache_n\""@, a.len()),
    ensures
        ({
            let s = a + "\"cache_n\""@ + rest;
            let behind = without_leading_space(rest);
            let named = behind.len() > 0 && behind[0] == ':' && leading_u64(
                without_leading_space(behind.drop_first()),
            ) is Some;
            !named ==> cache_report_from(s, 0) == cache_report_from(
                s,
                (a.len() + "\"cache_n\""@.len()) as nat,
            )
        }),
        !has_part(a, "\"cache_n\""@) ==> cache_report_from(a, 0) is None,
{
    let key = "\"cache_n\""@;
    let s = a + key + rest;
    reveal_strlit("\"cache_n\"");
    law_first_place(a, key, rest);
    assert(s.skip((a.len() + key.len()) as int) =~= rest);
    law_held_is_a_part(a, key);
}

} // verus!
