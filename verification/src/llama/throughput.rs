//! Live throughput from the server's session counters.
use super::metrics::PrometheusValues;
use crate::binary::Binary64;
use crate::clock::{elapsed, lemma_rate_is_a_number, seconds, seconds_in, Moment};
use vstd::prelude::*;

verus! {

/// How many nanoseconds the last speed is kept when a poll lands between two
/// counter updates while a request is still running.
pub const PHASE_HOLD_TTL: u64 = 2_500_000_000;

/// What the server is doing, by its counters.
#[derive(Clone, Copy, Debug, PartialEq, Eq, Structural)]
pub enum InferencePhase {
    /// Nothing.
    Idle,
    /// Reading a prompt.
    Prefill,
    /// Generating.
    Generating,
}

impl Default for InferencePhase {
    fn default() -> (r: InferencePhase)
        ensures
            r == InferencePhase::Idle,
    {
        InferencePhase::Idle
    }
}

/// One reading of the counters.
#[derive(Clone, Copy, Debug, PartialEq, Eq, Structural)]
pub struct ThroughputSample {
    /// Prompt tokens of the session.
    pub prompt_tokens_total: u64,
    /// Generated tokens of the session.
    pub predicted_tokens_total: u64,
    /// Requests in work.
    pub requests_processing: u32,
    /// The prompt speed that the server states.
    pub prompt_gauge: Binary64,
    /// The generation speed that the server states.
    pub predicted_gauge: Binary64,
}

/// The reading that a scrape of `/metrics` holds.
pub open spec fn sample_of(prom: PrometheusValues) -> ThroughputSample {
    ThroughputSample {
        prompt_tokens_total: prom.prompt_tokens_total,
        predicted_tokens_total: prom.predicted_tokens_total,
        requests_processing: prom.requests_processing,
        prompt_gauge: prom.prompt_tokens_per_sec,
        predicted_gauge: prom.predicted_tokens_per_sec,
    }
}

impl From<&PrometheusValues> for ThroughputSample {
    fn from(prom: &PrometheusValues) -> (r: ThroughputSample) {
        ThroughputSample {
            prompt_tokens_total: prom.prompt_tokens_total,
            predicted_tokens_total: prom.predicted_tokens_total,
            requests_processing: prom.requests_processing,
            prompt_gauge: prom.prompt_tokens_per_sec,
            predicted_gauge: prom.predicted_tokens_per_sec,
        }
    }
}

impl vstd::std_specs::convert::FromSpecImpl<&PrometheusValues> for ThroughputSample {
    open spec fn obeys_from_spec() -> bool {
        true
    }

    open spec fn from_spec(prom: &PrometheusValues) -> ThroughputSample {
        sample_of(*prom)
    }
}

/// What is shown of the throughput.
#[derive(Clone, Copy, Debug, PartialEq, Eq, Structural)]
pub struct LiveThroughputView {
    /// What the server is doing.
    pub phase: InferencePhase,
    /// Prompt tokens per second.
    pub prompt_tokens_per_sec: Binary64,
    /// Generated tokens per second.
    pub generation_tokens_per_sec: Binary64,
}

/// What is shown while the server is idle.
pub open spec fn idle_view() -> LiveThroughputView {
    LiveThroughputView {
        phase: InferencePhase::Idle,
        prompt_tokens_per_sec: Binary64 { bits: 0 },
        generation_tokens_per_sec: Binary64 { bits: 0 },
    }
}

impl LiveThroughputView {
    fn idle() -> (r: LiveThroughputView)
        ensures
            r == idle_view(),
    {
        LiveThroughputView {
            phase: InferencePhase::Idle,
            prompt_tokens_per_sec: Binary64::zero(),
            generation_tokens_per_sec: Binary64::zero(),
        }
    }
}

/// A speed that may be held for a while.
#[derive(Clone, Copy, Debug, PartialEq, Eq, Structural)]
pub struct HeldSpeed {
    /// The speed.
    pub speed: Binary64,
    /// When it was read.
    pub at: Option<Moment>,
}

/// No speed.
pub open spec fn nothing_held() -> HeldSpeed {
    HeldSpeed { speed: Binary64 { bits: 0 }, at: None }
}

/// Follows the counters from reading to reading.
#[derive(Clone, Copy, Debug, PartialEq, Eq, Structural)]
pub struct LiveThroughputTracker {
    /// Whether there has been a reading.
    pub primed: bool,
    /// Prompt tokens at the last reading.
    pub last_prompt_total: u64,
    /// Generated tokens at the last reading.
    pub last_predicted_total: u64,
    /// When the last reading was.
    pub last_at: Option<Moment>,
    /// What the server was doing.
    pub phase: InferencePhase,
    /// The last prompt speed.
    pub prompt: HeldSpeed,
    /// The last generation speed.
    pub generation: HeldSpeed,
}

/// A tracker before any reading.
pub open spec fn new_tracker() -> LiveThroughputTracker {
    LiveThroughputTracker {
        primed: false,
        last_prompt_total: 0,
        last_predicted_total: 0,
        last_at: None,
        phase: InferencePhase::Idle,
        prompt: nothing_held(),
        generation: nothing_held(),
    }
}

impl Default for LiveThroughputTracker {
    fn default() -> (r: LiveThroughputTracker)
        ensures
            r == new_tracker(),
    {
        let nothing = HeldSpeed { speed: Binary64::zero(), at: None };
        LiveThroughputTracker {
            primed: false,
            last_prompt_total: 0,
            last_predicted_total: 0,
            last_at: None,
            phase: InferencePhase::Idle,
            prompt: nothing,
            generation: nothing,
        }
    }
}

/// A gauge that is finite and above zero.
pub open spec fn usable_gauge(x: Binary64) -> Option<Binary64> {
    if x.finite() && x.rank() > 0 {
        Some(x)
    } else {
        None
    }
}

/// The tracker with the totals of a reading.
pub open spec fn with_totals(
    t: LiveThroughputTracker,
    sample: ThroughputSample,
    now: Moment,
) -> LiveThroughputTracker {
    LiveThroughputTracker {
        primed: true,
        last_prompt_total: sample.prompt_tokens_total,
        last_predicted_total: sample.predicted_tokens_total,
        last_at: Some(now),
        ..t
    }
}

/// The tracker in another phase: the speed that the new phase does not show is let
/// go, and an idle tracker holds none.
pub open spec fn in_phase(t: LiveThroughputTracker, phase: InferencePhase) -> LiveThroughputTracker {
    if t.phase == phase {
        t
    } else {
        match phase {
            InferencePhase::Idle => LiveThroughputTracker {
                phase,
                prompt: nothing_held(),
                generation: nothing_held(),
                ..t
            },
            InferencePhase::Prefill => LiveThroughputTracker {
                phase,
                generation: nothing_held(),
                ..t
            },
            InferencePhase::Generating => LiveThroughputTracker {
                phase,
                prompt: nothing_held(),
                ..t
            },
        }
    }
}

/// The tracker at rest.
pub open spec fn at_rest(t: LiveThroughputTracker) -> LiveThroughputTracker {
    LiveThroughputTracker {
        phase: InferencePhase::Idle,
        prompt: nothing_held(),
        generation: nothing_held(),
        ..t
    }
}

/// The tracker in the phase that the gauges suggest.
pub open spec fn in_gauged_phase(
    t: LiveThroughputTracker,
    sample: ThroughputSample,
) -> LiveThroughputTracker {
    if usable_gauge(sample.predicted_gauge) is Some {
        in_phase(t, InferencePhase::Generating)
    } else if usable_gauge(sample.prompt_gauge) is Some {
        in_phase(t, InferencePhase::Prefill)
    } else {
        t
    }
}

/// A speed that is read now: the gauge, or else the tokens of the time that has
/// passed.
pub open spec fn fresh_speed(gauge: Binary64, delta: nat, nanos: nat) -> Option<Binary64> {
    if usable_gauge(gauge) is Some {
        usable_gauge(gauge)
    } else if delta > 0 && nanos > 0 {
        Some(Binary64::of(delta).quotient(seconds_in(nanos)))
    } else {
        None
    }
}

/// A speed after a reading: the fresh one, or else the held one.
pub open spec fn held_after(held: HeldSpeed, fresh: Option<Binary64>, now: Moment) -> HeldSpeed {
    match fresh {
        Some(speed) => HeldSpeed { speed, at: Some(now) },
        None => held,
    }
}

/// The speed that is shown: the fresh one, or else the held one while it is recent
/// and above zero.
pub open spec fn speed_shown(held: HeldSpeed, fresh: Option<Binary64>, now: Moment) -> Binary64 {
    match (fresh, held.at) {
        (Some(speed), _) => speed,
        (None, Some(at)) => if !held.speed.nan() && held.speed.rank() > 0 && elapsed(at, now)
            <= PHASE_HOLD_TTL {
            held.speed
        } else {
            Binary64 { bits: 0 }
        },
        (None, None) => Binary64 { bits: 0 },
    }
}

/// The tracker and what is shown, once the phase is settled, when so many tokens
/// were counted in so much time.
pub open spec fn settled(
    t: LiveThroughputTracker,
    sample: ThroughputSample,
    prompt_delta: nat,
    predicted_delta: nat,
    nanos: nat,
    now: Moment,
) -> (LiveThroughputTracker, LiveThroughputView) {
    match t.phase {
        InferencePhase::Idle => (t, idle_view()),
        InferencePhase::Prefill => {
            let fresh = fresh_speed(sample.prompt_gauge, prompt_delta, nanos);
            (
                LiveThroughputTracker { prompt: held_after(t.prompt, fresh, now), ..t },
                LiveThroughputView {
                    phase: InferencePhase::Prefill,
                    prompt_tokens_per_sec: speed_shown(t.prompt, fresh, now),
                    generation_tokens_per_sec: Binary64 { bits: 0 },
                },
            )
        },
        InferencePhase::Generating => {
            let fresh = fresh_speed(sample.predicted_gauge, predicted_delta, nanos);
            (
                LiveThroughputTracker { generation: held_after(t.generation, fresh, now), ..t },
                LiveThroughputView {
                    phase: InferencePhase::Generating,
                    prompt_tokens_per_sec: Binary64 { bits: 0 },
                    generation_tokens_per_sec: speed_shown(t.generation, fresh, now),
                },
            )
        },
    }
}

/// Whether a counter fell, as it does when the server starts anew.
pub open spec fn restarted(t: LiveThroughputTracker, sample: ThroughputSample) -> bool {
    sample.prompt_tokens_total < t.last_prompt_total || sample.predicted_tokens_total
        < t.last_predicted_total
}

/// The tracker and what is shown after a reading.
pub open spec fn observed(
    t: LiveThroughputTracker,
    sample: ThroughputSample,
    now: Moment,
) -> (LiveThroughputTracker, LiveThroughputView) {
    let taken = with_totals(t, sample, now);
    let baseless = !t.primed || restarted(t, sample);
    let base = if t.primed && restarted(t, sample) {
        at_rest(taken)
    } else {
        taken
    };
    if sample.requests_processing == 0 {
        (at_rest(base), idle_view())
    } else if baseless {
        let phased = if base.phase == InferencePhase::Idle {
            in_gauged_phase(base, sample)
        } else {
            base
        };
        settled(phased, sample, 0, 0, 0, now)
    } else {
        let prompt_delta = (sample.prompt_tokens_total - t.last_prompt_total) as nat;
        let predicted_delta = (sample.predicted_tokens_total - t.last_predicted_total) as nat;
        let nanos = match t.last_at {
            Some(at) => elapsed(at, now),
            None => 0,
        };
        let phased = if predicted_delta > 0 {
            in_phase(base, InferencePhase::Generating)
        } else if prompt_delta > 0 {
            in_phase(base, InferencePhase::Prefill)
        } else if base.phase == InferencePhase::Idle {
            in_gauged_phase(base, sample)
        } else {
            base
        };
        settled(phased, sample, prompt_delta, predicted_delta, nanos, now)
    }
}

fn finite_positive(value: Binary64) -> (r: Option<Binary64>)
    ensures
        r == usable_gauge(value),
{
    if value.is_finite() && Binary64::zero().less(value) {
        Some(value)
    } else {
        None
    }
}

impl HeldSpeed {
    /// Takes in a reading, and gives the speed to show.
    fn resolve(&mut self, gauge: Binary64, delta: u64, nanos: u64, now: Moment) -> (r: Binary64)
        ensures
            *final(self) == held_after(
                *old(self),
                fresh_speed(gauge, delta as nat, nanos as nat),
                now,
            ),
            r == speed_shown(*old(self), fresh_speed(gauge, delta as nat, nanos as nat), now),
    {
        if let Some(g) = finite_positive(gauge) {
            self.speed = g;
            self.at = Some(now);
            return g;
        }
        if delta > 0 && nanos > 0 {
            let speed = Binary64::from_u64(delta).over(seconds(nanos));
            self.speed = speed;
            self.at = Some(now);
            return speed;
        }
        match self.at {
            Some(at) => if Binary64::zero().less(self.speed) && now.since(at) <= PHASE_HOLD_TTL {
                self.speed
            } else {
                Binary64::zero()
            },
            None => Binary64::zero(),
        }
    }
}

impl LiveThroughputTracker {
    /// Takes in a reading of the counters, and gives what to show.
    pub fn observe(&mut self, sample: &ThroughputSample, now: Moment) -> (r: LiveThroughputView)
        ensures
            (*final(self), r) == observed(*old(self), *sample, now),
    {
        let primed: bool = self.primed;
        let fell: bool = sample.prompt_tokens_total < self.last_prompt_total
            || sample.predicted_tokens_total < self.last_predicted_total;
        let last_prompt: u64 = self.last_prompt_total;
        let last_predicted: u64 = self.last_predicted_total;
        let nanos: u64 = match self.last_at {
            Some(at) => now.since(at),
            None => 0,
        };
        self.primed = true;
        self.last_prompt_total = sample.prompt_tokens_total;
        self.last_predicted_total = sample.predicted_tokens_total;
        self.last_at = Some(now);
        if primed && fell {
            self.rest();
        }
        if sample.requests_processing == 0 {
            self.rest();
            return LiveThroughputView::idle();
        }
        if !primed || fell {
            if self.phase == InferencePhase::Idle {
                self.infer_phase_from_gauges(sample);
            }
            return self.speeds_for_phase(sample, 0, 0, 0, now);
        }
        let prompt_delta: u64 = sample.prompt_tokens_total - last_prompt;
        let predicted_delta: u64 = sample.predicted_tokens_total - last_predicted;
        if predicted_delta > 0 {
            self.set_phase(InferencePhase::Generating);
        } else if prompt_delta > 0 {
            self.set_phase(InferencePhase::Prefill);
        } else if self.phase == InferencePhase::Idle {
            self.infer_phase_from_gauges(sample);
        }
        self.speeds_for_phase(sample, prompt_delta, predicted_delta, nanos, now)
    }

    fn rest(&mut self)
        ensures
            *final(self) == at_rest(*old(self)),
    {
        let nothing = HeldSpeed { speed: Binary64::zero(), at: None };
        self.phase = InferencePhase::Idle;
        self.prompt = nothing;
        self.generation = nothing;
    }

    fn infer_phase_from_gauges(&mut self, sample: &ThroughputSample)
        ensures
            *final(self) == in_gauged_phase(*old(self), *sample),
    {
        if finite_positive(sample.predicted_gauge).is_some() {
            self.set_phase(InferencePhase::Generating);
        } else if finite_positive(sample.prompt_gauge).is_some() {
            self.set_phase(InferencePhase::Prefill);
        }
    }

    fn set_phase(&mut self, phase: InferencePhase)
        ensures
            *final(self) == in_phase(*old(self), phase),
    {
        if self.phase != phase {
            let nothing = HeldSpeed { speed: Binary64::zero(), at: None };
            match phase {
                InferencePhase::Idle => {
                    self.prompt = nothing;
                    self.generation = nothing;
                },
                InferencePhase::Prefill => {
                    self.generation = nothing;
                },
                InferencePhase::Generating => {
                    self.prompt = nothing;
                },
            }
            self.phase = phase;
        }
    }

    fn speeds_for_phase(
        &mut self,
        sample: &ThroughputSample,
        prompt_delta: u64,
        predicted_delta: u64,
        nanos: u64,
        now: Moment,
    ) -> (r: LiveThroughputView)
        ensures
            (*final(self), r) == settled(
                *old(self),
                *sample,
                prompt_delta as nat,
                predicted_delta as nat,
                nanos as nat,
                now,
            ),
    {
        let mut view = LiveThroughputView::idle();
        match self.phase {
            InferencePhase::Idle => {},
            InferencePhase::Prefill => {
                view.phase = InferencePhase::Prefill;
                let mut held = self.prompt;
                view.prompt_tokens_per_sec = held.resolve(
                    sample.prompt_gauge,
                    prompt_delta,
                    nanos,
                    now,
                );
                self.prompt = held;
            },
            InferencePhase::Generating => {
                view.phase = InferencePhase::Generating;
                let mut held = self.generation;
                view.generation_tokens_per_sec = held.resolve(
                    sample.predicted_gauge,
                    predicted_delta,
                    nanos,
                    now,
                );
                self.generation = held;
            },
        }
        view
    }
}

// ---------------------------------------------------------------------------
// Laws
// ---------------------------------------------------------------------------
/// With no request in work nothing is shown and nothing is held.
pub proof fn law_idle_shows_nothing(
    t: LiveThroughputTracker,
    sample: ThroughputSample,
    now: Moment,
)
    requires
        sample.requests_processing == 0,
    ensures
        observed(t, sample, now).1 == idle_view(),
        observed(t, sample, now).0.prompt == nothing_held(),
        observed(t, sample, now).0.generation == nothing_held(),
{
}

/// At most one of the two speeds is shown: that of the phase.
pub proof fn law_one_speed_at_a_time(
    t: LiveThroughputTracker,
    sample: ThroughputSample,
    now: Moment,
)
    ensures
        ({
            let view = observed(t, sample, now).1;
            &&& view.phase != InferencePhase::Prefill ==> view.prompt_tokens_per_sec.bits == 0
            &&& view.phase != InferencePhase::Generating ==> view.generation_tokens_per_sec.bits
                == 0
        }),
{
}

/// Whether a number is a speed: finite and not negative.
pub open spec fn is_speed(x: Binary64) -> bool {
    x.finite() && x.nonnegative()
}

/// Whether what a tracker holds are speeds.
pub open spec fn holds_speeds(t: LiveThroughputTracker) -> bool {
    is_speed(t.prompt.speed) && is_speed(t.generation.speed)
}

/// Whether what is shown are speeds, each in its own phase alone.
pub open spec fn shows_speeds(view: LiveThroughputView) -> bool {
    &&& is_speed(view.prompt_tokens_per_sec)
    &&& is_speed(view.generation_tokens_per_sec)
    &&& view.prompt_tokens_per_sec.magnitude() != 0 ==> view.phase == InferencePhase::Prefill
    &&& view.generation_tokens_per_sec.magnitude() != 0 ==> view.phase
        == InferencePhase::Generating
}

proof fn lemma_fresh_speed(gauge: Binary64, delta: nat, nanos: nat)
    requires
        delta <= u64::MAX,
        nanos <= u64::MAX,
    ensures
        fresh_speed(gauge, delta, nanos) is Some ==> is_speed(
            fresh_speed(gauge, delta, nanos)->0,
        ),
{
    if delta > 0 && nanos > 0 {
        lemma_rate_is_a_number(delta, nanos);
    }
}

/// A reading shows speeds, finite and not negative, and leaves a tracker that holds
/// such speeds.
pub proof fn law_readings_keep_speeds(
    t: LiveThroughputTracker,
    sample: ThroughputSample,
    now: Moment,
)
    requires
        holds_speeds(t),
    ensures
        holds_speeds(observed(t, sample, now).0),
        shows_speeds(observed(t, sample, now).1),
{
    let nanos = match t.last_at {
        Some(at) => elapsed(at, now),
        None => 0,
    };
    if !restarted(t, sample) {
        lemma_fresh_speed(
            sample.prompt_gauge,
            (sample.prompt_tokens_total - t.last_prompt_total) as nat,
            nanos,
        );
        lemma_fresh_speed(
            sample.predicted_gauge,
            (sample.predicted_tokens_total - t.last_predicted_total) as nat,
            nanos,
        );
    }
}

/// The tracker after some readings.
pub open spec fn followed(readings: Seq<(ThroughputSample, Moment)>) -> LiveThroughputTracker
    decreases readings.len(),
{
    if readings.len() == 0 {
        new_tracker()
    } else {
        let (sample, now) = readings.last();
        observed(followed(readings.drop_last()), sample, now).0
    }
}

proof fn lemma_followed_speeds(readings: Seq<(ThroughputSample, Moment)>)
    ensures
        holds_speeds(followed(readings)),
    decreases readings.len(),
{
    if readings.len() > 0 {
        lemma_followed_speeds(readings.drop_last());
        let (sample, now) = readings.last();
        law_readings_keep_speeds(followed(readings.drop_last()), sample, now);
    }
}

/// Whatever has been read before, what is shown are speeds: finite, not negative, and
/// never both above zero. With no request in work both are zero.
pub proof fn law_shown_speeds_are_numbers(
    readings: Seq<(ThroughputSample, Moment)>,
    sample: ThroughputSample,
    now: Moment,
)
    ensures
        shows_speeds(observed(followed(readings), sample, now).1),
        sample.requests_processing == 0 ==> observed(followed(readings), sample, now).1
            == idle_view(),
{
    lemma_followed_speeds(readings);
    law_readings_keep_speeds(followed(readings), sample, now);
}

/// A reading without a base, the first one or one after a restart of the server,
/// shows no speed but a gauge's.
pub proof fn law_no_speed_without_a_base(
    t: LiveThroughputTracker,
    sample: ThroughputSample,
    now: Moment,
)
    requires
        t == new_tracker() || (t.primed && restarted(t, sample)),
        usable_gauge(sample.prompt_gauge) is None,
        usable_gauge(sample.predicted_gauge) is None,
    ensures
        observed(t, sample, now).1.prompt_tokens_per_sec.bits == 0,
        observed(t, sample, now).1.generation_tokens_per_sec.bits == 0,
{
}

/// Generated tokens put the tracker in the generating phase, whatever the prompt
/// counter does.
pub proof fn law_generation_wins(
    t: LiveThroughputTracker,
    sample: ThroughputSample,
    now: Moment,
)
    requires
        t.primed,
        !restarted(t, sample),
        sample.requests_processing > 0,
        sample.predicted_tokens_total > t.last_predicted_total,
    ensures
        observed(t, sample, now).1.phase == InferencePhase::Generating,
{
}

/// Whether a gauge states a speed: a finite one above zero.
pub open spec fn states_a_speed(gauge: Binary64) -> bool {
    gauge.finite() && gauge.rank() > 0
}

/// A reading is remembered: its totals are those that the next one is held against.
pub proof fn law_reading_is_remembered(
    t: LiveThroughputTracker,
    sample: ThroughputSample,
    now: Moment,
)
    ensures
        ({
            let after = observed(t, sample, now).0;
            &&& after.primed
            &&& after.last_prompt_total == sample.prompt_tokens_total
            &&& after.last_predicted_total == sample.predicted_tokens_total
            &&& after.last_at == Some(now)
            &&& after.phase == observed(t, sample, now).1.phase
        }),
{
}

/// Speeds are tokens over time: where a counter grew since the reading before, its tokens
/// over the seconds in between, unless the server states a speed itself. Tokens generated
/// go before those of a prompt.
pub proof fn law_speed_is_tokens_over_time(
    t: LiveThroughputTracker,
    sample: ThroughputSample,
    at: Moment,
    now: Moment,
)
    requires
        t.primed,
        t.last_at == Some(at),
        at.nanos < now.nanos,
        sample.requests_processing > 0,
        sample.prompt_tokens_total >= t.last_prompt_total,
        sample.predicted_tokens_total >= t.last_predicted_total,
    ensures
        ({
            let view = observed(t, sample, now).1;
            let after = observed(t, sample, now).0;
            let prompt = (sample.prompt_tokens_total - t.last_prompt_total) as nat;
            let predicted = (sample.predicted_tokens_total - t.last_predicted_total) as nat;
            let time = seconds_in((now.nanos - at.nanos) as nat);
            let generation = if states_a_speed(sample.predicted_gauge) {
                sample.predicted_gauge
            } else {
                Binary64::of(predicted).quotient(time)
            };
            let reading = if states_a_speed(sample.prompt_gauge) {
                sample.prompt_gauge
            } else {
                Binary64::of(prompt).quotient(time)
            };
            &&& predicted > 0 ==> {
                &&& view.phase == InferencePhase::Generating
                &&& view.generation_tokens_per_sec == generation
                &&& view.prompt_tokens_per_sec.bits == 0
                &&& after.generation == (HeldSpeed { speed: generation, at: Some(now) })
            }
            &&& predicted == 0 && prompt > 0 ==> {
                &&& view.phase == InferencePhase::Prefill
                &&& view.prompt_tokens_per_sec == reading
                &&& view.generation_tokens_per_sec.bits == 0
                &&& after.prompt == (HeldSpeed { speed: reading, at: Some(now) })
            }
        }),
{
}

/// A poll between two updates of the counters shows the speed before for two and a half
/// seconds, in the phase before, and then none; a speed that the server states goes first.
pub proof fn law_speed_is_held_for_a_while(
    t: LiveThroughputTracker,
    sample: ThroughputSample,
    at: Moment,
    now: Moment,
)
    requires
        t.primed,
        t.phase != InferencePhase::Idle,
        at.nanos <= now.nanos,
        sample.requests_processing > 0,
        sample.prompt_tokens_total == t.last_prompt_total,
        sample.predicted_tokens_total == t.last_predicted_total,
    ensures
        ({
            let view = observed(t, sample, now).1;
            let recent = now.nanos - at.nanos <= 2_500_000_000;
            &&& view.phase == t.phase
            &&& t.phase == InferencePhase::Generating ==> {
                let held = t.generation;
                &&& states_a_speed(sample.predicted_gauge) ==> view.generation_tokens_per_sec
                    == sample.predicted_gauge
                &&& !states_a_speed(sample.predicted_gauge) && held.at == Some(at) && !held.speed.nan()
                    && held.speed.rank() > 0 && recent ==> view.generation_tokens_per_sec
                    == held.speed
                &&& !states_a_speed(sample.predicted_gauge) && (held.at is None || (held.at == Some(
                    at,
                ) && !recent)) ==> view.generation_tokens_per_sec.bits == 0
            }
            &&& t.phase == InferencePhase::Prefill ==> {
                let held = t.prompt;
                &&& states_a_speed(sample.prompt_gauge) ==> view.prompt_tokens_per_sec
                    == sample.prompt_gauge
                &&& !states_a_speed(sample.prompt_gauge) && held.at == Some(at) && !held.speed.nan()
                    && held.speed.rank() > 0 && recent ==> view.prompt_tokens_per_sec
                    == held.speed
                &&& !states_a_speed(sample.prompt_gauge) && (held.at is None || (held.at == Some(at)
                    && !recent)) ==> view.prompt_tokens_per_sec.bits == 0
            }
        }),
{
}

/// Where no counter tells what the server is doing, the speeds that it states do: from
/// rest it is generating where it states a generation speed, else reading a prompt where
/// it states a prompt speed, else at rest.
pub proof fn law_stated_speeds_tell_the_phase(
    t: LiveThroughputTracker,
    sample: ThroughputSample,
    now: Moment,
)
    requires
        sample.requests_processing > 0,
        ({
            ||| !t.primed && t.phase == InferencePhase::Idle
            ||| t.primed && (sample.prompt_tokens_total < t.last_prompt_total
                || sample.predicted_tokens_total < t.last_predicted_total)
            ||| t.primed && t.phase == InferencePhase::Idle && sample.prompt_tokens_total
                == t.last_prompt_total && sample.predicted_tokens_total == t.last_predicted_total
        }),
    ensures
        ({
            let view = observed(t, sample, now).1;
            let generates = states_a_speed(sample.predicted_gauge);
            let reads = states_a_speed(sample.prompt_gauge);
            &&& generates ==> view == (LiveThroughputView {
                phase: InferencePhase::Generating,
                prompt_tokens_per_sec: Binary64 { bits: 0 },
                generation_tokens_per_sec: sample.predicted_gauge,
            })
            &&& !generates && reads ==> view == (LiveThroughputView {
                phase: InferencePhase::Prefill,
                prompt_tokens_per_sec: sample.prompt_gauge,
                generation_tokens_per_sec: Binary64 { bits: 0 },
            })
            &&& !generates && !reads ==> view.phase == InferencePhase::Idle
                && view.prompt_tokens_per_sec.bits == 0 && view.generation_tokens_per_sec.bits == 0
        }),
{
}

/// The speed of another phase is let go, and with no request in work so is every speed.
pub proof fn law_speeds_of_other_phases_are_let_go(
    t: LiveThroughputTracker,
    sample: ThroughputSample,
    now: Moment,
)
    ensures
        ({
            let after = observed(t, sample, now).0;
            &&& after.phase == InferencePhase::Generating && t.phase != after.phase
                ==> after.prompt.at is None && after.prompt.speed.bits == 0
            &&& after.phase == InferencePhase::Prefill && t.phase != after.phase
                ==> after.generation.at is None && after.generation.speed.bits == 0
            &&& sample.requests_processing == 0 ==> after.phase == InferencePhase::Idle
                && after.prompt.at is None && after.generation.at is None
        }),
{
}

/// A scrape is read as it stands: totals, requests and stated speeds.
pub proof fn law_scrape_is_read_as_it_stands(prom: PrometheusValues)
    ensures
        sample_of(prom).prompt_tokens_total == prom.prompt_tokens_total,
        sample_of(prom).predicted_tokens_total == prom.predicted_tokens_total,
        sample_of(prom).requests_processing == prom.requests_processing,
        sample_of(prom).prompt_gauge == prom.prompt_tokens_per_sec,
        sample_of(prom).predicted_gauge == prom.predicted_tokens_per_sec,
{
}

} // verus!
