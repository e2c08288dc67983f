//! Energy used by the graphics cards, and what it cost.
use crate::binary::{
    lemma_integer_is_positive, lemma_product_nonnegative, lemma_product_within,
    lemma_quotient_within, lemma_sum_grows, lemma_sum_limit, lemma_sum_ordered,
    lemma_sum_stays_within, lemma_sum_within, lemma_widened_within, sum_limit, Binary32, Binary64,
};
use crate::clock::{
    days_before, earlier, lemma_few_seconds, local_now, offset_label, offset_text,
    seconds, seconds_in, LocalTime, Moment,
};
use crate::table::{
    entries_map, is_ordered, lemma_part_is_ordered, lemma_prefix_map, not_before,
    Table,
};
use crate::logs::{home_dir, join_path, joined, opt_bytes};
use crate::text::{decimal_value, law_digits_write_a_number, same_text};
use vstd::prelude::*;
use vstd::slice::slice_to_vec;
use vstd::utf8::encode_utf8;

verus! {

/// The most nanoseconds between two samples that are taken together.
pub const MAX_SAMPLE_GAP: u64 = 5_000_000_000;

/// How many nanoseconds telemetry counts as available after a sample.
pub const AVAILABILITY_WINDOW: u64 = 3_000_000_000;

/// Watt seconds in a kilowatt hour.
pub const KWH_DIVISOR: u64 = 3_600_000;

/// How many days before the current one are kept.
pub const KEPT_DAYS: u64 = 29;

/// A power reading of one card.
#[derive(Debug)]
pub struct GpuPowerSample {
    /// The card.
    pub id: String,
    /// The power, in watts.
    pub power_w: Binary32,
    /// The utilisation, in percent.
    pub utilization: Binary32,
}

/// What tells whether the server is at work.
#[derive(Clone, Copy, Debug, PartialEq, Eq, Structural)]
pub struct BusyFlags {
    /// Requests in work.
    pub requests_processing: u32,
    /// Slots at work.
    pub slots_processing: u32,
    /// Whether the server is healthy.
    pub health_ok: bool,
}

/// Energy and its cost.
#[derive(Clone, Copy, Debug, PartialEq, Eq, Structural)]
pub struct EnergyTotals {
    /// Energy, in kWh.
    pub energy_kwh: Binary64,
    /// Energy while the server was at work.
    pub inference_energy_kwh: Binary64,
    /// Cost.
    pub cost_pln: Binary64,
    /// Cost while the server was at work.
    pub inference_cost_pln: Binary64,
}

/// No energy.
pub open spec fn no_energy() -> EnergyTotals {
    EnergyTotals {
        energy_kwh: Binary64 { bits: 0 },
        inference_energy_kwh: Binary64 { bits: 0 },
        cost_pln: Binary64 { bits: 0 },
        inference_cost_pln: Binary64 { bits: 0 },
    }
}

impl Default for EnergyTotals {
    fn default() -> (r: EnergyTotals)
        ensures
            r == no_energy(),
    {
        EnergyTotals {
            energy_kwh: Binary64::zero(),
            inference_energy_kwh: Binary64::zero(),
            cost_pln: Binary64::zero(),
            inference_cost_pln: Binary64::zero(),
        }
    }
}

/// Totals with more energy at some cost.
pub open spec fn with_delta(
    t: EnergyTotals,
    kwh: Binary64,
    cost: Binary64,
    inference: bool,
) -> EnergyTotals {
    EnergyTotals {
        energy_kwh: t.energy_kwh.sum(kwh),
        cost_pln: t.cost_pln.sum(cost),
        inference_energy_kwh: if inference {
            t.inference_energy_kwh.sum(kwh)
        } else {
            t.inference_energy_kwh
        },
        inference_cost_pln: if inference {
            t.inference_cost_pln.sum(cost)
        } else {
            t.inference_cost_pln
        },
    }
}

/// Two totals together.
pub open spec fn totals_sum(a: EnergyTotals, b: EnergyTotals) -> EnergyTotals {
    EnergyTotals {
        energy_kwh: a.energy_kwh.sum(b.energy_kwh),
        inference_energy_kwh: a.inference_energy_kwh.sum(b.inference_energy_kwh),
        cost_pln: a.cost_pln.sum(b.cost_pln),
        inference_cost_pln: a.inference_cost_pln.sum(b.inference_cost_pln),
    }
}

impl EnergyTotals {
    fn add_delta(&mut self, kwh: Binary64, cost: Binary64, inference: bool)
        ensures
            *final(self) == with_delta(*old(self), kwh, cost, inference),
    {
        self.energy_kwh = self.energy_kwh.plus(kwh);
        self.cost_pln = self.cost_pln.plus(cost);
        if inference {
            self.inference_energy_kwh = self.inference_energy_kwh.plus(kwh);
            self.inference_cost_pln = self.inference_cost_pln.plus(cost);
        }
    }

    fn add_assign(&mut self, other: &EnergyTotals)
        ensures
            *final(self) == totals_sum(*old(self), *other),
    {
        self.energy_kwh = self.energy_kwh.plus(other.energy_kwh);
        self.inference_energy_kwh = self.inference_energy_kwh.plus(other.inference_energy_kwh);
        self.cost_pln = self.cost_pln.plus(other.cost_pln);
        self.inference_cost_pln = self.inference_cost_pln.plus(other.inference_cost_pln);
    }
}

/// The last valid reading of a card.
#[derive(Clone, Copy, Debug, PartialEq, Eq, Structural)]
pub struct GpuBase {
    /// The power, in watts.
    pub power_w: Binary64,
    /// When it was read.
    pub instant: Moment,
}

/// Energy as it is shown.
#[derive(Debug)]
pub struct EnergySnapshot {
    /// Whether there is recent telemetry.
    pub available: bool,
    /// Whether there is none.
    pub telemetry_stale: bool,
    /// What went wrong with saving or loading.
    pub save_warning: Option<String>,
    /// The currency of the costs.
    pub currency: String,
    /// The price.
    pub price_per_kwh: Binary64,
    /// The utilisation from which a card counts as at work.
    pub inference_util_threshold: Binary32,
    /// The offset from universal time.
    pub timezone_label: String,
    /// Since the monitor started.
    pub session: EnergyTotals,
    /// Today.
    pub today: EnergyTotals,
    /// Today and the six days before.
    pub last_7_days: EnergyTotals,
    /// Since the first measurement.
    pub lifetime: EnergyTotals,
    /// When the first measurement was.
    pub first_measurement_at: Option<LocalTime>,
    /// When the last measurement was.
    pub last_measurement_at: Option<LocalTime>,
}

/// What is known of the energy used.
pub struct EnergyState {
    /// Whether samples are taken.
    pub ingest_enabled: bool,
    /// What went wrong with loading.
    pub load_warning: Option<String>,
    /// What went wrong with saving.
    pub save_warning: Option<String>,
    /// The price.
    pub price_per_kwh: Binary64,
    /// When the price was last changed.
    pub price_changed_at: LocalTime,
    /// The utilisation from which a card counts as at work.
    pub inference_util_threshold: Binary32,
    /// The last valid reading of each card.
    pub bases: Table<String, GpuBase>,
    /// When the last valid sample was.
    pub last_valid_power_instant: Option<Moment>,
    /// Since the monitor started.
    pub session: EnergyTotals,
    /// Since the first measurement.
    pub lifetime: EnergyTotals,
    /// By day.
    pub daily: Table<i32, EnergyTotals>,
    /// When the first measurement was.
    pub first_measurement_at: Option<LocalTime>,
    /// When the last measurement was.
    pub last_measurement_at: Option<LocalTime>,
}

/// What is known of the energy used.
pub struct Energy {
    /// Whether samples are taken.
    pub ingest_enabled: bool,
    /// What went wrong with loading.
    pub load_warning: Option<Seq<char>>,
    /// What went wrong with saving.
    pub save_warning: Option<Seq<char>>,
    /// The price.
    pub price_per_kwh: Binary64,
    /// When the price was last changed.
    pub price_changed_at: LocalTime,
    /// The utilisation from which a card counts as at work.
    pub inference_util_threshold: Binary32,
    /// The last valid reading of each card.
    pub bases: Map<Seq<char>, GpuBase>,
    /// When the last valid sample was.
    pub last_valid_power_instant: Option<Moment>,
    /// Since the monitor started.
    pub session: EnergyTotals,
    /// Since the first measurement.
    pub lifetime: EnergyTotals,
    /// By day.
    pub daily: Map<int, EnergyTotals>,
    /// When the first measurement was.
    pub first_measurement_at: Option<LocalTime>,
    /// When the last measurement was.
    pub last_measurement_at: Option<LocalTime>,
}

/// The characters of an optional text.
pub open spec fn opt_chars(t: Option<String>) -> Option<Seq<char>> {
    match t {
        Some(t) => Some(t@),
        None => None,
    }
}

impl View for EnergyState {
    type V = Energy;

    open spec fn view(&self) -> Energy {
        Energy {
            ingest_enabled: self.ingest_enabled,
            load_warning: opt_chars(self.load_warning),
            save_warning: opt_chars(self.save_warning),
            price_per_kwh: self.price_per_kwh,
            price_changed_at: self.price_changed_at,
            inference_util_threshold: self.inference_util_threshold,
            bases: self.bases@,
            last_valid_power_instant: self.last_valid_power_instant,
            session: self.session,
            lifetime: self.lifetime,
            daily: self.daily@,
            first_measurement_at: self.first_measurement_at,
            last_measurement_at: self.last_measurement_at,
        }
    }
}

/// What is known before any measurement.
pub open spec fn new_energy(now: LocalTime) -> Energy {
    Energy {
        ingest_enabled: true,
        load_warning: None,
        save_warning: None,
        price_per_kwh: Binary64::of(1),
        price_changed_at: now,
        inference_util_threshold: Binary32::of(20),
        bases: Map::empty(),
        last_valid_power_instant: None,
        session: no_energy(),
        lifetime: no_energy(),
        daily: Map::empty(),
        first_measurement_at: None,
        last_measurement_at: None,
    }
}

// ---------------------------------------------------------------------------
// Settings
// ---------------------------------------------------------------------------
/// Whether a price is one: finite and not negative.
pub open spec fn is_price(price: Binary64) -> bool {
    price.finite() && price.rank() >= 0
}

/// Whether a threshold is one: between zero and one hundred percent.
pub open spec fn is_threshold(threshold: Binary32) -> bool {
    threshold.finite() && (Binary32 { bits: 0 }).at_most(threshold) && threshold.at_most(
        Binary32::of(100),
    )
}

/// What is known once price and threshold are set: history keeps its costs.
pub open spec fn with_settings(
    e: Energy,
    price: Binary64,
    threshold: Binary32,
    now: LocalTime,
) -> Energy {
    Energy {
        price_per_kwh: price,
        price_changed_at: if e.price_per_kwh.equals(price) {
            e.price_changed_at
        } else {
            now
        },
        inference_util_threshold: threshold,
        ..e
    }
}

// ---------------------------------------------------------------------------
// Samples
// ---------------------------------------------------------------------------
/// Whether some sample is of the card `id`.
pub open spec fn is_reported(gpus: Seq<GpuPowerSample>, id: Seq<char>) -> bool {
    exists|i: int| 0 <= i < gpus.len() && (#[trigger] gpus[i]).id@ == id
}

/// The readings of those cards that are sampled again.
pub open spec fn still_reported(
    bases: Map<Seq<char>, GpuBase>,
    gpus: Seq<GpuPowerSample>,
) -> Map<Seq<char>, GpuBase> {
    Map::new(
        |id: Seq<char>| bases.dom().contains(id) && is_reported(gpus, id),
        |id: Seq<char>| bases[id],
    )
}

/// Whether a power is one: finite and not negative.
pub open spec fn is_power(w: Binary64) -> bool {
    w.finite() && w.rank() >= 0
}

/// The energy between two readings of a card, in kWh: the mean power over the time
/// between them.
pub open spec fn energy_between(before: GpuBase, power: Binary64, now: Moment) -> Binary64 {
    before.power_w.sum(power).quotient(Binary64::of(2)).product(
        seconds_in((now.nanos - before.instant.nanos) as nat),
    ).quotient(Binary64::of(KWH_DIVISOR as nat))
}

/// Whether two readings are close enough in time to be taken together.
pub open spec fn is_close(before: Moment, now: Moment) -> bool {
    0 < now.nanos - before.nanos <= MAX_SAMPLE_GAP
}

/// The readings, the energy and whether any sample was valid, while samples are
/// taken in one after the other.
pub struct Intake {
    /// The last valid reading of each card.
    pub bases: Map<Seq<char>, GpuBase>,
    /// The energy so far.
    pub kwh: Binary64,
    /// Whether any sample was valid.
    pub any_valid: bool,
}

/// The intake after one more sample.
pub open spec fn taken(state: Intake, gpu: GpuPowerSample, now: Moment) -> Intake {
    let power = gpu.power_w.widened();
    if !is_power(power) {
        Intake { bases: state.bases.remove(gpu.id@), ..state }
    } else {
        Intake {
            bases: state.bases.insert(gpu.id@, GpuBase { power_w: power, instant: now }),
            kwh: if state.bases.dom().contains(gpu.id@) && is_close(
                state.bases[gpu.id@].instant,
                now,
            ) {
                state.kwh.sum(energy_between(state.bases[gpu.id@], power, now))
            } else {
                state.kwh
            },
            any_valid: true,
        }
    }
}

/// The intake after some samples.
pub open spec fn taken_all(state: Intake, gpus: Seq<GpuPowerSample>, now: Moment) -> Intake
    decreases gpus.len(),
{
    if gpus.len() == 0 {
        state
    } else {
        taken(taken_all(state, gpus.drop_last(), now), gpus.last(), now)
    }
}

/// The intake of all samples of one poll.
pub open spec fn intake(
    bases: Map<Seq<char>, GpuBase>,
    gpus: Seq<GpuPowerSample>,
    now: Moment,
) -> Intake {
    taken_all(
        Intake {
            bases: still_reported(bases, gpus),
            kwh: Binary64 { bits: 0 },
            any_valid: false,
        },
        gpus,
        now,
    )
}

/// Whether some card is used enough to count as at work.
pub open spec fn any_used(gpus: Seq<GpuPowerSample>, threshold: Binary32) -> bool {
    exists|i: int| 0 <= i < gpus.len() && threshold.at_most((#[trigger] gpus[i]).utilization)
}

/// Whether the server is at work: by its requests, its slots, or, while it is
/// healthy, by the use of any card.
pub open spec fn is_inference(
    busy: BusyFlags,
    gpus: Seq<GpuPowerSample>,
    threshold: Binary32,
) -> bool {
    busy.requests_processing > 0 || busy.slots_processing > 0 || (busy.health_ok && any_used(
        gpus,
        threshold,
    ))
}

/// The days that are kept on `day`: it and the twenty-nine before.
pub open spec fn pruned(daily: Map<int, EnergyTotals>, day: i32) -> Map<int, EnergyTotals> {
    match earlier(day, KEPT_DAYS as nat) {
        Some(cutoff) => not_before::<i32, EnergyTotals>(daily, cutoff),
        None => daily,
    }
}

/// The totals of a day, none where there are none.
pub open spec fn day_totals(daily: Map<int, EnergyTotals>, day: int) -> EnergyTotals {
    if daily.dom().contains(day) {
        daily[day]
    } else {
        no_energy()
    }
}

/// What is known after the samples of one poll.
pub open spec fn ingested(
    e: Energy,
    gpus: Seq<GpuPowerSample>,
    busy: BusyFlags,
    now: Moment,
    local: LocalTime,
) -> Energy {
    let got = intake(e.bases, gpus, now);
    let inference = is_inference(busy, gpus, e.inference_util_threshold);
    let cost = got.kwh.product(e.price_per_kwh);
    let measured = Energy {
        bases: got.bases,
        last_valid_power_instant: if got.any_valid {
            Some(now)
        } else {
            e.last_valid_power_instant
        },
        first_measurement_at: if got.any_valid && e.first_measurement_at is None {
            Some(local)
        } else {
            e.first_measurement_at
        },
        last_measurement_at: if got.any_valid {
            Some(local)
        } else {
            e.last_measurement_at
        },
        daily: pruned(e.daily, local.day),
        ..e
    };
    if !e.ingest_enabled {
        e
    } else if got.kwh.magnitude() == 0 {
        measured
    } else {
        Energy {
            session: with_delta(e.session, got.kwh, cost, inference),
            lifetime: with_delta(e.lifetime, got.kwh, cost, inference),
            daily: pruned(
                measured.daily.insert(
                    local.day as int,
                    with_delta(
                        day_totals(measured.daily, local.day as int),
                        got.kwh,
                        cost,
                        inference,
                    ),
                ),
                local.day,
            ),
            ..measured
        }
    }
}

// ---------------------------------------------------------------------------
// What is shown
// ---------------------------------------------------------------------------
/// Whether there is recent telemetry.
pub open spec fn is_available(e: Energy, now: Moment) -> bool {
    e.last_valid_power_instant is Some && 0 <= now.nanos - e.last_valid_power_instant->0.nanos
        <= AVAILABILITY_WINDOW
}

/// The totals of `day` and the days before, `n` of them in all.
pub open spec fn totals_until(daily: Map<int, EnergyTotals>, day: i32, n: nat) -> EnergyTotals
    decreases n,
{
    if n == 0 {
        no_energy()
    } else {
        let before = totals_until(daily, day, (n - 1) as nat);
        match earlier(day, (n - 1) as nat) {
            Some(d) => if daily.dom().contains(d) {
                totals_sum(before, daily[d])
            } else {
                before
            },
            None => before,
        }
    }
}

/// What is shown of what went wrong: with saving, or else with loading.
pub open spec fn shown_warning(e: Energy) -> Option<Seq<char>> {
    if e.save_warning is Some {
        e.save_warning
    } else {
        e.load_warning
    }
}

/// Everything forgotten but the settings.
pub open spec fn forgotten(e: Energy) -> Energy {
    Energy {
        session: no_energy(),
        lifetime: no_energy(),
        daily: Map::empty(),
        bases: Map::empty(),
        last_valid_power_instant: None,
        first_measurement_at: None,
        last_measurement_at: None,
        ..e
    }
}

fn copy_opt(t: &Option<String>) -> (r: Option<String>)
    ensures
        opt_chars(r) == opt_chars(*t),
{
    match t {
        Some(t) => Some(t.as_str().to_owned()),
        None => None,
    }
}

fn id_is_reported(gpus: &[GpuPowerSample], id: &str) -> (r: bool)
    ensures
        r == is_reported(gpus@, id@),
{
    let n: usize = gpus.len();
    let mut i: usize = 0;
    while i < n
        invariant
            n == gpus@.len(),
            i <= n,
            forall|j: int| 0 <= j < i ==> (#[trigger] gpus@[j]).id@ != id@,
        decreases n - i,
    {
        if same_text(gpus[i].id.as_str(), id) {
            return true;
        }
        i = i + 1;
    }
    false
}

fn keep_reported(bases: &Table<String, GpuBase>, gpus: &[GpuPowerSample]) -> (r: Table<
    String,
    GpuBase,
>)
    requires
        bases.wf(),
    ensures
        r.wf(),
        r@ == still_reported(bases@, gpus@),
{
    let mut kept: Table<String, GpuBase> = Table::new();
    let n: usize = bases.entries.len();
    let mut i: usize = 0;
    let ghost all = bases.entries@;
    assert(still_reported(entries_map(all.take(0)), gpus@) =~= Map::<Seq<char>, GpuBase>::empty());
    while i < n
        invariant
            n == bases.entries@.len(),
            all == bases.entries@,
            is_ordered(all),
            i <= n,
            kept.wf(),
            kept@ == still_reported(entries_map(all.take(i as int)), gpus@),
        decreases n - i,
    {
        let ghost before = entries_map(all.take(i as int));
        let ghost k = all[i as int].0@;
        proof {
            lemma_prefix_map(all, i as int);
        }
        if id_is_reported(gpus, bases.entries[i].0.as_str()) {
            kept.insert(bases.entries[i].0.as_str().to_owned(), bases.entries[i].1);
            assert(still_reported(before.insert(k, all[i as int].1), gpus@) =~= still_reported(
                before,
                gpus@,
            ).insert(k, all[i as int].1));
        } else {
            assert(still_reported(before.insert(k, all[i as int].1), gpus@) =~= still_reported(
                before,
                gpus@,
            ));
        }
        i = i + 1;
    }
    assert(all.take(n as int) =~= all);
    kept
}

fn energy_since(before: &GpuBase, power: Binary64, now: Moment) -> (r: Binary64)
    requires
        before.instant.nanos <= now.nanos,
    ensures
        r == energy_between(*before, power, now),
{
    let mean = before.power_w.plus(power).over(Binary64::from_u64(2));
    mean.times(seconds(now.nanos - before.instant.nanos)).over(Binary64::from_u64(KWH_DIVISOR))
}

fn some_card_is_used(gpus: &[GpuPowerSample], threshold: Binary32) -> (r: bool)
    ensures
        r == any_used(gpus@, threshold),
{
    let n: usize = gpus.len();
    let mut i: usize = 0;
    while i < n
        invariant
            n == gpus@.len(),
            i <= n,
            forall|j: int| 0 <= j < i ==> !threshold.at_most((#[trigger] gpus@[j]).utilization),
        decreases n - i,
    {
        if threshold.up_to(gpus[i].utilization) {
            return true;
        }
        i = i + 1;
    }
    false
}

impl EnergyState {
    /// Whether the tables stand in order.
    pub open spec fn wf(&self) -> bool {
        self.bases.wf() && self.daily.wf()
    }

    /// What is known before any measurement, at the machine's time.
    pub fn new_default() -> (r: EnergyState)
        ensures
            r.wf(),
            exists|now: LocalTime| r@ == #[trigger] new_energy(now),
    {
        let now = local_now();
        Self::new_at(now)
    }

    /// What is known before any measurement.
    pub fn new_at(now: LocalTime) -> (r: EnergyState)
        ensures
            r.wf(),
            r@ == new_energy(now),
    {
        EnergyState {
            ingest_enabled: true,
            load_warning: None,
            save_warning: None,
            price_per_kwh: Binary64::from_u64(1),
            price_changed_at: now,
            inference_util_threshold: Binary32::from_u32(20),
            bases: Table::new(),
            last_valid_power_instant: None,
            session: EnergyTotals::default(),
            lifetime: EnergyTotals::default(),
            daily: Table::new(),
            first_measurement_at: None,
            last_measurement_at: None,
        }
    }

    /// Sets price and threshold, at the machine's time.
    pub fn apply_settings(&mut self, price_per_kwh: Binary64, inference_util_threshold: Binary32)
        -> (r: Result<(), String>)
        requires
            old(self).wf(),
        ensures
            final(self).wf(),
            match r {
                Ok(_) => is_price(price_per_kwh) && is_threshold(inference_util_threshold)
                    && exists|now: LocalTime|
                    final(self)@ == #[trigger] with_settings(
                        old(self)@,
                        price_per_kwh,
                        inference_util_threshold,
                        now,
                    ),
                Err(e) => *final(self) == *old(self) && is_refusal(
                    price_per_kwh,
                    inference_util_threshold,
                    e@,
                ),
            },
    {
        let now = local_now();
        self.apply_settings_at(price_per_kwh, inference_util_threshold, now)
    }

    /// Sets price and threshold. What they may not be is refused, and changes
    /// nothing.
    pub fn apply_settings_at(
        &mut self,
        price_per_kwh: Binary64,
        inference_util_threshold: Binary32,
        now: LocalTime,
    ) -> (r: Result<(), String>)
        requires
            old(self).wf(),
        ensures
            final(self).wf(),
            match r {
                Ok(_) => is_price(price_per_kwh) && is_threshold(inference_util_threshold)
                    && final(self)@ == with_settings(
                    old(self)@,
                    price_per_kwh,
                    inference_util_threshold,
                    now,
                ),
                Err(e) => *final(self) == *old(self) && is_refusal(
                    price_per_kwh,
                    inference_util_threshold,
                    e@,
                ),
            },
    {
        if !price_per_kwh.is_nonnegative() {
            return Err("Price per kWh must be finite and non-negative".to_owned());
        }
        let low = Binary32::from_bits(0);
        let high = Binary32::from_u32(100);
        if !inference_util_threshold.is_finite() || !low.up_to(inference_util_threshold)
            || !inference_util_threshold.up_to(high) {
            return Err("Inference utilization threshold must be between 0 and 100".to_owned());
        }
        if !self.price_per_kwh.equal(price_per_kwh) {
            self.price_changed_at = now;
        }
        self.price_per_kwh = price_per_kwh;
        self.inference_util_threshold = inference_util_threshold;
        Ok(())
    }

    /// Takes in the samples of one poll.
    pub fn ingest(
        &mut self,
        gpus: &[GpuPowerSample],
        busy: BusyFlags,
        now: Moment,
        now_local: LocalTime,
    )
        requires
            old(self).wf(),
        ensures
            final(self).wf(),
            final(self)@ == ingested(old(self)@, gpus@, busy, now, now_local),
    {
        if !self.ingest_enabled {
            return;
        }
        let mut bases = keep_reported(&self.bases, gpus);
        let mut kwh = Binary64::zero();
        let mut any_valid: bool = false;
        let n: usize = gpus.len();
        let mut i: usize = 0;
        let ghost start = Intake { bases: bases@, kwh, any_valid };
        assert(gpus@.take(0) =~= Seq::<GpuPowerSample>::empty());
        while i < n
            invariant
                n == gpus@.len(),
                i <= n,
                bases.wf(),
                (Intake { bases: bases@, kwh, any_valid }) == taken_all(
                    start,
                    gpus@.take(i as int),
                    now,
                ),
            decreases n - i,
        {
            let gpu = &gpus[i];
            proof {
                assert(gpus@.take(i + 1).drop_last() =~= gpus@.take(i as int));
                assert(gpus@.take(i + 1).last() == *gpu);
            }
            let power = gpu.power_w.widen();
            if !power.is_nonnegative() {
                bases.remove(&gpu.id);
            } else {
                any_valid = true;
                if let Some(before) = bases.get(&gpu.id) {
                    if before.instant.nanos < now.nanos && now.nanos - before.instant.nanos
                        <= MAX_SAMPLE_GAP {
                        kwh = kwh.plus(energy_since(before, power, now));
                    }
                }
                bases.insert(
                    gpu.id.as_str().to_owned(),
                    GpuBase { power_w: power, instant: now },
                );
            }
            i = i + 1;
        }
        assert(gpus@.take(n as int) =~= gpus@);
        self.bases = bases;
        if any_valid {
            self.last_valid_power_instant = Some(now);
            if self.first_measurement_at.is_none() {
                self.first_measurement_at = Some(now_local);
            }
            self.last_measurement_at = Some(now_local);
        }
        self.prune_daily(now_local);
        if kwh.is_zero() {
            return;
        }
        let inference: bool = busy.requests_processing > 0 || busy.slots_processing > 0 || (
        busy.health_ok && some_card_is_used(gpus, self.inference_util_threshold));
        let cost = kwh.times(self.price_per_kwh);
        self.add_everywhere(kwh, cost, inference, now_local);
        self.prune_daily(now_local);
    }

    fn add_everywhere(&mut self, kwh: Binary64, cost: Binary64, inference: bool, local: LocalTime)
        requires
            old(self).wf(),
        ensures
            final(self).wf(),
            final(self)@ == (Energy {
                session: with_delta(old(self)@.session, kwh, cost, inference),
                lifetime: with_delta(old(self)@.lifetime, kwh, cost, inference),
                daily: old(self)@.daily.insert(
                    local.day as int,
                    with_delta(
                        day_totals(old(self)@.daily, local.day as int),
                        kwh,
                        cost,
                        inference,
                    ),
                ),
                ..old(self)@
            }),
    {
        self.session.add_delta(kwh, cost, inference);
        self.lifetime.add_delta(kwh, cost, inference);
        let mut today = match self.daily.get(&local.day) {
            Some(totals) => *totals,
            None => EnergyTotals::default(),
        };
        today.add_delta(kwh, cost, inference);
        self.daily.insert(local.day, today);
    }

    fn prune_daily(&mut self, now_local: LocalTime)
        requires
            old(self).wf(),
        ensures
            final(self).wf(),
            final(self)@ == (Energy {
                daily: pruned(old(self)@.daily, now_local.day),
                ..old(self)@
            }),
    {
        if let Some(cutoff) = days_before(now_local.day, KEPT_DAYS) {
            self.daily.drop_before(&cutoff);
        }
    }

    /// Forgets everything but the settings.
    pub fn reset_lifetime(&mut self)
        ensures
            final(self).wf(),
            final(self)@ == forgotten(old(self)@),
    {
        self.session = EnergyTotals::default();
        self.lifetime = EnergyTotals::default();
        self.daily.clear();
        self.bases.clear();
        self.last_valid_power_instant = None;
        self.first_measurement_at = None;
        self.last_measurement_at = None;
    }

    /// Says whether samples are taken.
    pub fn set_ingest_enabled(&mut self, enabled: bool)
        ensures
            *final(self) == (EnergyState { ingest_enabled: enabled, ..*old(self) }),
    {
        self.ingest_enabled = enabled;
    }

    /// Notes what went wrong with loading.
    pub fn set_load_warning(&mut self, warning: Option<String>)
        ensures
            *final(self) == (EnergyState { load_warning: warning, ..*old(self) }),
    {
        self.load_warning = warning;
    }

    /// Notes what went wrong with saving.
    pub fn set_save_warning(&mut self, warning: Option<String>)
        ensures
            *final(self) == (EnergyState { save_warning: warning, ..*old(self) }),
    {
        self.save_warning = warning;
    }
}

/// Why price and threshold are refused.
pub open spec fn is_refusal(price: Binary64, threshold: Binary32, message: Seq<char>) -> bool {
    if !is_price(price) {
        message == "Price per kWh must be finite and non-negative"@
    } else {
        !is_threshold(threshold) && message
            == "Inference utilization threshold must be between 0 and 100"@
    }
}

impl EnergyState {
    /// Energy as it is shown.
    pub fn snapshot(&self, now: Moment, now_local: LocalTime) -> (r: EnergySnapshot)
        requires
            self.wf(),
            -86_400 < now_local.offset_secs < 86_400,
        ensures
            r.available == is_available(self@, now),
            r.telemetry_stale == !is_available(self@, now),
            opt_chars(r.save_warning) == shown_warning(self@),
            r.currency@ == "PLN"@,
            r.price_per_kwh == self.price_per_kwh,
            r.inference_util_threshold == self.inference_util_threshold,
            r.timezone_label@ == offset_text(now_local.offset_secs as int),
            r.session == self.session,
            r.today == day_totals(self@.daily, now_local.day as int),
            r.last_7_days == totals_until(self@.daily, now_local.day, 7),
            r.lifetime == self.lifetime,
            r.first_measurement_at == self.first_measurement_at,
            r.last_measurement_at == self.last_measurement_at,
    {
        let available: bool = match self.last_valid_power_instant {
            Some(last) => last.nanos <= now.nanos && now.nanos - last.nanos <= AVAILABILITY_WINDOW,
            None => false,
        };
        let today = match self.daily.get(&now_local.day) {
            Some(totals) => *totals,
            None => EnergyTotals::default(),
        };
        let mut last_7_days = EnergyTotals::default();
        let mut days_ago: u64 = 0;
        while days_ago < 7
            invariant
                self.wf(),
                days_ago <= 7,
                last_7_days == totals_until(self@.daily, now_local.day, days_ago as nat),
            decreases 7 - days_ago,
        {
            if let Some(date) = days_before(now_local.day, days_ago) {
                if let Some(totals) = self.daily.get(&date) {
                    last_7_days.add_assign(totals);
                }
            }
            days_ago = days_ago + 1;
        }
        let save_warning = if self.save_warning.is_some() {
            copy_opt(&self.save_warning)
        } else {
            copy_opt(&self.load_warning)
        };
        let timezone_label = match offset_label(now_local.offset_secs) {
            Some(label) => label,
            None => String::new(),
        };
        EnergySnapshot {
            available,
            telemetry_stale: !available,
            save_warning,
            currency: "PLN".to_owned(),
            price_per_kwh: self.price_per_kwh,
            inference_util_threshold: self.inference_util_threshold,
            timezone_label,
            session: self.session,
            today,
            last_7_days,
            lifetime: self.lifetime,
            first_measurement_at: self.first_measurement_at,
            last_measurement_at: self.last_measurement_at,
        }
    }
}

// ---------------------------------------------------------------------------
// What is saved
// ---------------------------------------------------------------------------
/// The energy of one day, as it is saved.
#[derive(Clone, Copy, Debug, PartialEq, Eq, Structural)]
pub struct DailyEnergy {
    /// The day.
    pub day: i32,
    /// Its totals.
    pub totals: EnergyTotals,
}

/// What is saved of the energy used.
#[derive(Debug)]
pub struct EnergyStore {
    /// The form of what is saved.
    pub schema_version: u32,
    /// The currency of the costs.
    pub currency: String,
    /// The price.
    pub price_per_kwh: Binary64,
    /// When the price was last changed.
    pub price_changed_at: LocalTime,
    /// The utilisation from which a card counts as at work.
    pub inference_util_threshold: Binary32,
    /// Since the first measurement.
    pub lifetime: EnergyTotals,
    /// When the first measurement was.
    pub first_measurement_at: Option<LocalTime>,
    /// When the last measurement was.
    pub last_measurement_at: Option<LocalTime>,
    /// The offset from universal time.
    pub timezone_label: String,
    /// By day.
    pub daily: Vec<DailyEnergy>,
}

/// The days from `cutoff` on, in order; all of them where there is no cutoff.
pub open spec fn saved_days(entries: Seq<(i32, EnergyTotals)>, cutoff: Option<int>) -> Seq<
    DailyEnergy,
>
    decreases entries.len(),
{
    if entries.len() == 0 {
        Seq::empty()
    } else {
        let before = saved_days(entries.drop_last(), cutoff);
        let (day, totals) = entries.last();
        if cutoff is None || day >= cutoff->0 {
            before.push(DailyEnergy { day, totals })
        } else {
            before
        }
    }
}

/// The map that saved days stand for, the last first where two are of the same day.
pub open spec fn days_map(daily: Seq<DailyEnergy>) -> Map<int, EnergyTotals>
    decreases daily.len(),
{
    if daily.len() == 0 {
        Map::empty()
    } else {
        days_map(daily.drop_last()).insert(daily.last().day as int, daily.last().totals)
    }
}

/// Whether a store is what is saved of the energy used at `now`.
pub open spec fn is_store_of(
    store: EnergyStore,
    e: EnergyState,
    now: LocalTime,
) -> bool {
    &&& store.schema_version == 1
    &&& store.currency@ == "PLN"@
    &&& store.price_per_kwh == e.price_per_kwh
    &&& store.price_changed_at == e.price_changed_at
    &&& store.inference_util_threshold == e.inference_util_threshold
    &&& store.lifetime == e.lifetime
    &&& store.first_measurement_at == e.first_measurement_at
    &&& store.last_measurement_at == e.last_measurement_at
    &&& store.timezone_label@ == if -86_400 < now.offset_secs < 86_400 {
        offset_text(now.offset_secs as int)
    } else {
        Seq::empty()
    }
    &&& store.daily@ == saved_days(e.daily.entries@, earlier(now.day, KEPT_DAYS as nat))
}

/// What is known after loading what was saved.
pub open spec fn loaded(store: EnergyStore) -> Energy {
    Energy {
        ingest_enabled: true,
        load_warning: None,
        save_warning: None,
        price_per_kwh: store.price_per_kwh,
        price_changed_at: store.price_changed_at,
        inference_util_threshold: store.inference_util_threshold,
        bases: Map::empty(),
        last_valid_power_instant: None,
        session: no_energy(),
        lifetime: store.lifetime,
        daily: days_map(store.daily@),
        first_measurement_at: store.first_measurement_at,
        last_measurement_at: store.last_measurement_at,
    }
}

impl EnergyState {
    /// What is to be saved, at the machine's time.
    pub fn persistable_store(&self) -> (r: EnergyStore)
        requires
            self.wf(),
        ensures
            exists|now: LocalTime| #[trigger]
                is_store_of(r, *self, now) && -86_400 < now.offset_secs < 86_400,
    {
        let now = local_now();
        self.store_at(now)
    }

    /// What is to be saved.
    pub fn store_at(&self, now: LocalTime) -> (r: EnergyStore)
        requires
            self.wf(),
        ensures
            is_store_of(r, *self, now),
    {
        let cutoff = days_before(now.day, KEPT_DAYS);
        let ghost expected = earlier(now.day, KEPT_DAYS as nat);
        let ghost all = self.daily.entries@;
        let mut daily: Vec<DailyEnergy> = Vec::new();
        let n: usize = self.daily.entries.len();
        let mut i: usize = 0;
        assert(all.take(0) =~= Seq::<(i32, EnergyTotals)>::empty());
        while i < n
            invariant
                n == self.daily.entries@.len(),
                all == self.daily.entries@,
                i <= n,
                match (cutoff, expected) {
                    (Some(c), Some(e)) => c == e,
                    (None, None) => true,
                    _ => false,
                },
                daily@ == saved_days(all.take(i as int), expected),
            decreases n - i,
        {
            proof {
                assert(all.take(i + 1).drop_last() =~= all.take(i as int));
                assert(all.take(i + 1).last() == all[i as int]);
            }
            let (day, totals) = self.daily.entries[i];
            let kept: bool = match cutoff {
                Some(c) => day >= c,
                None => true,
            };
            if kept {
                daily.push(DailyEnergy { day, totals });
            }
            i = i + 1;
        }
        assert(all.take(n as int) =~= all);
        let timezone_label = match offset_label(now.offset_secs) {
            Some(label) => label,
            None => String::new(),
        };
        EnergyStore {
            schema_version: 1,
            currency: "PLN".to_owned(),
            price_per_kwh: self.price_per_kwh,
            price_changed_at: self.price_changed_at,
            inference_util_threshold: self.inference_util_threshold,
            lifetime: self.lifetime,
            first_measurement_at: self.first_measurement_at,
            last_measurement_at: self.last_measurement_at,
            timezone_label,
            daily,
        }
    }

    /// What is known after loading what was saved.
    pub fn from_store(store: &EnergyStore) -> (r: EnergyState)
        ensures
            r.wf(),
            r@ == loaded(*store),
    {
        let mut daily: Table<i32, EnergyTotals> = Table::new();
        let n: usize = store.daily.len();
        let mut i: usize = 0;
        assert(store.daily@.take(0) =~= Seq::<DailyEnergy>::empty());
        while i < n
            invariant
                n == store.daily@.len(),
                i <= n,
                daily.wf(),
                daily@ == days_map(store.daily@.take(i as int)),
            decreases n - i,
        {
            proof {
                assert(store.daily@.take(i + 1).drop_last() =~= store.daily@.take(i as int));
                assert(store.daily@.take(i + 1).last() == store.daily@[i as int]);
            }
            daily.insert(store.daily[i].day, store.daily[i].totals);
            i = i + 1;
        }
        assert(store.daily@.take(n as int) =~= store.daily@);
        EnergyState {
            ingest_enabled: true,
            load_warning: None,
            save_warning: None,
            price_per_kwh: store.price_per_kwh,
            price_changed_at: store.price_changed_at,
            inference_util_threshold: store.inference_util_threshold,
            bases: Table::new(),
            last_valid_power_instant: None,
            session: EnergyTotals::default(),
            lifetime: store.lifetime,
            daily,
            first_measurement_at: store.first_measurement_at,
            last_measurement_at: store.last_measurement_at,
        }
    }
}

/// What reading the saved history gave.
#[derive(Debug)]
pub enum SavedHistory {
    /// There is none.
    Missing,
    /// It could not be read, for this reason.
    Unreadable(String),
    /// It is no history, for this reason.
    Corrupt(String),
    /// A history.
    Parsed(EnergyStore),
}

/// What is wrong with a saved history that cannot be used.
pub open spec fn history_problem(history: SavedHistory) -> Option<Seq<char>> {
    match history {
        SavedHistory::Missing => None,
        SavedHistory::Unreadable(reason) => Some(
            "Energy history could not be read: "@ + reason@,
        ),
        SavedHistory::Corrupt(reason) => Some("Energy history is corrupt: "@ + reason@),
        SavedHistory::Parsed(store) => if store.schema_version == 1 {
            None
        } else {
            Some("Energy history has an unsupported schema"@)
        },
    }
}

/// What is known after loading the saved history at `now`, and what is wrong with a
/// history that cannot be used and is to be put aside.
pub fn load_energy_state(history: SavedHistory, now: LocalTime) -> (r: (
    EnergyState,
    Option<String>,
))
    ensures
        r.0.wf(),
        opt_chars(r.1) == history_problem(history),
        r.0@ == match history {
            SavedHistory::Parsed(store) => if store.schema_version == 1 {
                loaded(store)
            } else {
                new_energy(now)
            },
            _ => new_energy(now),
        },
{
    match history {
        SavedHistory::Missing => (EnergyState::new_at(now), None),
        SavedHistory::Unreadable(reason) => (
            EnergyState::new_at(now),
            Some("Energy history could not be read: ".to_owned().concat(reason.as_str())),
        ),
        SavedHistory::Corrupt(reason) => (
            EnergyState::new_at(now),
            Some("Energy history is corrupt: ".to_owned().concat(reason.as_str())),
        ),
        SavedHistory::Parsed(store) => if store.schema_version == 1 {
            (EnergyState::from_store(&store), None)
        } else {
            (
                EnergyState::new_at(now),
                Some("Energy history has an unsupported schema".to_owned()),
            )
        },
    }
}

/// What is shown once a history that cannot be used was put aside, or could not be.
pub open spec fn aside_message(problem: Seq<char>, failure: Option<Seq<char>>) -> Seq<char> {
    match failure {
        None => problem + "; a backup was created and fresh history was started"@,
        Some(reason) => problem + "; the original file was preserved: "@ + reason,
    }
}

/// What is shown once a history that cannot be used was put aside, or could not be.
pub fn backup_warning(problem: &str, failure: Option<&str>) -> (r: String)
    ensures
        r@ == aside_message(
            problem@,
            match failure {
                Some(reason) => Some(reason@),
                None => None,
            },
        ),
{
    match failure {
        None => problem.to_owned().concat(
            "; a backup was created and fresh history was started",
        ),
        Some(reason) => problem.to_owned().concat("; the original file was preserved: ").concat(
            reason,
        ),
    }
}

/// The decimal digits of a number.
pub open spec fn decimal_digits(n: nat) -> Seq<char>
    decreases n,
{
    if n < 10 {
        seq![(n + '0' as nat) as char]
    } else {
        decimal_digits(n / 10).push((n % 10 + '0' as nat) as char)
    }
}

fn decimal_chars(n: u32) -> (r: Vec<char>)
    ensures
        r@ == decimal_digits(n as nat),
    decreases n,
{
    if n < 10 {
        let mut out: Vec<char> = Vec::new();
        out.push((n as u8 + 48) as char);
        assert(out@ =~= decimal_digits(n as nat));
        out
    } else {
        let mut out = decimal_chars(n / 10);
        out.push(((n % 10) as u8 + 48) as char);
        out
    }
}

/// The name under which a history is put aside, at the `attempt`-th try.
pub open spec fn aside_name(file: Seq<char>, timestamp: Seq<char>, attempt: nat) -> Seq<char> {
    let stem = file + ".corrupt-"@ + timestamp;
    if attempt == 0 {
        stem
    } else {
        stem + "-"@ + decimal_digits(attempt)
    }
}

/// The name under which a history is put aside, at the `attempt`-th try.
pub fn backup_name(file: &str, timestamp: &str, attempt: u32) -> (r: String)
    ensures
        r@ == aside_name(file@, timestamp@, attempt as nat),
{
    let stem = file.to_owned().concat(".corrupt-").concat(timestamp);
    if attempt == 0 {
        stem
    } else {
        let digits = decimal_chars(attempt);
        let number = crate::text::text_of(digits.as_slice());
        stem.concat("-").concat(number.as_str())
    }
}

/// What came of trying to put a history aside under a name.
#[derive(Clone, Copy, Debug, PartialEq, Eq, Structural)]
pub enum BackupOutcome {
    /// The name was free, and is taken now.
    Created,
    /// The name was taken already.
    Exists,
    /// The attempt failed.
    Failed,
}

/// What to do next to put a history aside.
#[derive(Clone, Copy, Debug, PartialEq, Eq, Structural)]
pub enum BackupStep {
    /// Copy the history.
    Copy,
    /// Try the name of this attempt.
    Retry(u32),
    /// Give up, and leave the history where it is.
    GiveUp,
    /// Give up: there are no more names.
    Exhausted,
}

/// What to do next to put a history aside, after the given attempt: a name that is
/// taken is never used, another is tried.
pub fn next_backup_step(attempt: u32, outcome: BackupOutcome) -> (r: BackupStep)
    ensures
        match outcome {
            BackupOutcome::Created => r == BackupStep::Copy,
            BackupOutcome::Exists => if attempt < u32::MAX {
                r == BackupStep::Retry((attempt + 1) as u32)
            } else {
                r == BackupStep::Exhausted
            },
            BackupOutcome::Failed => r == BackupStep::GiveUp,
        },
{
    match outcome {
        BackupOutcome::Created => BackupStep::Copy,
        BackupOutcome::Exists => match attempt.checked_add(1) {
            Some(next) => BackupStep::Retry(next),
            None => BackupStep::Exhausted,
        },
        BackupOutcome::Failed => BackupStep::GiveUp,
    }
}

/// The path of the saved history: under the state directory, or else under the home
/// directory, or else here.
pub open spec fn history_path(state: Option<Seq<u8>>, home: Option<Seq<u8>>) -> Seq<u8> {
    let base = match (state, home) {
        (Some(s), _) => s,
        (None, Some(h)) => joined(h, encode_utf8(".local/state"@)),
        (None, None) => encode_utf8("."@),
    };
    joined(joined(base, encode_utf8("llama-monitor"@)), encode_utf8("energy.json"@))
}

/// The bytes of the path of the user's state directory by `dirs::state_dir`. Nothing is
/// claimed of the result, which the environment decides.
#[verifier::external_body]
fn state_dir() -> Option<Vec<u8>> {
    dirs::state_dir().map(|p| p.into_os_string().into_encoded_bytes())
}

/// The path of the saved history on this machine.
pub fn default_energy_path() -> (r: Vec<u8>)
    ensures
        exists|state: Option<Seq<u8>>, home: Option<Seq<u8>>|
            r@ == #[trigger] history_path(state, home),
{
    let state = state_dir();
    let home = home_dir();
    let r = energy_path(&state, &home);
    assert(r@ == history_path(opt_bytes(state), opt_bytes(home)));
    r
}

/// The path of the saved history, given the state and home directories.
pub fn energy_path(state: &Option<Vec<u8>>, home: &Option<Vec<u8>>) -> (r: Vec<u8>)
    ensures
        r@ == history_path(opt_bytes(*state), opt_bytes(*home)),
{
    let base = match (state, home) {
        (Some(s), _) => slice_to_vec(s.as_slice()),
        (None, Some(h)) => join_path(h.as_slice(), ".local/state".as_bytes()),
        (None, None) => slice_to_vec(".".as_bytes()),
    };
    let folder = join_path(base.as_slice(), "llama-monitor".as_bytes());
    join_path(folder.as_slice(), "energy.json".as_bytes())
}

// ---------------------------------------------------------------------------
// Laws
// ---------------------------------------------------------------------------
/// A change of the price leaves the costs of the past as they are.
pub proof fn law_price_change_keeps_history(
    e: Energy,
    price: Binary64,
    threshold: Binary32,
    now: LocalTime,
)
    ensures
        with_settings(e, price, threshold, now).session == e.session,
        with_settings(e, price, threshold, now).lifetime == e.lifetime,
        with_settings(e, price, threshold, now).daily == e.daily,
{
}

/// A change of the threshold alone is no change of the price.
pub proof fn law_threshold_change_is_no_price_change(
    e: Energy,
    threshold: Binary32,
    now: LocalTime,
)
    requires
        is_price(e.price_per_kwh),
    ensures
        with_settings(e, e.price_per_kwh, threshold, now).price_changed_at == e.price_changed_at,
{
}

proof fn lemma_no_base_no_energy(
    bases: Map<Seq<char>, GpuBase>,
    gpus: Seq<GpuPowerSample>,
    now: Moment,
)
    requires
        forall|id: Seq<char>|
            #[trigger] bases.dom().contains(id) ==> !is_close(bases[id].instant, now),
    ensures
        ({
            let got = taken_all(
                Intake { bases, kwh: Binary64 { bits: 0 }, any_valid: false },
                gpus,
                now,
            );
            &&& got.kwh == (Binary64 { bits: 0 })
            &&& forall|id: Seq<char>|
                #[trigger] got.bases.dom().contains(id) ==> !is_close(got.bases[id].instant, now)
        }),
    decreases gpus.len(),
{
    if gpus.len() > 0 {
        lemma_no_base_no_energy(bases, gpus.drop_last(), now);
    }
}

/// Samples add no energy where no card has a reading close before: not the first
/// ones, not after a gap, not after a clock that stood still or ran back.
pub proof fn law_no_energy_without_a_close_reading(
    e: Energy,
    gpus: Seq<GpuPowerSample>,
    busy: BusyFlags,
    now: Moment,
    local: LocalTime,
)
    requires
        forall|id: Seq<char>|
            #[trigger] e.bases.dom().contains(id) ==> !is_close(e.bases[id].instant, now),
    ensures
        ingested(e, gpus, busy, now, local).session == e.session,
        ingested(e, gpus, busy, now, local).lifetime == e.lifetime,
        ingested(e, gpus, busy, now, local).daily == if e.ingest_enabled {
            pruned(e.daily, local.day)
        } else {
            e.daily
        },
{
    let kept = still_reported(e.bases, gpus);
    assert forall|id: Seq<char>| #[trigger] kept.dom().contains(id) implies !is_close(
        kept[id].instant,
        now,
    ) by {
        assert(e.bases.dom().contains(id));
    }
    lemma_no_base_no_energy(kept, gpus, now);
}

/// After a reset the next samples add no energy.
pub proof fn law_reset_starts_anew(
    e: Energy,
    gpus: Seq<GpuPowerSample>,
    busy: BusyFlags,
    now: Moment,
    local: LocalTime,
)
    ensures
        ingested(forgotten(e), gpus, busy, now, local).lifetime == no_energy(),
        ingested(forgotten(e), gpus, busy, now, local).session == no_energy(),
        ingested(forgotten(e), gpus, busy, now, local).daily == Map::<int, EnergyTotals>::empty(),
        forgotten(e).price_per_kwh == e.price_per_kwh,
        forgotten(e).inference_util_threshold == e.inference_util_threshold,
{
    law_no_energy_without_a_close_reading(forgotten(e), gpus, busy, now, local);
    assert(pruned(Map::empty(), local.day) =~= Map::<int, EnergyTotals>::empty());
}

/// While samples are not taken, nothing changes.
pub proof fn law_disabled_takes_nothing(
    e: Energy,
    gpus: Seq<GpuPowerSample>,
    busy: BusyFlags,
    now: Moment,
    local: LocalTime,
)
    requires
        !e.ingest_enabled,
    ensures
        ingested(e, gpus, busy, now, local) == e,
{
}

/// What one card adds does not depend on the cards that are not sampled: a missing
/// card blocks no other.
pub proof fn law_missing_card_blocks_no_other(
    bases: Map<Seq<char>, GpuBase>,
    more: Map<Seq<char>, GpuBase>,
    gpus: Seq<GpuPowerSample>,
    now: Moment,
)
    requires
        forall|id: Seq<char>|
            is_reported(gpus, id) ==> (#[trigger] bases.dom().contains(id)
                == more.dom().contains(id)),
        forall|id: Seq<char>|
            is_reported(gpus, id) && #[trigger] bases.dom().contains(id) ==> bases[id] == more[id],
    ensures
        intake(bases, gpus, now) == intake(more, gpus, now),
{
    assert(still_reported(bases, gpus) =~= still_reported(more, gpus));
}

proof fn lemma_taken_together(
    state: Intake,
    a: Seq<GpuPowerSample>,
    b: Seq<GpuPowerSample>,
    now: Moment,
)
    ensures
        taken_all(state, a + b, now) == taken_all(taken_all(state, a, now), b, now),
    decreases b.len(),
{
    if b.len() == 0 {
        assert(a + b =~= a);
    } else {
        assert((a + b).drop_last() =~= a + b.drop_last());
        lemma_taken_together(state, a, b.drop_last(), now);
    }
}

/// Whether two intakes differ at most in the reading of the card `id`.
pub open spec fn differ_at_most_in(a: Intake, b: Intake, id: Seq<char>) -> bool {
    &&& a.kwh == b.kwh
    &&& a.bases.remove(id) == b.bases.remove(id)
}

proof fn lemma_other_cards_are_taken_alike(
    a: Intake,
    b: Intake,
    gpus: Seq<GpuPowerSample>,
    now: Moment,
    id: Seq<char>,
)
    requires
        differ_at_most_in(a, b, id),
        !is_reported(gpus, id),
    ensures
        differ_at_most_in(taken_all(a, gpus, now), taken_all(b, gpus, now), id),
        taken_all(a, gpus, now).bases.dom().contains(id) == a.bases.dom().contains(id),
        a.bases.dom().contains(id) ==> taken_all(a, gpus, now).bases[id] == a.bases[id],
    decreases gpus.len(),
{
    if gpus.len() > 0 {
        let front = gpus.drop_last();
        let gpu = gpus.last();
        assert(gpus[gpus.len() - 1].id@ == gpu.id@);
        if is_reported(front, id) {
            let k = choose|k: int| 0 <= k < front.len() && (#[trigger] front[k]).id@ == id;
            assert(gpus[k].id@ == id);
        }
        lemma_other_cards_are_taken_alike(a, b, front, now, id);
        let x = taken_all(a, front, now);
        let y = taken_all(b, front, now);
        let other = gpu.id@;
        assert(other != id);
        assert(x.bases.remove(id).dom().contains(other) == x.bases.dom().contains(other));
        assert(y.bases.remove(id).dom().contains(other) == y.bases.dom().contains(other));
        if x.bases.dom().contains(other) {
            assert(x.bases.remove(id)[other] == x.bases[other]);
            assert(y.bases.remove(id)[other] == y.bases[other]);
        }
        let base = GpuBase { power_w: gpu.power_w.widened(), instant: now };
        assert(x.bases.remove(other).remove(id) =~= x.bases.remove(id).remove(other));
        assert(y.bases.remove(other).remove(id) =~= y.bases.remove(id).remove(other));
        assert(x.bases.insert(other, base).remove(id) =~= x.bases.remove(id).insert(other, base));
        assert(y.bases.insert(other, base).remove(id) =~= y.bases.remove(id).insert(other, base));
    }
}

/// Each card counts by itself: one without a close reading before, or without a valid
/// power, adds no energy, and the energy of all is what it is without that card.
pub proof fn law_card_without_a_close_reading_adds_nothing(
    bases: Map<Seq<char>, GpuBase>,
    gpus: Seq<GpuPowerSample>,
    i: int,
    now: Moment,
)
    requires
        0 <= i < gpus.len(),
        forall|j: int| 0 <= j < gpus.len() && j != i ==> (#[trigger] gpus[j]).id@ != gpus[i].id@,
        !is_power(gpus[i].power_w.widened()) || !bases.dom().contains(gpus[i].id@) || !is_close(
            bases[gpus[i].id@].instant,
            now,
        ),
    ensures
        intake(bases, gpus, now).kwh == intake(bases, gpus.remove(i), now).kwh,
{
    let id = gpus[i].id@;
    let others = gpus.remove(i);
    let front = gpus.take(i);
    let back = gpus.skip(i + 1);
    let one = seq![gpus[i]];
    let zero = Binary64 { bits: 0 };
    let with = Intake { bases: still_reported(bases, gpus), kwh: zero, any_valid: false };
    let without = Intake { bases: still_reported(bases, others), kwh: zero, any_valid: false };
    assert(others =~= front + back);
    assert(gpus =~= front + (one + back));
    if is_reported(front, id) {
        let k = choose|k: int| 0 <= k < front.len() && (#[trigger] front[k]).id@ == id;
        assert(gpus[k].id@ == id);
    }
    if is_reported(back, id) {
        let k = choose|k: int| 0 <= k < back.len() && (#[trigger] back[k]).id@ == id;
        assert(gpus[i + 1 + k].id@ == id);
    }
    assert forall|other: Seq<char>| other != id implies #[trigger] is_reported(gpus, other)
        == is_reported(others, other) by {
        if is_reported(gpus, other) {
            let k = choose|k: int| 0 <= k < gpus.len() && (#[trigger] gpus[k]).id@ == other;
            if k < i {
                assert(others[k].id@ == other);
            } else {
                assert(others[k - 1].id@ == other);
            }
        }
        if is_reported(others, other) {
            let k = choose|k: int| 0 <= k < others.len() && (#[trigger] others[k]).id@ == other;
            if k < i {
                assert(gpus[k].id@ == other);
            } else {
                assert(gpus[k + 1].id@ == other);
            }
        }
    }
    assert(with.bases.remove(id) =~= without.bases.remove(id));
    lemma_other_cards_are_taken_alike(with, without, front, now, id);
    let x = taken_all(with, front, now);
    let y = taken_all(without, front, now);
    let z = taken(x, gpus[i], now);
    assert(z.kwh == x.kwh);
    assert(z.bases.remove(id) =~= x.bases.remove(id));
    lemma_other_cards_are_taken_alike(z, y, back, now, id);
    lemma_taken_together(with, front, one + back, now);
    lemma_taken_together(x, one, back, now);
    lemma_taken_together(without, front, back, now);
    assert(one.drop_last() =~= Seq::<GpuPowerSample>::empty());
    assert(taken_all(x, one.drop_last(), now) == x);
}

/// One busy card is enough: the use of the others does not matter.
pub proof fn law_any_card_counts(gpus: Seq<GpuPowerSample>, threshold: Binary32, i: int)
    requires
        0 <= i < gpus.len(),
        threshold.at_most(gpus[i].utilization),
    ensures
        is_inference(
            BusyFlags { requests_processing: 0, slots_processing: 0, health_ok: true },
            gpus,
            threshold,
        ),
{
}

/// Days that are kept are no older than twenty-nine days.
pub proof fn law_old_days_are_dropped(
    e: Energy,
    gpus: Seq<GpuPowerSample>,
    busy: BusyFlags,
    now: Moment,
    local: LocalTime,
    day: int,
)
    requires
        e.ingest_enabled,
        earlier(local.day, KEPT_DAYS as nat) is Some,
        ingested(e, gpus, busy, now, local).daily.dom().contains(day),
    ensures
        day >= local.day - KEPT_DAYS,
{
}

/// Days that are young enough are kept, whatever the samples.
pub proof fn law_young_days_are_kept(
    e: Energy,
    gpus: Seq<GpuPowerSample>,
    busy: BusyFlags,
    now: Moment,
    local: LocalTime,
    day: int,
)
    requires
        e.daily.dom().contains(day),
        day >= local.day - KEPT_DAYS,
        day != local.day,
    ensures
        ingested(e, gpus, busy, now, local).daily.dom().contains(day),
        ingested(e, gpus, busy, now, local).daily[day] == e.daily[day],
{
}

proof fn lemma_saved_days_map(entries: Seq<(i32, EnergyTotals)>, cutoff: Option<int>)
    requires
        is_ordered(entries),
    ensures
        days_map(saved_days(entries, cutoff)) == match cutoff {
            Some(c) => not_before::<i32, EnergyTotals>(entries_map(entries), c),
            None => entries_map(entries),
        },
    decreases entries.len(),
{
    if entries.len() == 0 {
        assert(entries_map(entries) =~= Map::<int, EnergyTotals>::empty());
        assert(days_map(saved_days(entries, cutoff)) =~= match cutoff {
            Some(c) => not_before::<i32, EnergyTotals>(entries_map(entries), c),
            None => entries_map(entries),
        });
    } else {
        let n = entries.len() as int;
        let front = entries.drop_last();
        assert(entries.take(n - 1) =~= front);
        assert(entries.take(n) =~= entries);
        lemma_part_is_ordered(entries, 0, n - 1);
        lemma_prefix_map(entries, n - 1);
        lemma_saved_days_map(front, cutoff);
        let (day, totals) = entries.last();
        let before = saved_days(front, cutoff);
        if cutoff is None || day >= cutoff->0 {
            assert(before.push(DailyEnergy { day, totals }).drop_last() =~= before);
        }
        assert(days_map(saved_days(entries, cutoff)) =~= match cutoff {
            Some(c) => not_before::<i32, EnergyTotals>(entries_map(entries), c),
            None => entries_map(entries),
        });
    }
}

/// Loading what was saved gives back the settings, the lifetime totals and the days
/// that are kept.
pub proof fn law_saved_is_loaded(e: EnergyState, store: EnergyStore, now: LocalTime)
    requires
        e.wf(),
        is_store_of(store, e, now),
    ensures
        loaded(store).lifetime == e.lifetime,
        loaded(store).price_per_kwh == e.price_per_kwh,
        loaded(store).price_changed_at == e.price_changed_at,
        loaded(store).inference_util_threshold == e.inference_util_threshold,
        loaded(store).first_measurement_at == e.first_measurement_at,
        loaded(store).last_measurement_at == e.last_measurement_at,
        loaded(store).daily == pruned(e@.daily, now.day),
        history_problem(SavedHistory::Parsed(store)) is None,
{
    lemma_saved_days_map(e.daily.entries@, earlier(now.day, KEPT_DAYS as nat));
}

/// Whether totals are sound: none is negative, and what the server's work took is
/// no more than all.
pub open spec fn is_sound(t: EnergyTotals) -> bool {
    &&& t.energy_kwh.nonnegative()
    &&& t.inference_energy_kwh.nonnegative()
    &&& t.cost_pln.nonnegative()
    &&& t.inference_cost_pln.nonnegative()
    &&& t.inference_energy_kwh.at_most(t.energy_kwh)
    &&& t.inference_cost_pln.at_most(t.cost_pln)
}

/// Whether no total is smaller than it was.
pub open spec fn has_grown(before: EnergyTotals, after: EnergyTotals) -> bool {
    &&& before.energy_kwh.at_most(after.energy_kwh)
    &&& before.inference_energy_kwh.at_most(after.inference_energy_kwh)
    &&& before.cost_pln.at_most(after.cost_pln)
    &&& before.inference_cost_pln.at_most(after.inference_cost_pln)
}

proof fn lemma_delta_is_sound(t: EnergyTotals, kwh: Binary64, cost: Binary64, inference: bool)
    requires
        is_sound(t),
        kwh.nonnegative(),
        cost.nonnegative(),
    ensures
        is_sound(with_delta(t, kwh, cost, inference)),
        has_grown(t, with_delta(t, kwh, cost, inference)),
{
    lemma_sum_grows(t.energy_kwh, kwh);
    lemma_sum_grows(t.cost_pln, cost);
    lemma_sum_grows(t.inference_energy_kwh, kwh);
    lemma_sum_grows(t.inference_cost_pln, cost);
    lemma_sum_ordered(t.inference_energy_kwh, t.energy_kwh, kwh);
    lemma_sum_ordered(t.inference_cost_pln, t.cost_pln, cost);
}

/// Whether a power is one that a card can state: below `2^128` watts, as all 32-bit
/// numbers are.
pub open spec fn is_card_power(w: Binary64) -> bool {
    w.bounded(1202)
}

/// Whether all readings are such powers.
pub open spec fn are_valid(bases: Map<Seq<char>, GpuBase>) -> bool {
    forall|id: Seq<char>| #[trigger] bases.dom().contains(id) ==> is_card_power(bases[id].power_w)
}

proof fn lemma_energy_is_small(before: GpuBase, power: Binary64, now: Moment)
    requires
        is_card_power(before.power_w),
        is_card_power(power),
        is_close(before.instant, now),
    ensures
        energy_between(before, power, now).bounded(1500),
{
    let both = before.power_w.sum(power);
    let mean = both.quotient(Binary64::of(2));
    let nanos = (now.nanos - before.instant.nanos) as nat;
    lemma_sum_within(before.power_w, power, 1202);
    lemma_quotient_within(both, 2, 1203);
    lemma_few_seconds(nanos);
    lemma_product_within(mean, seconds_in(nanos), 1203, 1077);
    lemma_quotient_within(mean.product(seconds_in(nanos)), KWH_DIVISOR as nat, 1206);
    vstd::arithmetic::power2::lemma_pow2_strictly_increases(1206, 1500);
}

proof fn lemma_intake_is_sound(state: Intake, gpus: Seq<GpuPowerSample>, now: Moment)
    requires
        are_valid(state.bases),
        state.kwh.nonnegative(),
        state.kwh.magnitude() <= sum_limit(),
    ensures
        are_valid(taken_all(state, gpus, now).bases),
        taken_all(state, gpus, now).kwh.nonnegative(),
        taken_all(state, gpus, now).kwh.magnitude() <= sum_limit(),
    decreases gpus.len(),
{
    if gpus.len() > 0 {
        lemma_intake_is_sound(state, gpus.drop_last(), now);
        let so_far = taken_all(state, gpus.drop_last(), now);
        let gpu = gpus.last();
        let power = gpu.power_w.widened();
        if is_power(power) {
            lemma_widened_within(gpu.power_w);
            if so_far.bases.dom().contains(gpu.id@) && is_close(
                so_far.bases[gpu.id@].instant,
                now,
            ) {
                let energy = energy_between(so_far.bases[gpu.id@], power, now);
                lemma_energy_is_small(so_far.bases[gpu.id@], power, now);
                lemma_sum_stays_within(so_far.kwh, energy);
            }
        }
    }
}

proof fn lemma_intake(bases: Map<Seq<char>, GpuBase>, gpus: Seq<GpuPowerSample>, now: Moment)
    requires
        are_valid(bases),
    ensures
        are_valid(intake(bases, gpus, now).bases),
        intake(bases, gpus, now).kwh.nonnegative(),
        intake(bases, gpus, now).kwh.finite(),
{
    let kept = still_reported(bases, gpus);
    assert forall|id: Seq<char>| #[trigger] kept.dom().contains(id) implies is_card_power(
        kept[id].power_w,
    ) by {
        assert(bases.dom().contains(id));
    }
    lemma_intake_is_sound(
        Intake { bases: kept, kwh: Binary64 { bits: 0 }, any_valid: false },
        gpus,
        now,
    );
    lemma_sum_limit();
}

/// Whether the totals of every day are sound.
pub open spec fn are_sound(daily: Map<int, EnergyTotals>) -> bool {
    forall|day: int| #[trigger] daily.dom().contains(day) ==> is_sound(daily[day])
}

/// Whether no total of a day that is still kept is smaller than it was.
pub open spec fn have_grown(before: Map<int, EnergyTotals>, after: Map<int, EnergyTotals>) -> bool {
    forall|day: int| #[trigger]
        after.dom().contains(day) && before.dom().contains(day) ==> has_grown(
            before[day],
            after[day],
        )
}

/// Whether what is known is consistent: all totals are sound, since the start, for
/// ever and of every day, and readings and price are valid.
pub open spec fn is_consistent(e: Energy) -> bool {
    &&& is_sound(e.session)
    &&& is_sound(e.lifetime)
    &&& are_sound(e.daily)
    &&& are_valid(e.bases)
    &&& is_price(e.price_per_kwh)
}

/// Totals never fall, and what the server's work took is never more than all, in the
/// session, over the lifetime and on every day that is kept: what is consistent stays
/// so, whatever is sampled.
pub proof fn law_totals_stay_sound(
    e: Energy,
    gpus: Seq<GpuPowerSample>,
    busy: BusyFlags,
    now: Moment,
    local: LocalTime,
)
    requires
        is_consistent(e),
    ensures
        ({
            let after = ingested(e, gpus, busy, now, local);
            &&& is_consistent(after)
            &&& has_grown(e.session, after.session)
            &&& has_grown(e.lifetime, after.lifetime)
            &&& have_grown(e.daily, after.daily)
        }),
{
    let got = intake(e.bases, gpus, now);
    lemma_intake(e.bases, gpus, now);
    let cost = got.kwh.product(e.price_per_kwh);
    lemma_product_nonnegative(got.kwh, e.price_per_kwh);
    let inference = is_inference(busy, gpus, e.inference_util_threshold);
    lemma_delta_is_sound(e.session, got.kwh, cost, inference);
    lemma_delta_is_sound(e.lifetime, got.kwh, cost, inference);
    let day = local.day as int;
    let kept = pruned(e.daily, local.day);
    let today = day_totals(kept, day);
    if kept.dom().contains(day) {
        assert(e.daily.dom().contains(day));
    }
    lemma_delta_is_sound(today, got.kwh, cost, inference);
    let after = ingested(e, gpus, busy, now, local);
    assert forall|d: int| #[trigger] after.daily.dom().contains(d) implies is_sound(
        after.daily[d],
    ) && (e.daily.dom().contains(d) ==> has_grown(e.daily[d], after.daily[d])) by {
        if e.daily.dom().contains(d) {
            assert(is_sound(e.daily[d]));
        }
    }
}

/// What is known at the start is consistent, and settings and a reset leave it so.
pub proof fn law_settings_and_reset_stay_sound(
    e: Energy,
    price: Binary64,
    threshold: Binary32,
    now: LocalTime,
)
    requires
        is_consistent(e),
        is_price(price),
    ensures
        is_consistent(new_energy(now)),
        is_consistent(with_settings(e, price, threshold, now)),
        is_consistent(forgotten(e)),
{
    lemma_integer_is_positive(1);
}

/// Saving and loading leave what is consistent so.
pub proof fn law_saving_stays_sound(e: EnergyState, store: EnergyStore, now: LocalTime)
    requires
        e.wf(),
        is_consistent(e@),
        is_store_of(store, e, now),
    ensures
        is_consistent(loaded(store)),
{
    law_saved_is_loaded(e, store, now);
    let daily = loaded(store).daily;
    assert forall|day: int| #[trigger] daily.dom().contains(day) implies is_sound(daily[day]) by {
        assert(e@.daily.dom().contains(day));
    }
}

/// What the server's work took grows with all: while the server is at work, all totals
/// and those of its work get the same energy and cost, and otherwise those of its work
/// stay as they are. So it is in the session, over the lifetime and on the day.
pub proof fn law_work_is_charged_with_all(
    e: Energy,
    gpus: Seq<GpuPowerSample>,
    busy: BusyFlags,
    now: Moment,
    local: LocalTime,
)
    requires
        e.ingest_enabled,
        intake(e.bases, gpus, now).kwh.magnitude() != 0,
    ensures
        ({
            let after = ingested(e, gpus, busy, now, local);
            let kwh = intake(e.bases, gpus, now).kwh;
            let cost = kwh.product(e.price_per_kwh);
            let works = is_inference(busy, gpus, e.inference_util_threshold);
            let day = local.day as int;
            &&& is_charged(e.session, after.session, kwh, cost, works)
            &&& is_charged(e.lifetime, after.lifetime, kwh, cost, works)
            &&& after.daily.dom().contains(day)
            &&& is_charged(day_totals(e.daily, day), after.daily[day], kwh, cost, works)
        }),
{
}

/// Whether totals grew by so much energy and cost, and those of the server's work
/// with them where it was at work.
pub open spec fn is_charged(
    before: EnergyTotals,
    after: EnergyTotals,
    kwh: Binary64,
    cost: Binary64,
    works: bool,
) -> bool {
    &&& after.energy_kwh == before.energy_kwh.sum(kwh)
    &&& after.cost_pln == before.cost_pln.sum(cost)
    &&& works ==> after.inference_energy_kwh == before.inference_energy_kwh.sum(kwh)
        && after.inference_cost_pln == before.inference_cost_pln.sum(cost)
    &&& !works ==> after.inference_energy_kwh == before.inference_energy_kwh
        && after.inference_cost_pln == before.inference_cost_pln
}

/// Energy does not depend on the local calendar: a clock that is set, or summer time
/// that begins or ends, changes nothing of it.
pub proof fn law_calendar_does_not_matter(
    e: Energy,
    gpus: Seq<GpuPowerSample>,
    busy: BusyFlags,
    now: Moment,
    local: LocalTime,
    other: LocalTime,
)
    ensures
        ingested(e, gpus, busy, now, local).session == ingested(e, gpus, busy, now, other).session,
        ingested(e, gpus, busy, now, local).lifetime == ingested(
            e,
            gpus,
            busy,
            now,
            other,
        ).lifetime,
        ingested(e, gpus, busy, now, local).bases == ingested(e, gpus, busy, now, other).bases,
{
}

/// After a restart the first samples charge nothing for the time in between.
pub proof fn law_restart_charges_no_gap(
    store: EnergyStore,
    gpus: Seq<GpuPowerSample>,
    busy: BusyFlags,
    now: Moment,
    local: LocalTime,
)
    ensures
        ingested(loaded(store), gpus, busy, now, local).lifetime == store.lifetime,
        ingested(loaded(store), gpus, busy, now, local).session == no_energy(),
        ingested(loaded(store), gpus, busy, now, local).daily == pruned(
            loaded(store).daily,
            local.day,
        ),
{
    law_no_energy_without_a_close_reading(loaded(store), gpus, busy, now, local);
}

proof fn lemma_digits_differ(m: nat, n: nat)
    requires
        decimal_digits(m) == decimal_digits(n),
    ensures
        m == n,
    decreases m,
{
    let a = decimal_digits(m);
    let b = decimal_digits(n);
    lemma_digits_exist(m / 10);
    lemma_digits_exist(n / 10);
    assert(a.last() == (m % 10 + '0' as nat) as char);
    assert(b.last() == (n % 10 + '0' as nat) as char);
    if m >= 10 && n >= 10 {
        assert(a.drop_last() =~= decimal_digits(m / 10));
        assert(b.drop_last() =~= decimal_digits(n / 10));
        lemma_digits_differ(m / 10, n / 10);
    }
}

proof fn lemma_digits_exist(n: nat)
    ensures
        decimal_digits(n).len() > 0,
{
}

/// Two attempts to put a history aside never use the same name.
pub proof fn law_backup_names_differ(
    file: Seq<char>,
    timestamp: Seq<char>,
    attempt: nat,
    other: nat,
)
    requires
        attempt != other,
    ensures
        aside_name(file, timestamp, attempt) != aside_name(file, timestamp, other),
{
    reveal_strlit("-");
    let stem = file + ".corrupt-"@ + timestamp + "-"@;
    let a = decimal_digits(attempt);
    let b = decimal_digits(other);
    lemma_digits_exist(attempt);
    lemma_digits_exist(other);
    if attempt > 0 && other > 0 && stem + a == stem + b {
        assert(a =~= (stem + a).skip(stem.len() as int));
        assert(b =~= (stem + b).skip(stem.len() as int));
        lemma_digits_differ(attempt, other);
    }
}

/// Every card is charged for its own use: one more card adds, to the energy of the
/// others, the mean of its power before and now over the time in between, where it had a
/// reading no more than five seconds ago, and nothing otherwise. No cards use no energy.
pub proof fn law_every_card_is_charged(
    bases: Map<Seq<char>, GpuBase>,
    gpus: Seq<GpuPowerSample>,
    gpu: GpuPowerSample,
    now: Moment,
)
    requires
        forall|j: int| 0 <= j < gpus.len() ==> (#[trigger] gpus[j]).id@ != gpu.id@,
    ensures
        intake(bases, Seq::empty(), now).kwh == (Binary64 { bits: 0 }),
        ({
            let others = intake(bases, gpus, now).kwh;
            let all = intake(bases, gpus.push(gpu), now).kwh;
            let before = bases[gpu.id@];
            let power = gpu.power_w.widened();
            let nanos = now.nanos - before.instant.nanos;
            if power.finite() && power.rank() >= 0 && bases.dom().contains(gpu.id@) && 0 < nanos
                <= 5_000_000_000 {
                all == others.sum(
                    before.power_w.sum(power).quotient(Binary64::of(2)).product(
                        seconds_in(nanos as nat),
                    ).quotient(Binary64::of(3_600_000)),
                )
            } else {
                all == others
            }
        }),
{
    let id = gpu.id@;
    let all = gpus.push(gpu);
    let zero = Binary64 { bits: 0 };
    let with = Intake { bases: still_reported(bases, all), kwh: zero, any_valid: false };
    let without = Intake { bases: still_reported(bases, gpus), kwh: zero, any_valid: false };
    assert(all.drop_last() =~= gpus);
    assert(all[gpus.len() as int].id@ == id);
    assert(is_reported(all, id));
    assert forall|other: Seq<char>| other != id implies #[trigger] is_reported(all, other)
        == is_reported(gpus, other) by {
        if is_reported(all, other) {
            let k = choose|k: int| 0 <= k < all.len() && (#[trigger] all[k]).id@ == other;
            assert(gpus[k].id@ == other);
        }
        if is_reported(gpus, other) {
            let k = choose|k: int| 0 <= k < gpus.len() && (#[trigger] gpus[k]).id@ == other;
            assert(all[k].id@ == other);
        }
    }
    assert(with.bases.remove(id) =~= without.bases.remove(id));
    lemma_other_cards_are_taken_alike(with, without, gpus, now, id);
}

/// Whether a sample states a power: a finite one that is not negative.
pub open spec fn states_a_power(gpu: GpuPowerSample) -> bool {
    gpu.power_w.widened().finite() && gpu.power_w.widened().rank() >= 0
}

proof fn lemma_any_power(state: Intake, gpus: Seq<GpuPowerSample>, now: Moment)
    ensures
        taken_all(state, gpus, now).any_valid == (state.any_valid || exists|i: int|
            0 <= i < gpus.len() && states_a_power(#[trigger] gpus[i])),
    decreases gpus.len(),
{
    if gpus.len() > 0 {
        let front = gpus.drop_last();
        let n = front.len() as int;
        lemma_any_power(state, front, now);
        assert(gpus[n] == gpus.last());
        assert(is_power(gpus[n].power_w.widened()) == states_a_power(gpus[n]));
        if exists|i: int| 0 <= i < front.len() && states_a_power(#[trigger] front[i]) {
            let i = choose|i: int| 0 <= i < front.len() && states_a_power(#[trigger] front[i]);
            assert(states_a_power(gpus[i]));
        }
        if exists|i: int| 0 <= i < gpus.len() && states_a_power(#[trigger] gpus[i]) {
            let i = choose|i: int| 0 <= i < gpus.len() && states_a_power(#[trigger] gpus[i]);
            if i < n {
                assert(states_a_power(front[i]));
            }
        }
    }
}

proof fn lemma_others_leave_a_reading(
    state: Intake,
    gpus: Seq<GpuPowerSample>,
    now: Moment,
    id: Seq<char>,
)
    requires
        forall|j: int| 0 <= j < gpus.len() ==> (#[trigger] gpus[j]).id@ != id,
    ensures
        taken_all(state, gpus, now).bases.dom().contains(id) == state.bases.dom().contains(id),
        state.bases.dom().contains(id) ==> taken_all(state, gpus, now).bases[id]
            == state.bases[id],
    decreases gpus.len(),
{
    if gpus.len() > 0 {
        let front = gpus.drop_last();
        assert forall|j: int| 0 <= j < front.len() implies (#[trigger] front[j]).id@ != id by {
            assert(front[j] == gpus[j]);
        }
        assert(gpus[gpus.len() - 1].id@ != id);
        lemma_others_leave_a_reading(state, front, now, id);
    }
}

proof fn lemma_reading_is_taken(state: Intake, gpus: Seq<GpuPowerSample>, now: Moment, i: int)
    requires
        0 <= i < gpus.len(),
        forall|j: int| i < j < gpus.len() ==> (#[trigger] gpus[j]).id@ != gpus[i].id@,
    ensures
        taken_all(state, gpus, now).bases.dom().contains(gpus[i].id@) == states_a_power(gpus[i]),
        states_a_power(gpus[i]) ==> taken_all(state, gpus, now).bases[gpus[i].id@] == (GpuBase {
            power_w: gpus[i].power_w.widened(),
            instant: now,
        }),
{
    let front = gpus.take(i + 1);
    let back = gpus.skip(i + 1);
    let id = gpus[i].id@;
    assert(gpus =~= front + back);
    lemma_taken_together(state, front, back, now);
    assert(front.last() == gpus[i]);
    let before = taken_all(state, front.drop_last(), now);
    assert(taken_all(state, front, now) == taken(before, gpus[i], now));
    assert(is_power(gpus[i].power_w.widened()) == states_a_power(gpus[i]));
    assert forall|j: int| 0 <= j < back.len() implies (#[trigger] back[j]).id@ != id by {
        assert(back[j] == gpus[i + 1 + j]);
    }
    lemma_others_leave_a_reading(taken_all(state, front, now), back, now, id);
}

/// A poll is remembered: afterwards each card that stated a power has that reading, taken
/// now, and no other card has one. The poll counts as a measurement where any card stated
/// a power; the first one is noted once, the last one each time.
pub proof fn law_poll_is_remembered(
    e: Energy,
    gpus: Seq<GpuPowerSample>,
    busy: BusyFlags,
    now: Moment,
    local: LocalTime,
    i: int,
)
    requires
        e.ingest_enabled,
        0 <= i < gpus.len(),
        forall|j: int| i < j < gpus.len() ==> (#[trigger] gpus[j]).id@ != gpus[i].id@,
    ensures
        ({
            let after = ingested(e, gpus, busy, now, local);
            let id = gpus[i].id@;
            let power = gpus[i].power_w.widened();
            let valid = power.finite() && power.rank() >= 0;
            &&& after.bases.dom().contains(id) == valid
            &&& valid ==> after.bases[id] == (GpuBase { power_w: power, instant: now })
            &&& valid ==> after.last_valid_power_instant == Some(now)
            &&& valid ==> after.last_measurement_at == Some(local)
            &&& valid && e.first_measurement_at is None ==> after.first_measurement_at == Some(
                local,
            )
            &&& e.first_measurement_at is Some ==> after.first_measurement_at
                == e.first_measurement_at
        }),
{
    let kept = Intake {
        bases: still_reported(e.bases, gpus),
        kwh: Binary64 { bits: 0 },
        any_valid: false,
    };
    lemma_any_power(kept, gpus, now);
    lemma_reading_is_taken(kept, gpus, now, i);
}

/// Cards that are not sampled are forgotten, and a poll in which no card states a power
/// is no measurement.
pub proof fn law_silent_cards_are_forgotten(
    e: Energy,
    gpus: Seq<GpuPowerSample>,
    busy: BusyFlags,
    now: Moment,
    local: LocalTime,
    id: Seq<char>,
)
    requires
        e.ingest_enabled,
    ensures
        ({
            let after = ingested(e, gpus, busy, now, local);
            &&& (forall|j: int| 0 <= j < gpus.len() ==> (#[trigger] gpus[j]).id@ != id)
                ==> !after.bases.dom().contains(id)
            &&& (forall|j: int|
                0 <= j < gpus.len() ==> !((#[trigger] gpus[j]).power_w.widened().finite()
                    && gpus[j].power_w.widened().rank() >= 0)) ==> {
                &&& after.last_valid_power_instant == e.last_valid_power_instant
                &&& after.last_measurement_at == e.last_measurement_at
                &&& after.first_measurement_at == e.first_measurement_at
                &&& after.session == e.session
                &&& after.lifetime == e.lifetime
            }
        }),
{
    let kept = Intake {
        bases: still_reported(e.bases, gpus),
        kwh: Binary64 { bits: 0 },
        any_valid: false,
    };
    lemma_any_power(kept, gpus, now);
    if forall|j: int| 0 <= j < gpus.len() ==> (#[trigger] gpus[j]).id@ != id {
        lemma_others_leave_a_reading(kept, gpus, now, id);
    }
    if forall|j: int|
        0 <= j < gpus.len() ==> !((#[trigger] gpus[j]).power_w.widened().finite()
            && gpus[j].power_w.widened().rank() >= 0) {
        assert forall|j: int| 0 <= j < gpus.len() implies !states_a_power(#[trigger] gpus[j]) by {}
        lemma_no_power_no_energy(kept, gpus, now);
    }
}

proof fn lemma_no_power_no_energy(state: Intake, gpus: Seq<GpuPowerSample>, now: Moment)
    requires
        forall|j: int| 0 <= j < gpus.len() ==> !states_a_power(#[trigger] gpus[j]),
    ensures
        taken_all(state, gpus, now).kwh == state.kwh,
    decreases gpus.len(),
{
    if gpus.len() > 0 {
        let front = gpus.drop_last();
        assert forall|j: int| 0 <= j < front.len() implies !states_a_power(#[trigger] front[j]) by {
            assert(front[j] == gpus[j]);
        }
        assert(!states_a_power(gpus[gpus.len() - 1]));
        lemma_no_power_no_energy(state, front, now);
    }
}

/// The server is at work where it has requests in work, or slots at work, or where it is
/// healthy and some card is used as much as the threshold says, and otherwise not.
pub proof fn law_work_is_told_by_three_signs(
    busy: BusyFlags,
    gpus: Seq<GpuPowerSample>,
    threshold: Binary32,
)
    ensures
        busy.requests_processing > 0 ==> is_inference(busy, gpus, threshold),
        busy.slots_processing > 0 ==> is_inference(busy, gpus, threshold),
        busy.health_ok && (exists|i: int|
            0 <= i < gpus.len() && threshold.at_most((#[trigger] gpus[i]).utilization))
            ==> is_inference(busy, gpus, threshold),
        busy.requests_processing == 0 && busy.slots_processing == 0 && !busy.health_ok
            ==> !is_inference(busy, gpus, threshold),
        busy.requests_processing == 0 && busy.slots_processing == 0 && (forall|i: int|
            0 <= i < gpus.len() ==> !threshold.at_most((#[trigger] gpus[i]).utilization))
            ==> !is_inference(busy, gpus, threshold),
{
}

/// The days of a month are kept: a poll leaves the totals of the twenty-nine days before
/// and of later days, and drops those of older ones. Its own day gets an entry with the
/// first energy, and keeps the one it has.
pub proof fn law_days_of_a_month_are_kept(
    e: Energy,
    gpus: Seq<GpuPowerSample>,
    busy: BusyFlags,
    now: Moment,
    local: LocalTime,
    day: int,
)
    requires
        e.ingest_enabled,
        -95_746_129 + 29 <= local.day <= 95_745_399,
    ensures
        ({
            let after = ingested(e, gpus, busy, now, local).daily;
            &&& day != local.day ==> after.dom().contains(day) == (e.daily.dom().contains(day)
                && day >= local.day - 29)
            &&& day != local.day && after.dom().contains(day) ==> after[day] == e.daily[day]
            &&& after.dom().contains(local.day as int) == (e.daily.dom().contains(
                local.day as int,
            ) || intake(e.bases, gpus, now).kwh.magnitude() != 0)
            &&& intake(e.bases, gpus, now).kwh.magnitude() == 0 && e.daily.dom().contains(
                local.day as int,
            ) ==> after[local.day as int] == e.daily[local.day as int]
        }),
{
}

/// A poll that used no energy leaves all totals as they are, and no poll changes the
/// settings.
pub proof fn law_no_energy_no_change(
    e: Energy,
    gpus: Seq<GpuPowerSample>,
    busy: BusyFlags,
    now: Moment,
    local: LocalTime,
)
    ensures
        ({
            let after = ingested(e, gpus, busy, now, local);
            &&& intake(e.bases, gpus, now).kwh.magnitude() == 0 ==> after.session == e.session
                && after.lifetime == e.lifetime
            &&& after.ingest_enabled == e.ingest_enabled
            &&& after.load_warning == e.load_warning
            &&& after.save_warning == e.save_warning
            &&& after.price_per_kwh == e.price_per_kwh
            &&& after.price_changed_at == e.price_changed_at
            &&& after.inference_util_threshold == e.inference_util_threshold
        }),
{
}

/// The totals of some days are those of each of them together: those of one day more are
/// its own with those of the days behind it, and a day without totals adds nothing.
pub proof fn law_days_add_up(daily: Map<int, EnergyTotals>, day: i32, n: nat)
    requires
        -95_746_129 + n <= day <= 95_745_399,
    ensures
        totals_until(daily, day, 0) == no_energy(),
        ({
            let less = totals_until(daily, day, n);
            let more = totals_until(daily, day, n + 1);
            let own = daily[day - n];
            &&& !daily.dom().contains(day - n) ==> more == less
            &&& daily.dom().contains(day - n) ==> {
                &&& more.energy_kwh == less.energy_kwh.sum(own.energy_kwh)
                &&& more.inference_energy_kwh == less.inference_energy_kwh.sum(
                    own.inference_energy_kwh,
                )
                &&& more.cost_pln == less.cost_pln.sum(own.cost_pln)
                &&& more.inference_cost_pln == less.inference_cost_pln.sum(own.inference_cost_pln)
            }
        }),
        daily.dom().contains(day as int) ==> day_totals(daily, day as int) == daily[day as int],
        !daily.dom().contains(day as int) ==> day_totals(daily, day as int) == no_energy(),
        no_energy().energy_kwh.bits == 0 && no_energy().inference_energy_kwh.bits == 0,
        no_energy().cost_pln.bits == 0 && no_energy().inference_cost_pln.bits == 0,
{
}

/// Telemetry is there for three seconds after a poll that gave any, and what went wrong
/// with saving is shown before what went wrong with loading.
pub proof fn law_state_is_shown(e: Energy, now: Moment)
    ensures
        e.last_valid_power_instant is None ==> !is_available(e, now),
        e.last_valid_power_instant is Some ==> is_available(e, now) == (
        e.last_valid_power_instant->0.nanos <= now.nanos && now.nanos
            <= e.last_valid_power_instant->0.nanos + 3_000_000_000),
        e.save_warning is Some ==> shown_warning(e) == e.save_warning,
        e.save_warning is None ==> shown_warning(e) == e.load_warning,
{
}

/// Settings take effect: price and threshold are the new ones, and the time of the
/// change is noted where the price is another one. Nothing else changes.
pub proof fn law_settings_take_effect(
    e: Energy,
    price: Binary64,
    threshold: Binary32,
    now: LocalTime,
)
    ensures
        ({
            let after = with_settings(e, price, threshold, now);
            &&& after == (Energy {
                price_per_kwh: price,
                price_changed_at: after.price_changed_at,
                inference_util_threshold: threshold,
                ..e
            })
            &&& e.price_per_kwh.equals(price) ==> after.price_changed_at == e.price_changed_at
            &&& !e.price_per_kwh.equals(price) ==> after.price_changed_at == now
        }),
        is_price(price) == (price.finite() && price.rank() >= 0),
        is_threshold(threshold) == (threshold.finite() && (Binary32 { bits: 0 }).at_most(threshold)
            && threshold.at_most(Binary32::of(100))),
{
}

/// A reset forgets all measurements and nothing else.
pub proof fn law_reset_keeps_the_settings(e: Energy)
    ensures
        forgotten(e) == (Energy {
            ingest_enabled: e.ingest_enabled,
            load_warning: e.load_warning,
            save_warning: e.save_warning,
            price_per_kwh: e.price_per_kwh,
            inference_util_threshold: e.inference_util_threshold,
            ..new_energy(e.price_changed_at)
        }),
        forall|now: LocalTime|
            {
                &&& (#[trigger] new_energy(now)).ingest_enabled
                &&& new_energy(now).load_warning is None && new_energy(now).save_warning is None
                &&& new_energy(now).price_per_kwh == Binary64::of(1)
                &&& new_energy(now).price_changed_at == now
                &&& new_energy(now).inference_util_threshold == Binary32::of(20)
                &&& new_energy(now).session == no_energy()
                &&& new_energy(now).lifetime == no_energy()
                &&& new_energy(now).daily == Map::<int, EnergyTotals>::empty()
                &&& new_energy(now).bases == Map::<Seq<char>, GpuBase>::empty()
                &&& new_energy(now).last_valid_power_instant is None
                &&& new_energy(now).first_measurement_at is None
                &&& new_energy(now).last_measurement_at is None
            },
{
}

proof fn lemma_saved_days(entries: Seq<(i32, EnergyTotals)>, cutoff: Option<int>)
    requires
        is_ordered(entries),
    ensures
        ({
            let saved = saved_days(entries, cutoff);
            &&& forall|i: int, j: int|
                0 <= i < j < saved.len() ==> (#[trigger] saved[i]).day < (#[trigger] saved[j]).day
            &&& forall|i: int|
                0 <= i < saved.len() ==> exists|j: int|
                    0 <= j < entries.len() && (#[trigger] entries[j]) == (
                        (#[trigger] saved[i]).day,
                        saved[i].totals,
                    )
        }),
    decreases entries.len(),
{
    if entries.len() > 0 {
        let n = entries.len() - 1;
        let front = entries.drop_last();
        assert(entries.take(n) =~= front);
        lemma_part_is_ordered(entries, 0, n);
        lemma_saved_days(front, cutoff);
        let before = saved_days(front, cutoff);
        let saved = saved_days(entries, cutoff);
        assert forall|i: int| 0 <= i < saved.len() implies exists|j: int|
            0 <= j < entries.len() && (#[trigger] entries[j]) == (
                (#[trigger] saved[i]).day,
                saved[i].totals,
            ) by {
            if i < before.len() {
                let j = choose|j: int|
                    0 <= j < front.len() && (#[trigger] front[j]) == (
                        before[i].day,
                        before[i].totals,
                    );
                assert(entries[j] == front[j]);
            } else {
                assert(entries[n] == (saved[i].day, saved[i].totals));
            }
        }
        assert forall|i: int, j: int| 0 <= i < j < saved.len() implies (#[trigger] saved[i]).day < (
        #[trigger] saved[j]).day by {
            if j == before.len() {
                let k = choose|k: int|
                    0 <= k < front.len() && (#[trigger] front[k]) == (
                        before[i].day,
                        before[i].totals,
                    );
                assert(entries[k] == front[k]);
                assert(entries[n] == entries.last());
            }
        }
    }
}

/// What is saved lists the days in their order, each once.
pub proof fn law_saved_days_stand_in_order(
    e: EnergyState,
    store: EnergyStore,
    now: LocalTime,
    i: int,
    j: int,
)
    requires
        e.wf(),
        is_store_of(store, e, now),
        0 <= i < j < store.daily@.len(),
    ensures
        store.daily@[i].day < store.daily@[j].day,
{
    lemma_saved_days(e.daily.entries@, earlier(now.day, KEPT_DAYS as nat));
}

/// Every saved day is loaded, with the totals that stand last under it, and no other day
/// is.
pub proof fn law_every_saved_day_is_loaded(daily: Seq<DailyEnergy>, i: int)
    ensures
        0 <= i < daily.len() ==> days_map(daily).dom().contains(daily[i].day as int),
        0 <= i < daily.len() && (forall|j: int|
            i < j < daily.len() ==> (#[trigger] daily[j]).day != daily[i].day) ==> days_map(
            daily,
        )[daily[i].day as int] == daily[i].totals,
        forall|day: int| #[trigger]
            days_map(daily).dom().contains(day) ==> exists|k: int|
                0 <= k < daily.len() && (#[trigger] daily[k]).day == day,
    decreases daily.len(),
{
    if daily.len() > 0 {
        let front = daily.drop_last();
        let n = front.len() as int;
        assert(daily[n] == daily.last());
        law_every_saved_day_is_loaded(front, i);
        if 0 <= i < n && (forall|j: int|
            i < j < daily.len() ==> (#[trigger] daily[j]).day != daily[i].day) {
            assert(daily[n].day != daily[i].day);
            assert forall|j: int| i < j < front.len() implies (#[trigger] front[j]).day
                != front[i].day by {
                assert(daily[j].day != daily[i].day);
            }
        }
        assert forall|day: int| #[trigger] days_map(daily).dom().contains(day) implies exists|k: int|
            0 <= k < daily.len() && (#[trigger] daily[k]).day == day by {
            if days_map(front).dom().contains(day) {
                let k = choose|k: int| 0 <= k < front.len() && (#[trigger] front[k]).day == day;
                assert(daily[k].day == day);
            }
        }
    }
}

/// The number of an attempt is written in the decimal system.
pub proof fn law_attempts_are_numbered(n: nat)
    ensures
        crate::text::all_digits(decimal_digits(n)),
        decimal_value(decimal_digits(n)) == n,
        n > 0 ==> decimal_digits(n)[0] != '0',
        decimal_digits(n).len() > 0,
    decreases n,
{
    let c = (n % 10 + '0' as nat) as char;
    let none = Seq::<char>::empty();
    if n < 10 {
        assert(decimal_digits(n) =~= none.push(c));
        law_digits_write_a_number(none, c);
    } else {
        law_attempts_are_numbered(n / 10);
        law_digits_write_a_number(decimal_digits(n / 10), c);
    }
}

/// The first attempt to put a history aside takes the name of the file with the time
/// behind it, and a later one appends its number.
pub proof fn law_backup_names_tell_the_attempt(
    file: Seq<char>,
    timestamp: Seq<char>,
    attempt: nat,
)
    ensures
        aside_name(file, timestamp, 0) == file + ".corrupt-"@ + timestamp,
        attempt > 0 ==> aside_name(file, timestamp, attempt) == aside_name(file, timestamp, 0)
            + "-"@ + decimal_digits(attempt),
{
}

/// A history that cannot be used is told apart from a missing one, with what is wrong
/// with it.
pub proof fn law_unusable_histories_are_told(reason: String, store: EnergyStore)
    ensures
        history_problem(SavedHistory::Missing) is None,
        history_problem(SavedHistory::Unreadable(reason)) == Some(
            "Energy history could not be read: "@ + reason@,
        ),
        history_problem(SavedHistory::Corrupt(reason)) == Some(
            "Energy history is corrupt: "@ + reason@,
        ),
        (history_problem(SavedHistory::Parsed(store)) is None) == (store.schema_version == 1),
        loaded(store).session == no_energy() && loaded(store).ingest_enabled,
        loaded(store).lifetime == store.lifetime,
        loaded(store).price_per_kwh == store.price_per_kwh,
        loaded(store).price_changed_at == store.price_changed_at,
        loaded(store).inference_util_threshold == store.inference_util_threshold,
        loaded(store).first_measurement_at == store.first_measurement_at,
        loaded(store).last_measurement_at == store.last_measurement_at,
        loaded(store).bases == Map::<Seq<char>, GpuBase>::empty(),
        loaded(store).last_valid_power_instant is None,
{
}

/// The history has its place in the state directory, or else in that of the home
/// directory, or else in the current one.
pub proof fn law_history_has_its_place(state: Seq<u8>, home: Option<Seq<u8>>, at: Seq<u8>)
    ensures
        history_path(Some(state), home) == joined(
            joined(state, encode_utf8("llama-monitor"@)),
            encode_utf8("energy.json"@),
        ),
        history_path(None, Some(at)) == history_path(
            Some(joined(at, encode_utf8(".local/state"@))),
            home,
        ),
        history_path(None, None) == history_path(Some(encode_utf8("."@)), home),
{
}

} // verus!
