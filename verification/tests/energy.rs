use chrono::{Datelike, Days, NaiveDate};
use llama_monitor::binary::{Binary32, Binary64};
use llama_monitor::clock::{LocalTime, Moment, FIRST_DAY, LAST_DAY};
use llama_monitor::energy::{
    backup_name, backup_warning, default_energy_path, energy_path, load_energy_state,
    next_backup_step, BackupOutcome, BackupStep, BusyFlags, EnergyState, EnergyTotals,
    GpuPowerSample, SavedHistory, AVAILABILITY_WINDOW, KWH_DIVISOR, MAX_SAMPLE_GAP,
};
use llama_monitor::gpu::{GpuMetrics, GpuReadings};
use llama_monitor::state::power_samples;
use llama_monitor::table::Table;

fn start() -> Moment {
    Moment { nanos: 50_000_000_000 }
}

fn plus(millis: u64) -> Moment {
    Moment { nanos: start().nanos + millis * 1_000_000 }
}

fn on_day(day: i32) -> LocalTime {
    LocalTime {
        unix_secs: (i64::from(day) - 719_163) * 86_400 + 36_000,
        nanos: 0,
        offset_secs: 7_200,
        day,
    }
}

fn today() -> i32 {
    NaiveDate::from_ymd_opt(2026, 7, 22).unwrap().num_days_from_ce()
}

fn noon() -> LocalTime {
    on_day(today())
}

fn num(x: Binary64) -> f64 {
    f64::from_bits(x.to_bits())
}

fn bin(x: f64) -> Binary64 {
    Binary64::from_bits(x.to_bits())
}

fn bin32(x: f32) -> Binary32 {
    Binary32::from_bits(x.to_bits())
}

fn sample(id: &str, power: f32, util: f32) -> GpuPowerSample {
    GpuPowerSample {
        id: id.to_string(),
        power_w: bin32(power),
        utilization: bin32(util),
    }
}

fn idle_busy() -> BusyFlags {
    BusyFlags {
        requests_processing: 0,
        slots_processing: 0,
        health_ok: true,
    }
}

fn lifetime(e: &EnergyState) -> f64 {
    num(e.snapshot(start(), noon()).lifetime.energy_kwh)
}

#[test]
fn trapezoid_single_gpu_500ms() {
    let mut e = EnergyState::new_default();
    e.apply_settings(bin(1.0), bin32(20.0)).unwrap();
    e.ingest(&[sample("0", 100.0, 0.0)], idle_busy(), start(), noon());
    e.ingest(&[sample("0", 100.0, 0.0)], idle_busy(), plus(500), noon());
    let s = e.snapshot(plus(500), noon());
    let expected = 100.0_f64 * 0.5 / 3_600_000.0;
    assert!((num(s.lifetime.energy_kwh) - expected).abs() < 1e-12);
    assert!((num(s.lifetime.cost_pln) - expected * 1.0).abs() < 1e-12);
    assert_eq!(num(s.lifetime.inference_energy_kwh), 0.0);
    assert_eq!(num(s.lifetime.energy_kwh), expected);
}

#[test]
fn first_sample_adds_no_energy() {
    let mut e = EnergyState::new_default();
    e.ingest(&[sample("0", 200.0, 50.0)], idle_busy(), start(), noon());
    assert_eq!(lifetime(&e), 0.0);
}

#[test]
fn gap_over_5s_resets_base_no_energy() {
    let mut e = EnergyState::new_default();
    e.ingest(&[sample("0", 100.0, 0.0)], idle_busy(), start(), noon());
    e.ingest(&[sample("0", 100.0, 0.0)], idle_busy(), plus(6_000), noon());
    assert_eq!(lifetime(&e), 0.0);
    e.ingest(&[sample("0", 100.0, 0.0)], idle_busy(), plus(6_500), noon());
    let expected = 100.0_f64 * 0.5 / 3_600_000.0;
    assert!((lifetime(&e) - expected).abs() < 1e-12);
}

#[test]
fn gap_of_exactly_the_limit_counts() {
    let mut e = EnergyState::new_default();
    e.ingest(&[sample("0", 100.0, 0.0)], idle_busy(), start(), noon());
    let at_limit = Moment { nanos: start().nanos + MAX_SAMPLE_GAP };
    e.ingest(&[sample("0", 300.0, 0.0)], idle_busy(), at_limit, noon());
    assert_eq!(lifetime(&e), (100.0 + 300.0) * 0.5 * 5.0 / 3_600_000.0);
}

#[test]
fn one_gpu_missing_does_not_block_other() {
    let mut e = EnergyState::new_default();
    e.ingest(
        &[sample("0", 100.0, 0.0), sample("1", 50.0, 0.0)],
        idle_busy(),
        start(),
        noon(),
    );
    e.ingest(&[sample("0", 100.0, 0.0)], idle_busy(), plus(500), noon());
    let expected = 100.0_f64 * 0.5 / 3_600_000.0;
    assert!((lifetime(&e) - expected).abs() < 1e-12);
}

#[test]
fn a_card_that_was_missing_starts_anew() {
    let mut e = EnergyState::new_default();
    e.ingest(&[sample("0", 100.0, 0.0)], idle_busy(), start(), noon());
    e.ingest(&[], idle_busy(), plus(500), noon());
    e.ingest(&[sample("0", 100.0, 0.0)], idle_busy(), plus(1_000), noon());
    assert_eq!(lifetime(&e), 0.0);
}

#[test]
fn invalid_power_counts_as_no_reading() {
    let mut e = EnergyState::new_default();
    e.ingest(&[sample("0", 100.0, 0.0)], idle_busy(), start(), noon());
    e.ingest(&[sample("0", f32::NAN, 0.0)], idle_busy(), plus(500), noon());
    e.ingest(&[sample("0", -1.0, 0.0)], idle_busy(), plus(600), noon());
    e.ingest(&[sample("0", 100.0, 0.0)], idle_busy(), plus(1_000), noon());
    assert_eq!(lifetime(&e), 0.0);
}

#[test]
fn inference_when_requests_processing() {
    let mut e = EnergyState::new_default();
    let busy = BusyFlags {
        requests_processing: 1,
        slots_processing: 0,
        health_ok: true,
    };
    e.ingest(&[sample("0", 100.0, 0.0)], busy, start(), noon());
    e.ingest(&[sample("0", 100.0, 0.0)], busy, plus(500), noon());
    let s = e.snapshot(start(), noon());
    assert!(num(s.lifetime.inference_energy_kwh) > 0.0);
    assert_eq!(s.lifetime.inference_energy_kwh, s.lifetime.energy_kwh);
}

#[test]
fn prune_drops_daily_buckets_older_than_30_calendar_days() {
    let mut e = EnergyState::new_default();
    let old_local = on_day(today() - 35);
    let today_local = noon();
    e.ingest(&[sample("0", 100.0, 0.0)], idle_busy(), start(), old_local);
    e.ingest(&[sample("0", 100.0, 0.0)], idle_busy(), plus(500), old_local);
    assert!(num(e.snapshot(start(), old_local).today.energy_kwh) > 0.0);

    e.ingest(&[sample("0", 100.0, 0.0)], idle_busy(), start(), today_local);
    e.ingest(&[sample("0", 100.0, 0.0)], idle_busy(), plus(500), today_local);

    assert_eq!(num(e.snapshot(start(), old_local).today.energy_kwh), 0.0);
    assert!(num(e.snapshot(start(), today_local).today.energy_kwh) > 0.0);
}

#[test]
fn prune_drops_old_daily_buckets_on_zero_energy_ingest() {
    let mut e = EnergyState::new_default();
    let old_local = on_day(today() - 35);
    let today_local = noon();
    e.ingest(&[sample("0", 100.0, 0.0)], idle_busy(), start(), old_local);
    e.ingest(&[sample("0", 100.0, 0.0)], idle_busy(), plus(500), old_local);
    assert!(num(e.snapshot(start(), old_local).today.energy_kwh) > 0.0);

    let lifetime_before = num(e.snapshot(start(), today_local).lifetime.energy_kwh);
    assert!(lifetime_before > 0.0);

    e.ingest(&[sample("0", 100.0, 0.0)], idle_busy(), start(), today_local);
    let snap = e.snapshot(start(), today_local);
    assert_eq!(num(snap.lifetime.energy_kwh), lifetime_before);
    assert_eq!(num(snap.today.energy_kwh), 0.0);
    assert_eq!(num(e.snapshot(start(), old_local).today.energy_kwh), 0.0);
}

#[test]
fn thirty_days_are_kept_and_seven_are_shown() {
    let mut e = EnergyState::new_at(noon());
    let mut at = 0;
    for day in [today() - 29, today() - 6, today()] {
        e.ingest(&[sample("0", 100.0, 0.0)], idle_busy(), plus(at), on_day(day));
        e.ingest(&[sample("0", 100.0, 0.0)], idle_busy(), plus(at + 500), on_day(day));
        at += 60_000;
    }
    let once = 100.0_f64 * 0.5 / 3_600_000.0;
    let s = e.snapshot(start(), noon());
    assert_eq!(num(s.today.energy_kwh), once);
    assert_eq!(num(s.last_7_days.energy_kwh), once + once);
    assert_eq!(num(s.lifetime.energy_kwh), once + once + once);
    let oldest = e.snapshot(start(), on_day(today() - 29));
    assert_eq!(num(oldest.today.energy_kwh), once);
    e.ingest(&[], idle_busy(), plus(at), on_day(today() + 1));
    let gone = e.snapshot(start(), on_day(today() - 29));
    assert_eq!(num(gone.today.energy_kwh), 0.0);
}

#[test]
fn util_fallback_any_gpu_not_average() {
    let mut e = EnergyState::new_default();
    e.apply_settings(bin(1.0), bin32(20.0)).unwrap();
    let busy = idle_busy();
    let cards = [sample("0", 100.0, 80.0), sample("1", 10.0, 0.0)];
    e.ingest(&cards, busy, start(), noon());
    e.ingest(&cards, busy, plus(500), noon());
    assert!(num(e.snapshot(start(), noon()).lifetime.inference_energy_kwh) > 0.0);
}

#[test]
fn utilization_counts_only_of_a_healthy_server() {
    let mut e = EnergyState::new_default();
    let sick = BusyFlags { health_ok: false, ..idle_busy() };
    e.ingest(&[sample("0", 100.0, 80.0)], sick, start(), noon());
    e.ingest(&[sample("0", 100.0, 80.0)], sick, plus(500), noon());
    let s = e.snapshot(start(), noon());
    assert_eq!(num(s.lifetime.inference_energy_kwh), 0.0);
    assert!(num(s.lifetime.energy_kwh) > 0.0);
}

#[test]
fn lifetime_survives_save_reload() {
    let mut e = EnergyState::new_default();
    e.ingest(&[sample("0", 100.0, 0.0)], idle_busy(), start(), noon());
    e.ingest(&[sample("0", 100.0, 0.0)], idle_busy(), plus(500), noon());
    let expected = 100.0_f64 * 0.5 / KWH_DIVISOR as f64;
    let (e2, warning) = load_energy_state(SavedHistory::Parsed(e.persistable_store()), noon());
    assert!(warning.is_none());
    assert!((lifetime(&e2) - expected).abs() < 1e-12);
}

#[test]
fn tariff_change_does_not_reprice_history() {
    let mut e = EnergyState::new_default();
    e.apply_settings(bin(1.20), bin32(20.0)).unwrap();
    e.ingest(&[sample("0", 100.0, 0.0)], idle_busy(), start(), noon());
    e.ingest(&[sample("0", 100.0, 0.0)], idle_busy(), plus(500), noon());
    let first_delta = 100.0_f64 * 0.5 / KWH_DIVISOR as f64;
    let cost_before = num(e.snapshot(start(), noon()).lifetime.cost_pln);

    e.apply_settings(bin(1.40), bin32(20.0)).unwrap();
    let cost_after = num(e.snapshot(start(), noon()).lifetime.cost_pln);
    assert!((cost_after - cost_before).abs() < 1e-12);
    e.ingest(&[sample("0", 100.0, 0.0)], idle_busy(), plus(1_000), noon());

    let expected_cost = first_delta * 1.20 + first_delta * 1.40;
    let cost = num(e.snapshot(start(), noon()).lifetime.cost_pln);
    assert!((cost - expected_cost).abs() < 1e-12);
}

#[test]
fn settings_validation_rejects_invalid_values_without_mutation() {
    let mut e = EnergyState::new_default();
    assert!(e.apply_settings(bin(f64::NAN), bin32(20.0)).is_err());
    assert!(e.apply_settings(bin(-0.01), bin32(20.0)).is_err());
    assert!(e.apply_settings(bin(1.0), bin32(f32::INFINITY)).is_err());
    assert!(e.apply_settings(bin(1.0), bin32(100.01)).is_err());

    let snapshot = e.snapshot(start(), noon());
    assert_eq!(num(snapshot.price_per_kwh), 1.0);
    assert_eq!(snapshot.inference_util_threshold, bin32(20.0));
}

#[test]
fn refused_settings_say_why() {
    let mut e = EnergyState::new_at(noon());
    assert_eq!(
        e.apply_settings_at(bin(f64::INFINITY), bin32(200.0), noon()),
        Err("Price per kWh must be finite and non-negative".to_string())
    );
    assert_eq!(
        e.apply_settings_at(bin(0.5), bin32(-0.5), noon()),
        Err("Inference utilization threshold must be between 0 and 100".to_string())
    );
    assert_eq!(e.apply_settings_at(bin(0.0), bin32(100.0), on_day(today() + 1)), Ok(()));
    assert_eq!(e.price_changed_at, on_day(today() + 1));
}

#[test]
fn snapshot_of_a_new_state() {
    let s = EnergyState::new_default().snapshot(start(), noon());
    assert!(!s.available);
    assert!(s.telemetry_stale);
    assert_eq!(s.currency, "PLN");
    assert_eq!(s.timezone_label, "+02:00");
    assert_eq!(s.session, EnergyTotals::default());
    assert_eq!(s.first_measurement_at, None);
    assert_eq!(s.last_measurement_at, None);
    assert_eq!(s.save_warning, None);
}

#[test]
fn time_zone_labels_are_those_of_chrono() {
    let e = EnergyState::new_at(noon());
    for offset in [0, 3_600, -12_600, 20_700, 86_399, -86_399, 1, -1] {
        let local = LocalTime { offset_secs: offset, ..noon() };
        let label = e.snapshot(start(), local).timezone_label;
        assert_eq!(label, chrono::FixedOffset::east_opt(offset).unwrap().to_string());
    }
}

#[test]
fn days_reach_as_far_as_chrono_dates() {
    assert_eq!(NaiveDate::MIN.num_days_from_ce(), FIRST_DAY);
    assert_eq!(NaiveDate::MAX.num_days_from_ce(), LAST_DAY);
    let mut e = EnergyState::new_at(on_day(FIRST_DAY));
    e.ingest(&[sample("0", 100.0, 0.0)], idle_busy(), start(), on_day(FIRST_DAY));
    e.ingest(&[sample("0", 100.0, 0.0)], idle_busy(), plus(500), on_day(FIRST_DAY));
    let s = e.snapshot(start(), on_day(FIRST_DAY + 6));
    assert!(num(s.last_7_days.energy_kwh) > 0.0);
    let later = e.snapshot(start(), on_day(FIRST_DAY + 7));
    assert_eq!(num(later.last_7_days.energy_kwh), 0.0);
    assert_eq!(NaiveDate::MIN.checked_sub_days(Days::new(1)), None);
}

#[test]
fn telemetry_goes_stale() {
    let mut e = EnergyState::new_at(noon());
    e.ingest(&[sample("0", 1.0, 0.0)], idle_busy(), start(), noon());
    let at_limit = Moment { nanos: start().nanos + AVAILABILITY_WINDOW };
    assert!(e.snapshot(at_limit, noon()).available);
    let past_limit = Moment { nanos: at_limit.nanos + 1 };
    assert!(!e.snapshot(past_limit, noon()).available);
    assert_eq!(e.snapshot(start(), noon()).first_measurement_at, Some(noon()));
}

#[test]
fn threshold_change_does_not_update_price_changed_at() {
    let mut e = EnergyState::new_default();
    let changed_at = e.persistable_store().price_changed_at;
    e.apply_settings(bin(1.0), bin32(30.0)).unwrap();
    assert_eq!(e.persistable_store().price_changed_at, changed_at);
}

#[test]
fn reset_clears_bases_next_sample_no_energy() {
    let mut e = EnergyState::new_default();
    e.ingest(&[sample("0", 100.0, 0.0)], idle_busy(), start(), noon());
    e.ingest(&[sample("0", 100.0, 0.0)], idle_busy(), plus(500), noon());
    assert!(lifetime(&e) > 0.0);

    e.reset_lifetime();

    let reset = e.snapshot(start(), noon());
    assert_eq!(num(reset.lifetime.energy_kwh), 0.0);
    assert_eq!(num(reset.session.energy_kwh), 0.0);
    assert!(!reset.available);
    e.ingest(&[sample("0", 100.0, 0.0)], idle_busy(), plus(1_000), noon());
    assert_eq!(lifetime(&e), 0.0);
}

#[test]
fn disabled_ingest_does_not_accept_samples() {
    let mut energy = EnergyState::new_default();
    energy.set_ingest_enabled(false);
    energy.ingest(&[sample("0", 100.0, 50.0)], idle_busy(), start(), noon());
    let snapshot = energy.snapshot(start(), noon());
    assert!(!snapshot.available);
    assert!(snapshot.first_measurement_at.is_none());
}

#[test]
fn persistable_store_is_independent_of_later_ingest() {
    let mut energy = EnergyState::new_default();
    let store = energy.persistable_store();
    energy.ingest(&[sample("0", 100.0, 0.0)], idle_busy(), start(), noon());
    energy.ingest(&[sample("0", 100.0, 0.0)], idle_busy(), plus(500), noon());
    let (loaded, warning) = load_energy_state(SavedHistory::Parsed(store), noon());
    assert!(warning.is_none());
    assert_eq!(lifetime(&loaded), 0.0);
    assert!(lifetime(&energy) > 0.0);
}

#[test]
fn saved_history_holds_the_days_that_are_kept() {
    let mut e = EnergyState::new_at(noon());
    e.ingest(&[sample("0", 100.0, 0.0)], idle_busy(), start(), noon());
    e.ingest(&[sample("0", 100.0, 0.0)], idle_busy(), plus(500), noon());
    let store = e.store_at(noon());
    assert_eq!(store.schema_version, 1);
    assert_eq!(store.currency, "PLN");
    assert_eq!(store.timezone_label, "+02:00");
    assert_eq!(store.daily.len(), 1);
    assert_eq!(store.daily[0].day, today());
    let back = EnergyState::from_store(&store);
    assert_eq!(back.snapshot(start(), noon()).today, e.snapshot(start(), noon()).today);
    assert_eq!(back.snapshot(start(), noon()).session, EnergyTotals::default());
    assert!(e.store_at(on_day(today() + 30)).daily.is_empty());
}

#[test]
fn unusable_histories_start_afresh() {
    let (fresh, none) = load_energy_state(SavedHistory::Missing, noon());
    assert_eq!(none, None);
    assert_eq!(lifetime(&fresh), 0.0);
    let (_, unreadable) = load_energy_state(SavedHistory::Unreadable("denied".into()), noon());
    assert_eq!(unreadable.unwrap(), "Energy history could not be read: denied");
    let (_, corrupt) = load_energy_state(SavedHistory::Corrupt("bad".into()), noon());
    assert_eq!(corrupt.unwrap(), "Energy history is corrupt: bad");
    let mut store = fresh.store_at(noon());
    store.schema_version = 2;
    let (_, newer) = load_energy_state(SavedHistory::Parsed(store), noon());
    assert_eq!(newer.unwrap(), "Energy history has an unsupported schema");
}

#[test]
fn put_aside_histories_have_names_of_their_own() {
    assert_eq!(backup_name("energy.json", "fixed", 0), "energy.json.corrupt-fixed");
    assert_eq!(backup_name("energy.json", "fixed", 1), "energy.json.corrupt-fixed-1");
    assert_eq!(backup_name("e", "t", 1203), "e.corrupt-t-1203");
    assert!(backup_warning("corrupt", None).contains("backup was created"));
    assert_eq!(
        backup_warning("corrupt", Some("denied")),
        "corrupt; the original file was preserved: denied"
    );
}

#[test]
fn warnings_are_shown_until_the_next() {
    let mut e = EnergyState::new_at(noon());
    e.set_load_warning(Some("load".to_string()));
    assert_eq!(e.snapshot(start(), noon()).save_warning.as_deref(), Some("load"));
    e.set_save_warning(Some("save".to_string()));
    assert_eq!(e.snapshot(start(), noon()).save_warning.as_deref(), Some("save"));
    e.set_save_warning(None);
    assert_eq!(e.snapshot(start(), noon()).save_warning.as_deref(), Some("load"));
}

#[test]
fn history_has_its_place() {
    let state = Some(b"/s".to_vec());
    let home = Some(b"/h".to_vec());
    assert_eq!(energy_path(&state, &home), b"/s/llama-monitor/energy.json");
    assert_eq!(energy_path(&None, &home), b"/h/.local/state/llama-monitor/energy.json");
    assert_eq!(energy_path(&None, &None), b"./llama-monitor/energy.json");
    assert_eq!(
        energy_path(&Some(b"/s\xff".to_vec()), &None),
        b"/s\xff/llama-monitor/energy.json"
    );
    let state = dirs::state_dir().map(|p| p.into_os_string().into_encoded_bytes());
    let home = dirs::home_dir().map(|p| p.into_os_string().into_encoded_bytes());
    assert_eq!(default_energy_path(), energy_path(&state, &home));
}

#[test]
fn machine_time_marks_new_states() {
    let before = chrono::Local::now();
    let state = EnergyState::new_default();
    let after = chrono::Local::now();
    let changed = state.price_changed_at;
    assert!(before.timestamp() <= changed.unix_secs && changed.unix_secs <= after.timestamp());
    assert_eq!(changed.offset_secs, before.offset().local_minus_utc());
    let day = changed.day;
    assert!(day == before.num_days_from_ce() || day == after.num_days_from_ce());
}

#[test]
fn a_card_without_a_power_reading_is_sampled_for_its_use() {
    let mut readings: GpuReadings = Table::new();
    readings.insert("b".to_string(), GpuMetrics { load: 90, ..GpuMetrics::default() });
    readings.insert(
        "a".to_string(),
        GpuMetrics { load: 55, power_consumption: Some(bin32(12.5)), ..GpuMetrics::default() },
    );
    let samples = power_samples(&readings);
    assert_eq!(samples.len(), 2);
    assert_eq!(samples[0].id, "a");
    assert_eq!(samples[0].power_w, bin32(12.5));
    assert_eq!(samples[0].utilization, bin32(55.0));
    assert_eq!(samples[1].id, "b");
    assert!(f32::from_bits(samples[1].power_w.to_bits()).is_nan());
    assert_eq!(samples[1].utilization, bin32(90.0));
    let mut e = EnergyState::new_at(noon());
    e.apply_settings_at(bin(1.0), bin32(80.0), noon()).unwrap();
    e.ingest(&samples, idle_busy(), start(), noon());
    e.ingest(&samples, idle_busy(), plus(1_000), noon());
    let total = e.snapshot(plus(1_000), noon()).lifetime;
    assert_eq!(num(total.energy_kwh), 12.5 / 3_600_000.0);
    assert_eq!(total.inference_energy_kwh, total.energy_kwh);
}

#[test]
fn totals_grow_and_inference_stays_within_them() {
    let mut e = EnergyState::new_at(noon());
    e.apply_settings_at(bin(0.8), bin32(20.0), noon()).unwrap();
    let mut before = e.snapshot(start(), noon()).lifetime;
    for (at, load) in [(0, 0.0), (400, 90.0), (900, 0.0), (1_700, 50.0)] {
        e.ingest(&[sample("0", 123.4, load)], idle_busy(), plus(at), noon());
        let after = e.snapshot(start(), noon()).lifetime;
        assert!(num(before.energy_kwh) <= num(after.energy_kwh));
        assert!(num(before.cost_pln) <= num(after.cost_pln));
        assert!(num(after.inference_energy_kwh) <= num(after.energy_kwh));
        assert!(num(after.inference_cost_pln) <= num(after.cost_pln));
        before = after;
    }
    assert!(num(before.inference_energy_kwh) > 0.0);
    assert!(num(before.inference_energy_kwh) < num(before.energy_kwh));
}

#[test]
fn a_wall_clock_that_is_set_changes_no_energy() {
    let mut steady = EnergyState::new_at(noon());
    let mut jumpy = EnergyState::new_at(noon());
    for (at, day) in [(0, 0), (500, -3), (1_000, 9)] {
        steady.ingest(&[sample("0", 50.0, 0.0)], idle_busy(), plus(at), noon());
        jumpy.ingest(&[sample("0", 50.0, 0.0)], idle_busy(), plus(at), on_day(today() + day));
    }
    assert_eq!(lifetime(&steady), lifetime(&jumpy));
}

#[test]
fn a_restart_charges_nothing_for_the_time_in_between() {
    let mut e = EnergyState::new_at(noon());
    e.ingest(&[sample("0", 100.0, 0.0)], idle_busy(), start(), noon());
    e.ingest(&[sample("0", 100.0, 0.0)], idle_busy(), plus(500), noon());
    let mut back = EnergyState::from_store(&e.store_at(noon()));
    back.ingest(&[sample("0", 100.0, 0.0)], idle_busy(), plus(600), noon());
    assert_eq!(lifetime(&back), lifetime(&e));
}

#[test]
fn a_taken_backup_name_is_never_used() {
    let taken = ["energy.json.corrupt-fixed", "energy.json.corrupt-fixed-1"];
    let mut attempt = 0;
    loop {
        let name = backup_name("energy.json", "fixed", attempt);
        let outcome = if taken.contains(&name.as_str()) {
            BackupOutcome::Exists
        } else {
            BackupOutcome::Created
        };
        match next_backup_step(attempt, outcome) {
            BackupStep::Retry(next) => attempt = next,
            step => {
                assert_eq!(step, BackupStep::Copy);
                break;
            }
        }
    }
    assert_eq!(backup_name("energy.json", "fixed", attempt), "energy.json.corrupt-fixed-2");
    assert_eq!(next_backup_step(5, BackupOutcome::Failed), BackupStep::GiveUp);
    assert_eq!(next_backup_step(u32::MAX, BackupOutcome::Exists), BackupStep::Exhausted);
}

#[test]
fn every_day_keeps_its_totals_in_order() {
    let mut e = EnergyState::new_at(noon());
    e.apply_settings(bin(0.0), bin32(20.0)).unwrap();
    let mut at = 0;
    for step in 0..8u32 {
        let busy = BusyFlags { requests_processing: step % 2, ..idle_busy() };
        let local = on_day(today() + (step / 3) as i32);
        let before = e.daily.get(&local.day).copied();
        e.ingest(&[sample("0", f32::MAX, 0.0), sample("1", 9.0, 0.0)], busy, plus(at), local);
        if let (Some(before), Some(after)) = (before, e.daily.get(&local.day)) {
            assert!(num(after.energy_kwh) >= num(before.energy_kwh));
            if step % 2 == 0 {
                assert_eq!(after.inference_energy_kwh, before.inference_energy_kwh);
            }
        }
        at += 4_000;
    }
    assert_eq!(e.daily.entries.len(), 3);
    for (_, day) in &e.daily.entries {
        assert!(num(day.energy_kwh).is_finite());
        assert!(num(day.inference_energy_kwh) <= num(day.energy_kwh));
        assert!(num(day.inference_cost_pln) <= num(day.cost_pln));
        assert_eq!(num(day.cost_pln), 0.0);
    }
}

#[test]
fn a_card_without_a_base_leaves_the_others_alone() {
    let alone = {
        let mut e = EnergyState::new_at(noon());
        e.ingest(&[sample("0", 100.0, 0.0)], idle_busy(), start(), noon());
        e.ingest(&[sample("0", 100.0, 0.0)], idle_busy(), plus(500), noon());
        lifetime(&e)
    };
    for other in [300.0, f32::NAN, f32::INFINITY, -1.0] {
        let mut e = EnergyState::new_at(noon());
        e.ingest(&[sample("0", 100.0, 0.0)], idle_busy(), start(), noon());
        let both = [sample("1", other, 0.0), sample("0", 100.0, 0.0)];
        e.ingest(&both, idle_busy(), plus(500), noon());
        assert_eq!(lifetime(&e), alone);
        assert_eq!(num(e.daily.entries[0].1.energy_kwh), alone);
    }
}
