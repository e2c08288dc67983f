use llama_monitor::binary::{Binary32, Binary64};
use llama_monitor::clock::{LocalTime, Moment};
use llama_monitor::energy::{BusyFlags, EnergyState, GpuPowerSample};
use llama_monitor::gpu::amdgpu::{
    amdgpu_sysfs_available, apply_device_filter, bytes_to_mib, classify_temp_label,
    collect_readings, discover_amd_gpus, freq_to_mhz, is_drm_card_name, is_pci_bdf,
    millidegrees_to_celsius, parse_busy_percent, parse_device_filter, parse_hex_id,
    parse_mhz_token, parse_pp_dpm_mhz, parse_u32, parse_u64, power_to_watts, read_labeled_freq,
    read_metrics_for, sensor_file_name, AmdgpuBackend, DrmEntry, Folder, OnceKindLog,
    RepeatErrorLimiter, TempKind,
};
use llama_monitor::gpu::{
    apply_gpu_poll_result, auto_backends, canonicalize_gpu_backend, copy_readings, forced_backend,
    merge_readings, BackendKind, GpuMetrics, GpuReadings, PowerKind,
};
use llama_monitor::table::Table;

fn bin(x: f64) -> Binary64 {
    Binary64::from_bits(x.to_bits())
}

fn bin32(x: f32) -> Binary32 {
    Binary32::from_bits(x.to_bits())
}

fn num32(x: Binary32) -> f32 {
    f32::from_bits(x.to_bits())
}

fn chars(s: &str) -> Vec<char> {
    s.chars().collect()
}

struct Sys {
    files: Vec<(String, String)>,
    links: Vec<(String, String)>,
}

impl Sys {
    fn new() -> Sys {
        Sys { files: Vec::new(), links: Vec::new() }
    }

    fn put(&mut self, path: &str, contents: &str) {
        self.files.push((path.to_string(), contents.to_string()));
    }

    fn populate_r9700(&mut self, card: &str) {
        let base = format!("class/drm/{card}/device");
        self.put(&format!("{base}/vendor"), "0x1002\n");
        self.put(
            &format!("{base}/uevent"),
            "DRIVER=amdgpu\nPCI_SLOT_NAME=0000:03:00.0\nPCI_ID=1002:7590\n",
        );
        self.put(&format!("{base}/product_name"), "AMD Radeon AI PRO R9700\n");
        self.put(&format!("{base}/gpu_busy_percent"), "42\n");
        self.put(&format!("{base}/mem_info_vram_used"), "16106127360\n");
        self.put(&format!("{base}/mem_info_vram_total"), "34359738368\n");
        self.put(&format!("{base}/mem_info_gtt_used"), "1024\n");
        self.put(&format!("{base}/mem_info_gtt_total"), "2048\n");
        self.put(&format!("{base}/pp_dpm_sclk"), "0: 500Mhz \n1: 2979Mhz *\n");
        self.put(&format!("{base}/pp_dpm_mclk"), "0: 456Mhz \n1: 1500Mhz *\n");
        self.put(&format!("{base}/hwmon/hwmon0/name"), "nvme\n");
        self.put(&format!("{base}/hwmon/hwmon2/name"), "amdgpu\n");
        self.put(&format!("{base}/hwmon/hwmon2/temp1_label"), "edge\n");
        self.put(&format!("{base}/hwmon/hwmon2/temp1_input"), "85000\n");
        self.put(&format!("{base}/hwmon/hwmon2/temp2_label"), "junction\n");
        self.put(&format!("{base}/hwmon/hwmon2/temp2_input"), "102000\n");
        self.put(&format!("{base}/hwmon/hwmon2/temp3_label"), "mem\n");
        self.put(&format!("{base}/hwmon/hwmon2/temp3_input"), "90000\n");
        self.put(&format!("{base}/hwmon/hwmon2/power1_average"), "299000000\n");
        self.put(&format!("{base}/hwmon/hwmon2/power1_cap"), "400000000\n");
        self.put(&format!("{base}/hwmon/hwmon2/fan1_input"), "1200\n");
        self.put(&format!("{base}/hwmon/hwmon2/pwm1"), "128\n");
        self.put(&format!("{base}/hwmon/hwmon2/pwm1_max"), "255\n");
    }

    fn file(&self, path: &str) -> Option<String> {
        self.files.iter().find(|(p, _)| p == path).map(|(_, c)| c.clone())
    }

    fn folder(&self, dir: &str) -> Folder {
        let prefix = format!("{dir}/");
        let files = self
            .files
            .iter()
            .filter_map(|(p, c)| Some((p.strip_prefix(&prefix)?.to_string(), c.clone())))
            .collect();
        Folder { files }
    }

    fn children(&self, dir: &str) -> Vec<String> {
        let prefix = format!("{dir}/");
        let mut names: Vec<String> = Vec::new();
        for (path, _) in self.files.iter().chain(self.links.iter()) {
            if let Some(rest) = path.strip_prefix(&prefix) {
                let name = rest.split('/').next().unwrap().to_string();
                if !names.contains(&name) {
                    names.push(name);
                }
            }
        }
        names
    }

    fn entries(&self) -> Vec<DrmEntry> {
        let mut out = Vec::new();
        for name in self.children("class/drm") {
            let card_dir = format!("class/drm/{name}");
            let link = format!("{card_dir}/device");
            let target = self.links.iter().find(|(from, _)| *from == link);
            let device_dir = target.map_or(link.clone(), |(_, to)| to.clone());
            let hwmon = format!("{device_dir}/hwmon");
            let hwmons = self
                .children(&hwmon)
                .into_iter()
                .map(|h| {
                    let dir = format!("{hwmon}/{h}");
                    let label = self.file(&format!("{dir}/name"));
                    (dir, label)
                })
                .collect();
            out.push(DrmEntry {
                name,
                card_dir,
                vendor: self.file(&format!("{device_dir}/vendor")),
                uevent: self.file(&format!("{device_dir}/uevent")),
                product_name: self.file(&format!("{device_dir}/product_name")),
                device_dir,
                hwmons,
            });
        }
        out
    }

    fn read_metrics(&self, backend: &AmdgpuBackend) -> GpuReadings {
        let pairs: Vec<(String, GpuMetrics)> = backend
            .devices
            .iter()
            .map(|d| {
                let hwmon = d.hwmon_dir.as_ref().map(|h| self.folder(h));
                let metrics = read_metrics_for(&self.folder(&d.device_dir), hwmon.as_ref());
                (d.display_name.clone(), metrics)
            })
            .collect();
        collect_readings(&pairs)
    }

    fn first_card(&self) -> GpuMetrics {
        let backend = AmdgpuBackend::with_sysfs(&self.entries());
        self.read_metrics(&backend).entries[0].1
    }
}

#[test]
fn millidegrees_102000_is_102c() {
    let c = num32(millidegrees_to_celsius(bin(102_000.0)).unwrap());
    assert!((c - 102.0).abs() < f32::EPSILON);
}

#[test]
fn power_microwatts_to_watts() {
    assert!((num32(power_to_watts(bin(299_000_000.0)).unwrap()) - 299.0).abs() < 0.01);
}

#[test]
fn power_rejects_negative_and_non_finite() {
    assert!(power_to_watts(bin(-1.0)).is_none());
    assert!(power_to_watts(bin(f64::NAN)).is_none());
    assert!(power_to_watts(bin(f64::INFINITY)).is_none());
    assert!(power_to_watts(bin(5_000_000_000.0)).is_none());
}

#[test]
fn parse_starred_sclk_line() {
    assert_eq!(parse_pp_dpm_mhz("0: 500Mhz \n1: 2979Mhz *\n").unwrap(), 2979);
}

#[test]
fn discovers_one_amd_card() {
    let mut sys = Sys::new();
    sys.populate_r9700("card1");
    let devices = discover_amd_gpus(&sys.entries());
    assert_eq!(devices.len(), 1);
    assert_eq!(devices[0].bdf.as_deref(), Some("0000:03:00.0"));
    assert!(devices[0].display_name.contains("R9700"));
    assert!(devices[0].hwmon_dir.as_ref().unwrap().ends_with("hwmon2"));
    assert_eq!(devices[0].display_name, "AMD Radeon AI PRO R9700 (0000:03:00.0)");
}

#[test]
fn skips_non_amd_vendor() {
    let mut sys = Sys::new();
    sys.put("class/drm/card0/device/vendor", "0x10de\n");
    sys.put("class/drm/card0/device/gpu_busy_percent", "90\n");
    assert!(discover_amd_gpus(&sys.entries()).is_empty());
}

#[test]
fn ignores_drm_connectors_named_like_card() {
    let mut sys = Sys::new();
    sys.populate_r9700("card0");
    sys.put("class/drm/card0-DP-1/device/vendor", "0x1002\n");
    assert_eq!(discover_amd_gpus(&sys.entries()).len(), 1);
}

#[test]
fn picks_hwmon_named_amdgpu() {
    let mut sys = Sys::new();
    sys.populate_r9700("card0");
    let hwmon = discover_amd_gpus(&sys.entries())[0].hwmon_dir.clone().unwrap();
    let name = sys.file(&format!("{hwmon}/name")).unwrap();
    assert!(name.trim().eq_ignore_ascii_case("amdgpu"));
}

#[test]
fn maps_junction_edge_and_memory_temps() {
    let mut sys = Sys::new();
    sys.populate_r9700("card0");
    let card = sys.first_card();
    assert!((num32(card.temp_edge.unwrap()) - 85.0).abs() < 0.1);
    assert!((num32(card.temp_junction.unwrap()) - 102.0).abs() < 0.1);
    assert!((num32(card.temp_memory.unwrap()) - 90.0).abs() < 0.1);
    assert!((num32(card.temp) - 102.0).abs() < 0.1);
}

#[test]
fn hotspot_label_maps_to_junction() {
    let mut sys = Sys::new();
    sys.put("class/drm/card0/device/vendor", "0x1002\n");
    sys.put("class/drm/card0/device/hwmon/hwmon1/name", "amdgpu\n");
    sys.put("class/drm/card0/device/hwmon/hwmon1/temp1_label", "HOTSPOT\n");
    sys.put("class/drm/card0/device/hwmon/hwmon1/temp1_input", "110000\n");
    let card = sys.first_card();
    assert!((num32(card.temp_junction.unwrap()) - 110.0).abs() < 0.1);
    assert!((num32(card.temp) - 110.0).abs() < 0.1);
}

#[test]
fn prefers_edge_when_junction_missing() {
    let mut sys = Sys::new();
    sys.put("class/drm/card0/device/vendor", "0x1002\n");
    sys.put("class/drm/card0/device/hwmon/hwmon1/name", "amdgpu\n");
    sys.put("class/drm/card0/device/hwmon/hwmon1/temp1_label", "edge\n");
    sys.put("class/drm/card0/device/hwmon/hwmon1/temp1_input", "77000\n");
    let card = sys.first_card();
    assert!((num32(card.temp) - 77.0).abs() < 0.1);
}

#[test]
fn reads_vram_bytes_as_mib_without_mixing_gtt() {
    let mut sys = Sys::new();
    sys.populate_r9700("card0");
    let card = sys.first_card();
    assert_eq!(card.vram_used, 15360);
    assert_eq!(card.vram_total, 32768);
}

#[test]
fn reads_gpu_busy_percent() {
    let mut sys = Sys::new();
    sys.populate_r9700("card0");
    assert_eq!(sys.first_card().load, 42);
}

#[test]
fn missing_optional_fan_does_not_fail_read() {
    let mut sys = Sys::new();
    sys.put("class/drm/card0/device/vendor", "0x1002\n");
    sys.put("class/drm/card0/device/gpu_busy_percent", "8\n");
    sys.put("class/drm/card0/device/hwmon/hwmon1/name", "amdgpu\n");
    sys.put("class/drm/card0/device/hwmon/hwmon1/power1_average", "50000000\n");
    let backend = AmdgpuBackend::with_sysfs(&sys.entries());
    let metrics = sys.read_metrics(&backend);
    assert_eq!(metrics.entries.len(), 1);
    let card = sys.first_card();
    assert_eq!(card.load, 8);
    assert!(card.fan_rpm.is_none());
    assert!(card.fan_percent.is_none());
    assert!((num32(card.power_consumption.unwrap()) - 50.0).abs() < 0.1);
}

#[test]
fn corrupted_numbers_do_not_panic() {
    let mut sys = Sys::new();
    sys.put("class/drm/card0/device/vendor", "0x1002\n");
    sys.put("class/drm/card0/device/gpu_busy_percent", "n/a\n");
    sys.put("class/drm/card0/device/mem_info_vram_used", "oops\n");
    sys.put("class/drm/card0/device/mem_info_vram_total", "\n");
    sys.put("class/drm/card0/device/pp_dpm_sclk", "garbage\n");
    sys.put("class/drm/card0/device/hwmon/hwmon1/name", "amdgpu\n");
    sys.put("class/drm/card0/device/hwmon/hwmon1/temp1_label", "edge\n");
    sys.put("class/drm/card0/device/hwmon/hwmon1/temp1_input", "not-a-temp\n");
    sys.put("class/drm/card0/device/hwmon/hwmon1/power1_average", "NaN\n");
    let card = sys.first_card();
    assert_eq!(card.load, 0);
    assert_eq!(card.vram_used, 0);
    assert_eq!(card.sclk_mhz, 0);
    assert!(card.power_consumption.is_none());
    assert_eq!(num32(card.temp), 0.0);
}

#[test]
fn deduplicates_same_physical_device() {
    let mut sys = Sys::new();
    let real = "devices/0000:03:00.0";
    sys.put(&format!("{real}/vendor"), "0x1002\n");
    sys.put(&format!("{real}/gpu_busy_percent"), "11\n");
    sys.put(&format!("{real}/uevent"), "PCI_SLOT_NAME=0000:03:00.0\n");
    for card in ["card0", "card2"] {
        sys.links.push((format!("class/drm/{card}/device"), real.to_string()));
    }
    assert_eq!(discover_amd_gpus(&sys.entries()).len(), 1);
}

#[test]
fn gpu_devices_filter_keeps_selected_indices() {
    let mut sys = Sys::new();
    sys.put("class/drm/card0/device/vendor", "0x1002\n");
    sys.put("class/drm/card0/device/uevent", "PCI_SLOT_NAME=0000:03:00.0\n");
    sys.put("class/drm/card1/device/vendor", "0x1002\n");
    sys.put("class/drm/card1/device/uevent", "PCI_SLOT_NAME=0000:04:00.0\n");
    let backend = AmdgpuBackend::with_sysfs_and_devices(&sys.entries(), "1");
    let metrics = sys.read_metrics(&backend);
    assert_eq!(metrics.entries.len(), 1);
    assert!(metrics.entries[0].0.contains("0000:04:00.0"));
}

#[test]
fn power_feeds_existing_energy_integrator() {
    let mut sys = Sys::new();
    sys.populate_r9700("card0");
    let card = sys.first_card();
    let power = card.power_consumption.expect("power from sysfs");
    assert!((num32(power) - 299.0).abs() < 0.1);
    assert_eq!(card.power_kind, PowerKind::Average);

    let mut energy = EnergyState::new_default();
    energy.apply_settings(bin(1.0), bin32(20.0)).unwrap();
    let t0 = Moment { nanos: 1_000_000_000 };
    let t1 = Moment { nanos: 1_500_000_000 };
    let local = LocalTime { unix_secs: 1_784_700_000, nanos: 0, offset_secs: 0, day: 739_819 };
    let sample = || GpuPowerSample {
        id: "gpu0".into(),
        power_w: power,
        utilization: Binary32::from_u32(card.load),
    };
    let busy = BusyFlags {
        requests_processing: 1,
        slots_processing: 1,
        health_ok: true,
    };
    energy.ingest(&[sample()], busy, t0, local);
    energy.ingest(&[sample()], busy, t1, local);
    let snap = energy.snapshot(t1, local);
    let expected = f64::from(num32(power)) * 0.5 / 3_600_000.0;
    let lifetime = f64::from_bits(snap.lifetime.energy_kwh.to_bits());
    assert!((lifetime - expected).abs() < 1e-9);
    assert!(f64::from_bits(snap.lifetime.inference_energy_kwh.to_bits()) > 0.0);
    assert!(f64::from_bits(snap.lifetime.inference_cost_pln.to_bits()) > 0.0);
}

#[test]
fn reads_fan_rpm_and_percent() {
    let mut sys = Sys::new();
    sys.populate_r9700("card0");
    let card = sys.first_card();
    assert_eq!(card.fan_rpm, Some(1200));
    assert_eq!(card.fan_percent, Some(50));
    assert_eq!(card.sclk_mhz, 2979);
    assert_eq!(card.mclk_mhz, 1500);
    assert_eq!(card.power_limit, 400);
}

#[test]
fn freq_input_is_sclk_fallback() {
    let mut sys = Sys::new();
    sys.put("class/drm/card0/device/vendor", "0x1002\n");
    sys.put("class/drm/card0/device/hwmon/hwmon1/name", "amdgpu\n");
    sys.put("class/drm/card0/device/hwmon/hwmon1/freq1_label", "sclk\n");
    sys.put("class/drm/card0/device/hwmon/hwmon1/freq1_input", "2100000000\n");
    assert_eq!(sys.first_card().sclk_mhz, 2100);
}

#[test]
fn repeat_error_limiter_logs_on_kind_or_interval_change() {
    let mut limiter = RepeatErrorLimiter::new(30_000_000_000);
    let at = |millis: u64| Moment { nanos: 5_000_000_000 + millis * 1_000_000 };
    assert!(limiter.should_log("a", at(0)));
    assert!(!limiter.should_log("a", at(500)));
    assert!(limiter.should_log("b", at(600)));
    assert!(limiter.should_log("b", at(31_000)));
}

#[test]
fn problem_of_a_file_is_reported_once() {
    let mut log = OnceKindLog::new();
    assert!(log.should_emit("f", "denied"));
    assert!(!log.should_emit("f", "denied"));
    assert!(log.should_emit("g", "denied"));
    assert!(log.should_emit("f", "busy"));
    assert!(log.should_emit("f", "denied"));
}

fn stub(cards: &[&str]) -> GpuReadings {
    let mut out: GpuReadings = Table::new();
    for c in cards {
        out.insert(
            c.to_string(),
            GpuMetrics { power_consumption: Some(bin32(0.0)), ..GpuMetrics::default() },
        );
    }
    out
}

fn failure() -> Result<GpuReadings, String> {
    Err("stub failure".to_string())
}

#[test]
fn multi_backend_merges_all_vendors() {
    let metrics =
        merge_readings(vec![Ok(stub(&["card0", "card1"])), Ok(stub(&["GPU0 NVIDIA"]))]).ok().unwrap();
    assert_eq!(metrics.entries.len(), 3);
    assert!(metrics.get(&"card0".to_string()).is_some());
    assert!(metrics.get(&"card1".to_string()).is_some());
    assert!(metrics.get(&"GPU0 NVIDIA".to_string()).is_some());
}

#[test]
fn multi_backend_skips_failing_backend() {
    let metrics = merge_readings(vec![failure(), Ok(stub(&["GPU0 NVIDIA"]))]).ok().unwrap();
    assert_eq!(metrics.entries.len(), 1);
    assert!(metrics.get(&"GPU0 NVIDIA".to_string()).is_some());
}

#[test]
fn multi_backend_all_fail_is_error() {
    assert!(merge_readings(vec![failure()]).is_err());
}

#[test]
fn merging_takes_the_later_reading_and_the_last_failure() {
    let mut late = stub(&["card0"]);
    late.insert("card0".to_string(), GpuMetrics { load: 7, ..GpuMetrics::default() });
    let metrics = merge_readings(vec![Ok(stub(&["card0"])), Ok(late)]).ok().unwrap();
    assert_eq!(metrics.get(&"card0".to_string()).unwrap().load, 7);
    let err = merge_readings(vec![failure(), Err("second".to_string())]).err().unwrap();
    assert_eq!(err, "second");
    assert!(merge_readings(Vec::new()).ok().unwrap().is_empty());
}

#[test]
fn gpu_poll_error_clears_previous_sample() {
    let mut sample: GpuReadings = Table::new();
    sample.insert(
        "card0".to_string(),
        GpuMetrics {
            temp: bin32(72.0),
            load: 97,
            power_consumption: Some(bin32(280.0)),
            power_kind: PowerKind::Current,
            power_limit: 300,
            vram_used: 28000,
            vram_total: 32000,
            sclk_mhz: 2000,
            mclk_mhz: 1000,
            ..GpuMetrics::default()
        },
    );
    let mut store = Some(copy_readings(&sample));
    let shown = apply_gpu_poll_result(&mut store, Ok(sample)).ok().unwrap();
    assert_eq!(shown.get(&"card0".to_string()).unwrap().load, 97);
    assert!(store.is_some());
    let err = apply_gpu_poll_result(&mut store, Err("rocm-smi failed".to_string()));
    assert!(err.is_err());
    assert!(store.is_none());
}

fn amd_sysfs() -> Vec<DrmEntry> {
    let mut sys = Sys::new();
    sys.put("class/drm/card0/device/vendor", "0x1002\n");
    sys.put("class/drm/card0/device/gpu_busy_percent", "1\n");
    sys.entries()
}

#[test]
fn auto_selects_amdgpu_when_rocm_smi_missing() {
    assert_eq!(forced_backend("auto"), None);
    let kinds = auto_backends(false, false, amdgpu_sysfs_available(&amd_sysfs()));
    assert_eq!(kinds, vec![BackendKind::Amdgpu]);
}

#[test]
fn explicit_amdgpu_never_runs_external_process() {
    assert_eq!(forced_backend("amdgpu"), Some(BackendKind::Amdgpu));
    assert_eq!(forced_backend("vulkan"), Some(BackendKind::Amdgpu));
    assert_eq!(AmdgpuBackend::with_sysfs(&amd_sysfs()).devices.len(), 1);
}

#[test]
fn auto_prefers_rocm_when_tool_exists() {
    let kinds = auto_backends(false, true, amdgpu_sysfs_available(&amd_sysfs()));
    assert_eq!(kinds, vec![BackendKind::Rocm]);
}

#[test]
fn auto_prefers_nvidia_when_nvidia_smi_exists() {
    let kinds = auto_backends(true, false, amdgpu_sysfs_available(&amd_sysfs()));
    assert_eq!(kinds, vec![BackendKind::Nvidia]);
}

#[test]
fn auto_takes_both_tools_or_none() {
    assert_eq!(auto_backends(true, true, true), vec![BackendKind::Nvidia, BackendKind::Rocm]);
    assert_eq!(auto_backends(false, false, false), vec![BackendKind::Dummy]);
    assert_eq!(forced_backend("rocm"), Some(BackendKind::Rocm));
    assert_eq!(forced_backend("nvidia"), Some(BackendKind::Nvidia));
    assert_eq!(forced_backend("none"), Some(BackendKind::Dummy));
}

#[test]
fn canonicalize_vulkan_alias() {
    assert_eq!(canonicalize_gpu_backend("vulkan"), "amdgpu");
    assert_eq!(canonicalize_gpu_backend("amdgpu"), "amdgpu");
}

#[test]
fn cards_come_in_the_order_of_their_addresses() {
    let mut sys = Sys::new();
    for (card, bdf) in [("card0", "0000:0a:00.0"), ("card1", "0000:03:00.0")] {
        sys.put(&format!("class/drm/{card}/device/vendor"), "1002");
        sys.put(
            &format!("class/drm/{card}/device/uevent"),
            &format!("PCI_SLOT_NAME={bdf}\n"),
        );
    }
    let devices = discover_amd_gpus(&sys.entries());
    assert_eq!(devices[0].display_name, "AMD GPU (0000:03:00.0)");
    assert_eq!(devices[1].display_name, "AMD GPU (0000:0a:00.0)");
    let chosen = apply_device_filter(discover_amd_gpus(&sys.entries()), &vec![1, 7]);
    assert_eq!(chosen.len(), 1);
    assert_eq!(chosen[0].card_dir, "class/drm/card0");
}

#[test]
fn lost_cards_are_looked_for_again() {
    let mut sys = Sys::new();
    sys.populate_r9700("card0");
    let mut backend = AmdgpuBackend::with_sysfs_and_devices(&sys.entries(), "");
    assert!(!backend.has_lost(&vec![true]));
    assert!(backend.has_lost(&vec![false]));
    backend.snapshot_devices(&Vec::new());
    assert!(backend.devices.is_empty());
    assert!(!backend.has_lost(&Vec::new()));
}

#[test]
fn card_without_address_is_called_by_its_name() {
    let mut sys = Sys::new();
    sys.put("class/drm/card3/device/vendor", "0x1002");
    let devices = discover_amd_gpus(&sys.entries());
    assert_eq!(devices[0].display_name, "card3");
    assert_eq!(devices[0].bdf, None);
}

#[test]
fn numbers_of_the_kernel() {
    assert_eq!(parse_hex_id(" 0x1002\n"), Some(0x1002));
    assert_eq!(parse_hex_id("10DE"), Some(0x10de));
    assert_eq!(parse_hex_id("0x10000"), None);
    assert_eq!(parse_hex_id("zz"), None);
    assert_eq!(parse_u64(" 12 "), Some(12));
    assert_eq!(parse_u64("-1"), None);
    assert_eq!(parse_u64("+12"), "+12".parse().ok());
    assert_eq!(parse_hex_id("+1002"), u16::from_str_radix("+1002", 16).ok());
    assert_eq!(parse_hex_id("0x0x0X1002"), Some(0x1002));
    assert_eq!(parse_hex_id("0X0x1002"), None);
    assert_eq!(parse_u32("4294967296"), None);
    assert_eq!(bytes_to_mib(3 * 1024 * 1024 + 5), 3);
    assert_eq!(parse_busy_percent("100"), Some(100));
    assert_eq!(parse_busy_percent("x"), None);
    assert_eq!(freq_to_mhz(bin(2_100_000_000.0)), Some(2100));
    assert_eq!(freq_to_mhz(bin(-1.0)), None);
    assert_eq!(freq_to_mhz(bin(f64::NAN)), None);
    assert_eq!(millidegrees_to_celsius(bin(f64::NAN)), None);
    assert_eq!(parse_mhz_token(&chars("1: 2979Mhz *")), Some(2979));
    assert_eq!(parse_pp_dpm_mhz("0: 500Mhz\n1: 700Mhz\n \n"), Some(700));
    assert_eq!(parse_pp_dpm_mhz("0: 500Mhz *\n1: 700Mhz"), Some(500));
    assert_eq!(parse_pp_dpm_mhz("\n"), None);
    assert_eq!(parse_mhz_token(&chars("12.5 MHz")), Some(13));
    assert_eq!(parse_mhz_token(&chars("10001mhz")), None);
    assert_eq!(sensor_file_name("temp", 16, "_label"), "temp16_label");
}

#[test]
fn names_of_the_kernel() {
    assert!(is_drm_card_name("card0"));
    assert!(is_drm_card_name("card12"));
    assert!(!is_drm_card_name("card"));
    assert!(!is_drm_card_name("card0-DP-1"));
    assert!(!is_drm_card_name("renderD128"));
    assert!(is_pci_bdf(&chars("0000:03:00.0")));
    assert!(!is_pci_bdf(&chars("0000:03:00")));
    assert_eq!(classify_temp_label("Junction"), Some(TempKind::Junction));
    assert_eq!(classify_temp_label("mem"), Some(TempKind::Memory));
    assert_eq!(classify_temp_label("edge"), Some(TempKind::Edge));
    assert_eq!(classify_temp_label("fan"), None);
}

#[test]
fn device_lists() {
    assert_eq!(parse_device_filter("2, 0,2,x"), vec![0, 2]);
    assert_eq!(parse_device_filter("+3, -1, 18446744073709551616"), vec![3]);
    assert!(parse_device_filter("").is_empty());
}

#[test]
fn labeled_frequencies() {
    let mut sys = Sys::new();
    sys.put("h/freq2_label", "MCLK\n");
    sys.put("h/freq2_input", "1000000000\n");
    let folder = sys.folder("h");
    assert_eq!(read_labeled_freq(&folder, "mclk", "mem"), Some(1000));
    assert_eq!(read_labeled_freq(&folder, "sclk", "gfx"), None);
    assert_eq!(folder.read_trimmed("freq2_label").as_deref(), Some("MCLK"));
    assert_eq!(folder.read_trimmed("missing"), None);
}
