use orsiktop::providers::nvidia::{format_throttle_reasons, ThrottleFlags};
use orsiktop::discovery::{DiscoveredGpu, GpuVendor};
use orsiktop::domain::DeviceId;
use orsiktop::providers::nvidia::{
    due_to_refresh, mig_child_key, normalize_pstate, MigChild, REFRESH_INTERVAL_MS,
};
use orsiktop::providers::{amd, intel, read_i64, read_text, read_u64};
use orsiktop::system::FixtureSys;

fn add_amd_hwmon(sys: &mut FixtureSys, hwmon: &str, bdf: &str) {
    let dir = format!("/sys/class/hwmon/{hwmon}");
    sys.dir_entry("/sys/class/hwmon", hwmon, false, true);
    sys.symlink(
        format!("{dir}/device").as_str(),
        &format!("../../devices/pci0000:00/{bdf}"),
    );
    sys.file(format!("{dir}/temp1_input").as_str(), "55200\n");
    sys.file(format!("{dir}/power1_input").as_str(), "180000000\n");
    sys.file(format!("{dir}/freq1_input").as_str(), "2100000000\n");
    sys.file(format!("{dir}/freq2_input").as_str(), "1000000000\n");
    sys.file(format!("{dir}/fan1_input").as_str(), "1500\n");
    sys.file(format!("{dir}/fan1_max").as_str(), "3000\n");
}

#[test]
fn amd_hwmon_is_matched_by_bdf_component() {
    let mut sys = FixtureSys::default();
    add_amd_hwmon(&mut sys, "hwmon0", "0000:01:00.0");
    add_amd_hwmon(&mut sys, "hwmon1", "0000:02:00.0");

    assert_eq!(
        amd::find_hwmon_for_bdf(&sys, "0000:01:00.0"),
        Some("hwmon0".to_string())
    );
    assert_eq!(
        amd::find_hwmon_for_bdf(&sys, "0000:02:00.0"),
        Some("hwmon1".to_string())
    );
    assert_eq!(amd::find_hwmon_for_bdf(&sys, "0000:09:99.9"), None);
}

fn add_intel_hwmon(sys: &mut FixtureSys, hwmon: &str, bdf: &str, temp: Option<&str>, pl1: Option<&str>) {
    let dir = format!("/sys/class/hwmon/{hwmon}");
    sys.dir_entry("/sys/class/hwmon", hwmon, false, true);
    sys.symlink(
        format!("{dir}/device").as_str(),
        &format!("../../devices/pci0000:00/{bdf}"),
    );
    if let Some(t) = temp {
        sys.file(format!("{dir}/temp1_input").as_str(), &format!("{t}\n"));
    }
    if let Some(p) = pl1 {
        sys.file(format!("{dir}/power1_max").as_str(), &format!("{p}\n"));
    }
}

#[test]
fn intel_hwmon_is_matched_by_bdf_component() {
    let mut sys = FixtureSys::default();
    add_intel_hwmon(&mut sys, "hwmon0", "0000:01:00.0", Some("40000"), None);
    add_intel_hwmon(&mut sys, "hwmon1", "0000:02:00.0", Some("50000"), None);

    assert_eq!(
        intel::find_hwmon_for_bdf(&sys, "0000:01:00.0"),
        Some("hwmon0".to_string())
    );
    assert_eq!(
        intel::find_hwmon_for_bdf(&sys, "0000:02:00.0"),
        Some("hwmon1".to_string())
    );
    assert_eq!(intel::find_hwmon_for_bdf(&sys, "0000:09:99.9"), None);
}

#[test]
fn normalizes_nvml_pstate_names() {
    assert_eq!(normalize_pstate("Zero"), "P0");
    assert_eq!(normalize_pstate("Two"), "P2");
    assert_eq!(normalize_pstate("Fifteen"), "P15");
    assert_eq!(normalize_pstate("Unknown"), "Unknown");
}

#[test]
fn mig_child_key_prefers_driver_uuid() {
    let parent = DeviceId::new(Some("0000:41:00.0".into()), Some("GPU-parent".into()));
    assert_eq!(
        mig_child_key(Some("MIG-GPU-parent-1-0"), &parent, 0),
        "MIG-GPU-parent-1-0"
    );
}

#[test]
fn mig_child_key_falls_back_to_parent_uuid_then_bdf() {
    let with_uuid = DeviceId::new(Some("0000:41:00.0".into()), Some("GPU-parent".into()));
    assert_eq!(mig_child_key(None, &with_uuid, 2), "GPU-parent#mig-2");
    assert_eq!(
        mig_child_key(Some("GPU-not-a-mig"), &with_uuid, 2),
        "GPU-parent#mig-2"
    );
    let bdf_only = DeviceId::new(Some("0000:41:00.0".into()), None);
    assert_eq!(mig_child_key(None, &bdf_only, 2), "0000:41:00.0#mig-2");
}

#[test]
fn mig_child_key_fallback_is_parseable() {
    let parent = DeviceId::new(Some("0000:41:00.0".into()), Some("GPU-parent".into()));
    let key = DeviceId::new(None, Some(mig_child_key(None, &parent, 2)));
    assert_eq!(key.mig_parent_uuid().as_deref(), Some("GPU-parent"));
    assert_eq!(key.mig_instance(), None);
}

#[test]
fn mig_child_without_any_parent_identity_uses_vendor_name() {
    let parent = DeviceId::new(None, None);
    assert_eq!(mig_child_key(None, &parent, 7), "nvidia#mig-7");
    let child = MigChild {
        parent_index: 0,
        slot: 1,
        key: "MIG-GPU-parent-3-4".to_string(),
    };
    assert_eq!(child.instance(), Some((3, 4)));
}

#[test]
fn slow_properties_refresh_due_only_after_interval() {
    assert!(due_to_refresh(None, 5));
    assert!(!due_to_refresh(Some(1000), 1999));
    assert!(due_to_refresh(Some(1000), 2000));
    assert!(!due_to_refresh(Some(5000), 10));
    let fetched = 7_000;
    assert!(!due_to_refresh(Some(fetched), fetched + 999));
    assert!(due_to_refresh(Some(fetched), fetched + REFRESH_INTERVAL_MS));
}

fn intel_gpu(driver: &str, bdf: &str, card: &str, device: u16) -> DiscoveredGpu {
    DiscoveredGpu {
        card: card.to_string(),
        device_id: DeviceId::new(Some(bdf.to_string()), None),
        vendor: GpuVendor::Intel,
        pci_vendor_id: 0x8086,
        pci_device_id: device,
        pci_class_code: 0x030000,
        driver: driver.to_string(),
        render_node: None,
        outputs: Vec::new(),
    }
}

#[test]
fn intel_gt_dir_and_names() {
    assert_eq!(
        intel::gt_sysfs_dir(&intel_gpu("xe", "0000:00:02.0", "card1", 0x1234)),
        "/sys/bus/pci/devices/0000:00:02.0/tile0/gt0/freq0"
    );
    assert_eq!(
        intel::gt_sysfs_dir(&intel_gpu("i915", "0000:00:02.0", "card1", 0x1234)),
        "/sys/class/drm/card1"
    );
    assert_eq!(
        intel::display_name(&intel_gpu("xe", "0000:00:02.0", "card1", 0x64a0)),
        "Intel Arc (Core Ultra 200V iGPU)"
    );
    assert_eq!(
        intel::display_name(&intel_gpu("xe", "0000:00:02.0", "card1", 0x1234)),
        "card1"
    );
    assert_eq!(intel::read_throttle_reason(None), "none");
    assert_eq!(intel::read_throttle_reason(Some(String::new())), "none");
    assert_eq!(intel::read_throttle_reason(Some("power thermal".into())), "power thermal");
}

#[test]
fn sysfs_values_are_trimmed_and_parsed() {
    let mut sys = FixtureSys::default();
    sys.file("/a", " 42 \n").file("/b", "-7\n").file("/c", "  \n").file("/d", "100%\n");
    assert_eq!(read_text(&sys, "/a").as_deref(), Some("42"));
    assert_eq!(read_u64(&sys, "/a"), Some(42));
    assert_eq!(read_i64(&sys, "/b"), Some(-7));
    assert_eq!(read_text(&sys, "/c"), None);
    assert_eq!(read_u64(&sys, "/d"), None);
    assert_eq!(read_u64(&sys, "/missing"), None);
}

#[test]
fn formats_nvml_throttle_reasons() {
    assert_eq!(format_throttle_reasons(&ThrottleFlags::default()), "none");
    let power = ThrottleFlags {
        any: true,
        sw_power_cap: true,
        ..ThrottleFlags::default()
    };
    assert_eq!(format_throttle_reasons(&power), "power");
    let power_thermal = ThrottleFlags {
        any: true,
        sw_power_cap: true,
        hw_thermal_slowdown: true,
        ..ThrottleFlags::default()
    };
    assert_eq!(format_throttle_reasons(&power_thermal), "power+thermal");
    let idle = ThrottleFlags {
        any: true,
        gpu_idle: true,
        ..ThrottleFlags::default()
    };
    assert_eq!(format_throttle_reasons(&idle), "idle");
    let unknown = ThrottleFlags {
        any: true,
        ..ThrottleFlags::default()
    };
    assert_eq!(format_throttle_reasons(&unknown), "other");
}

fn amd_gpu(bdf: &str, card: &str) -> DiscoveredGpu {
    DiscoveredGpu {
        card: card.to_string(),
        device_id: DeviceId::new(Some(bdf.to_string()), None),
        vendor: GpuVendor::Amd,
        pci_vendor_id: 0x1002,
        pci_device_id: 0x74a0,
        pci_class_code: 0x030000,
        driver: "amdgpu".to_string(),
        render_node: None,
        outputs: Vec::new(),
    }
}

fn add_amd_pci(sys: &mut FixtureSys, bdf: &str, busy: Option<u32>, mem_busy: Option<u32>, vram: Option<u64>) {
    let dir = format!("/sys/bus/pci/devices/{bdf}");
    sys.dir_entry(&dir, "", false, false);
    if let Some(b) = busy {
        sys.file(format!("{dir}/gpu_busy_percent").as_str(), &format!("{b}\n"));
    }
    if let Some(b) = mem_busy {
        sys.file(format!("{dir}/mem_busy_percent").as_str(), &format!("{b}\n"));
    }
    if let Some(total) = vram {
        sys.file(format!("{dir}/mem_info_vram_total").as_str(), &format!("{total}\n"));
        sys.file(format!("{dir}/mem_info_vram_used").as_str(), &format!("{}\n", total / 4));
    }
}

fn sample_amd(sys: &FixtureSys, bdf: &str) -> amd::AmdReadings {
    let hwmon = amd::find_hwmon_for_bdf(sys, bdf);
    amd::read_amd(sys, &amd_gpu(bdf, "card0"), hwmon.as_deref())
}

fn mib(bytes: Option<u64>) -> Option<f64> {
    bytes.map(|b| b as f64 / 1024.0 / 1024.0)
}

fn scaled(v: Option<i64>, unit: f64) -> Option<f64> {
    v.map(|v| v as f64 / unit)
}

#[test]
fn samples_amd_dgpu_full_sensor_set() {
    let mut sys = FixtureSys::default();
    add_amd_pci(&mut sys, "0000:01:00.0", Some(42), Some(17), Some(16 * 1024 * 1024 * 1024));
    add_amd_hwmon(&mut sys, "hwmon0", "0000:01:00.0");
    let r = sample_amd(&sys, "0000:01:00.0");
    assert!(r.available);
    assert_eq!(r.name, "card0");
    assert_eq!(r.busy_percent, Some(42));
    assert_eq!(r.memory_busy_percent, Some(17));
    assert_eq!(mib(r.vram_total_bytes), Some(16384.0));
    assert_eq!(mib(r.vram_used_bytes), Some(4096.0));
    assert_eq!(scaled(r.temperature_millic, 1000.0), Some(55.2));
    assert_eq!(scaled(r.power_uw, 1_000_000.0), Some(180.0));
    assert_eq!(scaled(r.graphics_clock_hz, 1_000_000.0), Some(2100.0));
    assert_eq!(scaled(r.memory_clock_hz, 1_000_000.0), Some(1000.0));
    assert_eq!(r.fan_rpm, Some((1500, 3000)));
    assert_eq!(r.fan_rpm.map(|(rpm, max)| rpm as f64 / max as f64 * 100.0), Some(50.0));
}

#[test]
fn degrades_gracefully_when_hwmon_is_absent() {
    let mut sys = FixtureSys::default();
    add_amd_pci(&mut sys, "0000:01:00.0", Some(5), Some(2), Some(8 * 1024 * 1024 * 1024));
    let r = sample_amd(&sys, "0000:01:00.0");
    assert!(r.available);
    assert_eq!(r.busy_percent, Some(5));
    assert_eq!(mib(r.vram_total_bytes), Some(8192.0));
    assert_eq!(r.temperature_millic, None);
    assert_eq!(r.power_uw, None);
    assert_eq!(r.graphics_clock_hz, None);
    assert_eq!(r.fan_rpm, None);
}

#[test]
fn product_name_overrides_card_name_and_missing_vram_is_none() {
    let mut sys = FixtureSys::default();
    let dir = "/sys/bus/pci/devices/0000:01:00.0";
    sys.dir_entry(dir, "", false, false);
    sys.file(format!("{dir}/gpu_busy_percent").as_str(), "9\n");
    sys.file(format!("{dir}/product_name").as_str(), "Radeon RX 7800 XT\n");
    let r = sample_amd(&sys, "0000:01:00.0");
    assert_eq!(r.name, "Radeon RX 7800 XT");
    assert_eq!(r.busy_percent, Some(9));
    assert_eq!(r.vram_total_bytes, None);
}

#[test]
fn amd_device_not_readable_reports_unavailable() {
    let sys = FixtureSys::default();
    let r = sample_amd(&sys, "0000:01:00.0");
    assert!(!r.available);
    assert_eq!(r.name, "card0");
    assert_eq!(r.busy_percent, None);
}

#[test]
fn malformed_sysfs_values_degrade_to_none_not_fakes() {
    let mut sys = FixtureSys::default();
    let dir = "/sys/bus/pci/devices/0000:01:00.0";
    sys.dir_entry(dir, "", false, false);
    sys.file(format!("{dir}/gpu_busy_percent").as_str(), "100%\n");
    sys.file(format!("{dir}/mem_info_vram_total").as_str(), "16G\n");
    sys.file(format!("{dir}/product_name").as_str(), "");
    let r = sample_amd(&sys, "0000:01:00.0");
    assert!(r.available, "a readable device dir is available");
    assert_eq!(r.name, "card0");
    assert_eq!(r.busy_percent, None);
    assert_eq!(r.memory_busy_percent, None);
    assert_eq!(r.vram_total_bytes, None);
    assert_eq!(r.vram_used_bytes, None);
    assert_eq!(r.temperature_millic, None);
    assert_eq!(r.power_uw, None);
    assert_eq!(r.graphics_clock_hz, None);
}

#[test]
fn amd_fan_needs_a_positive_maximum() {
    let mut sys = FixtureSys::default();
    add_amd_pci(&mut sys, "0000:01:00.0", None, None, None);
    add_amd_hwmon(&mut sys, "hwmon0", "0000:01:00.0");
    sys.file("/sys/class/hwmon/hwmon0/fan1_max", "0\n");
    let r = sample_amd(&sys, "0000:01:00.0");
    assert_eq!(r.fan_rpm, None);
    assert_eq!(r.power_uw, Some(180_000_000));
}

fn add_xe(sys: &mut FixtureSys, bdf: &str, cur_freq: Option<u32>, reasons: Option<&str>) {
    let dir = format!("/sys/bus/pci/devices/{bdf}");
    sys.dir_entry(&dir, "", false, false);
    let freq = format!("{dir}/tile0/gt0/freq0");
    sys.dir_entry(&dir, "tile0", true, false);
    sys.dir_entry(&freq, "", false, false);
    if let Some(f) = cur_freq {
        sys.file(format!("{freq}/cur_freq").as_str(), &format!("{f}\n"));
    }
    if let Some(r) = reasons {
        sys.file(format!("{freq}/throttle/reasons").as_str(), &format!("{r}\n"));
    }
}

fn add_i915(sys: &mut FixtureSys, card: &str, bdf: &str, rps_cur: Option<u32>, throttled: bool) {
    let dir = format!("/sys/class/drm/{card}");
    sys.dir_entry("/sys/class/drm", card, false, false);
    sys.dir_entry(&dir, "", false, false);
    sys.symlink(format!("{dir}/device").as_str(), &format!("/sys/devices/pci0000:00/{bdf}"));
    if let Some(f) = rps_cur {
        sys.file(format!("{dir}/rps_cur_freq_mhz").as_str(), &format!("{f}\n"));
    }
    let flag = if throttled { "1\n" } else { "0\n" };
    sys.file(format!("{dir}/throttle_reason_status").as_str(), flag);
    sys.file(format!("{dir}/throttle_reason_thermal").as_str(), flag);
}

fn sample_intel(sys: &FixtureSys, gpu: &DiscoveredGpu) -> intel::IntelReadings {
    let hwmon = intel::find_hwmon_for_bdf(sys, gpu.device_id.key());
    intel::read_intel(sys, gpu, hwmon.as_deref())
}

#[test]
fn samples_xe_dgpu_with_hwmon() {
    let mut sys = FixtureSys::default();
    add_xe(&mut sys, "0000:01:00.0", Some(1250), Some("none"));
    add_intel_hwmon(&mut sys, "hwmon0", "0000:01:00.0", Some("48000"), Some("280000000"));
    let r = sample_intel(&sys, &intel_gpu("xe", "0000:01:00.0", "card0", 0x064a));
    assert!(r.available);
    assert_eq!(r.name, "card0");
    assert_eq!(r.graphics_clock_mhz, Some(1250));
    assert_eq!(r.limit_reason, "none");
    assert_eq!(scaled(r.temperature_millic, 1000.0), Some(48.0));
    assert_eq!(scaled(r.power_limit_uw, 1_000_000.0), Some(280.0));
}

#[test]
fn display_name_maps_known_ids_and_falls_back_to_card() {
    let apu = intel_gpu("xe", "0000:00:02.0", "card0", 0x064a);
    let mut named = apu.clone();
    named.pci_device_id = 0x64a0;
    assert_eq!(intel::display_name(&named), "Intel Arc (Core Ultra 200V iGPU)".to_string());
    let mut sys = FixtureSys::default();
    add_xe(&mut sys, "0000:00:02.0", Some(800), Some("none"));
    assert_eq!(sample_intel(&sys, &named).name, "Intel Arc (Core Ultra 200V iGPU)");
    assert_eq!(sample_intel(&sys, &apu).name, "card0");
}

#[test]
fn xe_apu_without_hwmon_keeps_clock_and_reason() {
    let mut sys = FixtureSys::default();
    add_xe(&mut sys, "0000:00:02.0", Some(800), Some("none"));
    let r = sample_intel(&sys, &intel_gpu("xe", "0000:00:02.0", "card0", 0x064a));
    assert!(r.available);
    assert_eq!(r.graphics_clock_mhz, Some(800));
    assert_eq!(r.limit_reason, "none");
    assert_eq!(r.temperature_millic, None);
    assert_eq!(r.power_limit_uw, None);
}

#[test]
fn xe_reports_throttle_reason_when_throttled() {
    let mut sys = FixtureSys::default();
    add_xe(&mut sys, "0000:01:00.0", Some(700), Some("thermal prochot"));
    let r = sample_intel(&sys, &intel_gpu("xe", "0000:01:00.0", "card0", 0x064a));
    assert_eq!(r.graphics_clock_mhz, Some(700));
    assert_eq!(r.limit_reason, "thermal prochot");
}

#[test]
fn samples_i915_from_card_directory() {
    let mut sys = FixtureSys::default();
    add_i915(&mut sys, "card0", "0000:00:02.0", Some(1000), false);
    let r = sample_intel(&sys, &intel_gpu("i915", "0000:00:02.0", "card0", 0x064a));
    assert!(r.available);
    assert_eq!(r.graphics_clock_mhz, Some(1000));
    assert_eq!(r.limit_reason, "none");
}

#[test]
fn i915_reports_throttle_reason_from_bool_files() {
    let mut sys = FixtureSys::default();
    add_i915(&mut sys, "card0", "0000:00:02.0", Some(600), true);
    let r = sample_intel(&sys, &intel_gpu("i915", "0000:00:02.0", "card0", 0x064a));
    assert_eq!(r.limit_reason, "thermal");
}

#[test]
fn i915_joins_several_reasons_and_falls_back_to_gt0() {
    let mut sys = FixtureSys::default();
    sys.dir_entry("/sys/class/drm", "card1", false, false);
    sys.dir_entry("/sys/class/drm/card1", "", false, false);
    sys.file("/sys/class/drm/card1/gt/gt0/rps_cur_freq_mhz", "450\n");
    sys.file("/sys/class/drm/card1/gt/gt0/throttle_reason_pl1", "1\n");
    sys.file("/sys/class/drm/card1/gt/gt0/throttle_reason_prochot", "1\n");
    sys.file("/sys/class/drm/card1/throttle_reason_thermal", "1\n");
    let r = sample_intel(&sys, &intel_gpu("i915", "0000:00:02.0", "card1", 0x064a));
    assert_eq!(r.graphics_clock_mhz, Some(450));
    assert_eq!(r.limit_reason, "power+prochot");
}

#[test]
fn intel_device_not_readable_reports_unavailable() {
    let sys = FixtureSys::default();
    let r = sample_intel(&sys, &intel_gpu("xe", "0000:01:00.0", "card0", 0x064a));
    assert!(!r.available);
    assert_eq!(r.graphics_clock_mhz, None);
}

#[test]
fn pl1_limit_of_zero_is_treated_as_unavailable() {
    let mut sys = FixtureSys::default();
    add_xe(&mut sys, "0000:01:00.0", Some(900), Some("none"));
    add_intel_hwmon(&mut sys, "hwmon0", "0000:01:00.0", Some("33000"), Some("0"));
    let r = sample_intel(&sys, &intel_gpu("xe", "0000:01:00.0", "card0", 0x064a));
    assert_eq!(scaled(r.temperature_millic, 1000.0), Some(33.0));
    assert_eq!(r.power_limit_uw, None);
}
