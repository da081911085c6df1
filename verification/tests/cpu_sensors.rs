use orsiktop::cpu::parse_cpu_list;
use orsiktop::cpu_sensors::{rapl_power, CpuSensors};
use orsiktop::paths::file_name_of;
use orsiktop::system::FixtureSys;

fn cpufreq_fixture() -> FixtureSys {
    let mut fixture = FixtureSys::default();
    fixture
        .dir_entry("/sys/devices/system/cpu/cpufreq", "policy0", true, false)
        .dir_entry("/sys/devices/system/cpu/cpufreq", "policy1", true, false)
        .file(
            "/sys/devices/system/cpu/cpufreq/policy0/affected_cpus",
            "0-3\n",
        )
        .file(
            "/sys/devices/system/cpu/cpufreq/policy0/scaling_cur_freq",
            "2000000\n",
        )
        .file(
            "/sys/devices/system/cpu/cpufreq/policy1/affected_cpus",
            "4-5\n",
        )
        .file(
            "/sys/devices/system/cpu/cpufreq/policy1/scaling_cur_freq",
            "1000000\n",
        );
    fixture
}

fn weighted_mhz(samples: &[(u64, u64)]) -> Option<f64> {
    let weight: u64 = samples.iter().map(|s| s.1).sum();
    if weight == 0 {
        return None;
    }
    let sum: f64 = samples
        .iter()
        .map(|s| s.0 as f64 / 1000.0 * s.1 as f64)
        .sum();
    Some(sum / weight as f64)
}

#[test]
fn frequency_is_weighted_average_over_policies() {
    let fixture = cpufreq_fixture();
    let mut sensors = CpuSensors::default();
    sensors.discover(&fixture);
    let samples = sensors.frequency_samples(&fixture);
    assert_eq!(samples, vec![(2_000_000, 4), (1_000_000, 2)]);
    // (4 CPUs × 2000 MHz + 2 CPUs × 1000 MHz) / 6 = 1666.67 MHz
    let mhz = weighted_mhz(&samples).unwrap();
    assert!((mhz - 1666.667).abs() < 0.01, "got {mhz}");
}

#[test]
fn frequency_samples_skip_policies_reporting_zero() {
    let mut fixture = cpufreq_fixture();
    fixture.file(
        "/sys/devices/system/cpu/cpufreq/policy0/scaling_cur_freq",
        "0\n",
    );
    fixture.file(
        "/sys/devices/system/cpu/cpufreq/policy1/scaling_cur_freq",
        "0\n",
    );
    let mut sensors = CpuSensors::default();
    sensors.discover(&fixture);
    assert!(sensors.frequency_samples(&fixture).is_empty());
}

#[test]
fn frequency_samples_empty_without_cpufreq_dir_or_discovery() {
    let fixture = FixtureSys::default();
    let mut sensors = CpuSensors::default();
    assert!(sensors.frequency_samples(&fixture).is_empty());
    sensors.discover(&fixture);
    assert!(sensors.frequency_samples(&fixture).is_empty());
}

#[test]
fn frequency_none_when_policies_report_zero() {
    let mut fixture = cpufreq_fixture();
    fixture.file(
        "/sys/devices/system/cpu/cpufreq/policy0/scaling_cur_freq",
        "0\n",
    );
    fixture.file(
        "/sys/devices/system/cpu/cpufreq/policy1/scaling_cur_freq",
        "0\n",
    );
    let mut sensors = CpuSensors::default();
    sensors.discover(&fixture);
    assert_eq!(weighted_mhz(&sensors.frequency_samples(&fixture)), None);
}

#[test]
fn frequency_none_without_cpufreq_dir() {
    let fixture = FixtureSys::default();
    let mut sensors = CpuSensors::default();
    sensors.discover(&fixture);
    assert_eq!(weighted_mhz(&sensors.frequency_samples(&fixture)), None);
}

#[test]
fn policy_without_affected_cpus_counts_as_one_cpu() {
    let mut fixture = FixtureSys::default();
    fixture
        .dir_entry("/sys/devices/system/cpu/cpufreq", "policy0", false, true)
        .dir_entry("/sys/devices/system/cpu/cpufreq", "boost", false, false)
        .file(
            "/sys/devices/system/cpu/cpufreq/policy0/scaling_cur_freq",
            "3000000\n",
        );
    let mut sensors = CpuSensors::default();
    sensors.discover(&fixture);
    let layout = sensors.layout().unwrap();
    assert_eq!(layout.freq_policies.len(), 1);
    assert_eq!(layout.freq_policies[0].cpus, vec![0]);
    assert_eq!(sensors.frequency_samples(&fixture), vec![(3_000_000, 1)]);
}

fn hwmon_fixture() -> FixtureSys {
    let mut fixture = FixtureSys::default();
    fixture
        .dir_entry("/sys/class/hwmon", "hwmon0", true, false)
        .dir_entry("/sys/class/hwmon", "hwmon1", true, false)
        .file("/sys/class/hwmon/hwmon0/name", "coretemp\n")
        .file("/sys/class/hwmon/hwmon0/temp1_input", "63000\n")
        .file("/sys/class/hwmon/hwmon0/temp1_label", "Package id 0\n")
        .file("/sys/class/hwmon/hwmon0/temp2_input", "55000\n")
        .file("/sys/class/hwmon/hwmon0/temp2_label", "Core 0\n")
        .file("/sys/class/hwmon/hwmon1/name", "nvme\n")
        .file("/sys/class/hwmon/hwmon1/temp1_input", "49000\n")
        .dir_entry("/sys/class/hwmon/hwmon0", "name", false, false)
        .dir_entry("/sys/class/hwmon/hwmon0", "temp1_input", false, false)
        .dir_entry("/sys/class/hwmon/hwmon0", "temp1_label", false, false)
        .dir_entry("/sys/class/hwmon/hwmon0", "temp2_input", false, false)
        .dir_entry("/sys/class/hwmon/hwmon0", "temp2_label", false, false)
        .dir_entry("/sys/class/hwmon/hwmon1", "name", false, false)
        .dir_entry("/sys/class/hwmon/hwmon1", "temp1_input", false, false);
    fixture
}

#[test]
fn temperature_prefers_package_sensor_and_skips_non_cpu() {
    let fixture = hwmon_fixture();
    let mut sensors = CpuSensors::default();
    sensors.discover(&fixture);
    assert_eq!(sensors.temperature_millic(&fixture), Some(63_000));
    assert_eq!(sensors.temperature_millic(&fixture).map(|m| m as f64 / 1000.0), Some(63.0));
    let layout = sensors.layout().unwrap();
    assert_eq!(layout.temp_sensors.len(), 2);
    assert!(layout.temp_sensors[0].preferred);
    assert!(!layout.temp_sensors[1].preferred);
    assert_eq!(layout.temp_sensors[1].path, "/sys/class/hwmon/hwmon0/temp2_input");
}

#[test]
fn temperature_ignores_impossible_values_and_falls_back_to_core() {
    let mut fixture = hwmon_fixture();
    fixture.file("/sys/class/hwmon/hwmon0/temp1_input", "-100000\n");
    let mut sensors = CpuSensors::default();
    sensors.discover(&fixture);
    assert_eq!(sensors.temperature_millic(&fixture), Some(55_000));
}

#[test]
fn temperature_ignores_readings_above_150_celsius() {
    let mut fixture = hwmon_fixture();
    fixture.file("/sys/class/hwmon/hwmon0/temp1_input", "150001\n");
    let mut sensors = CpuSensors::default();
    sensors.discover(&fixture);
    assert_eq!(sensors.temperature_millic(&fixture), Some(55_000));
    fixture.file("/sys/class/hwmon/hwmon0/temp1_input", "150000\n");
    assert_eq!(sensors.temperature_millic(&fixture), Some(150_000));
}

#[test]
fn temperature_none_without_cpu_hwmon() {
    let mut fixture = FixtureSys::default();
    fixture
        .dir_entry("/sys/class/hwmon", "hwmon0", true, false)
        .file("/sys/class/hwmon/hwmon0/name", "nvme\n")
        .file("/sys/class/hwmon/hwmon0/temp1_input", "49000\n")
        .dir_entry("/sys/class/hwmon/hwmon0", "name", false, false)
        .dir_entry("/sys/class/hwmon/hwmon0", "temp1_input", false, false);
    let mut sensors = CpuSensors::default();
    sensors.discover(&fixture);
    assert_eq!(sensors.temperature_millic(&fixture), None);
}

#[test]
fn rapl_watts_delta_math_and_reset_clamp() {
    // 250_000 µJ over 50_000 µs (50 ms) = 5 W.
    assert_eq!(rapl_power(1_000_000, 1_250_000, 50_000), (250_000, 50_000));
    // Counter reset (read lower than baseline) clamps to 0 W.
    assert_eq!(rapl_power(1_000_000, 100, 50_000), (0, 1));
    // Zero window guards against divide-by-zero.
    assert_eq!(rapl_power(1_000_000, 1_250_000, 0), (0, 1));
    assert!((watts(rapl_power(1_000_000, 1_250_000, 50_000)) - 5.0).abs() < 0.001);
    assert_eq!(watts(rapl_power(1_000_000, 100, 50_000)), 0.0);
    assert_eq!(watts(rapl_power(1_000_000, 1_250_000, 0)), 0.0);
}

fn watts(r: (u64, u64)) -> f64 {
    r.0 as f64 / r.1 as f64
}

/// First readable package energy counter, as the power sampler reads it.
fn first_energy(sensors: &CpuSensors, fixture: &FixtureSys) -> Option<u64> {
    sensors
        .layout()?
        .power_zones
        .iter()
        .find_map(|zone| zone.read_energy_uj(fixture))
}

#[test]
fn power_none_without_rapl() {
    let fixture = FixtureSys::default();
    let mut sensors = CpuSensors::default();
    sensors.discover(&fixture);
    assert_eq!(first_energy(&sensors, &fixture), None);
}

#[test]
fn power_none_when_energy_counter_unreadable() {
    let fixture = rapl_fixture();
    let mut sensors = CpuSensors::default();
    sensors.discover(&fixture);
    assert_eq!(sensors.layout().unwrap().power_zones.len(), 1);
    assert_eq!(first_energy(&sensors, &fixture), None);
}

#[test]
fn energy_counter_is_read_from_the_package_zone() {
    let mut fixture = rapl_fixture();
    fixture.file("/sys/class/powercap/intel-rapl:0/energy_uj", "1250000\n");
    let mut sensors = CpuSensors::default();
    sensors.discover(&fixture);
    assert_eq!(first_energy(&sensors, &fixture), Some(1_250_000));
}

fn rapl_fixture() -> FixtureSys {
    let mut fixture = FixtureSys::default();
    fixture
        .dir_entry("/sys/class/powercap", "intel-rapl:0", true, false)
        .dir_entry("/sys/class/powercap", "intel-rapl:0:0", true, false)
        .file("/sys/class/powercap/intel-rapl:0/name", "package-0\n")
        .file(
            "/sys/class/powercap/intel-rapl:0/max_energy_range_uj",
            "262143328850\n",
        )
        .file("/sys/class/powercap/intel-rapl:0:0/name", "core\n");
    fixture
}

#[test]
fn power_discovers_package_zone_and_ignores_subzones_and_mmio() {
    let mut fixture = rapl_fixture();
    fixture
        .dir_entry("/sys/class/powercap", "intel-rapl-mmio:0", true, false)
        .file("/sys/class/powercap/intel-rapl-mmio:0/name", "package-0\n")
        .file(
            "/sys/class/powercap/intel-rapl-mmio:0/max_energy_range_uj",
            "262143328850\n",
        );
    let mut sensors = CpuSensors::default();
    sensors.discover(&fixture);
    // Only the non-MMIO package zone is kept (core sub-zone + MMIO dropped).
    let layout = sensors.layout().unwrap();
    assert_eq!(layout.power_zones.len(), 1);
    let name: String = file_name_of(&layout.power_zones[0].dir)
        .unwrap()
        .into_iter()
        .collect();
    assert_eq!(name, "intel-rapl:0");
}

#[test]
fn power_zone_window_follows_legacy_udelay() {
    let mut fixture = rapl_fixture();
    fixture.file("/sys/class/powercap/intel-rapl:0/udelay", "2001\n");
    let mut sensors = CpuSensors::default();
    sensors.discover(&fixture);
    let layout = sensors.layout().unwrap();
    assert_eq!(layout.power_zones[0].window_us, 1000);
    assert_eq!(
        layout.power_zones[0].energy_path(),
        "/sys/class/powercap/intel-rapl:0/energy_uj"
    );
    fixture.file("/sys/class/powercap/intel-rapl:0/udelay", "999999999\n");
    sensors.discover(&fixture);
    assert_eq!(sensors.layout().unwrap().power_zones[0].window_us, 50_000);
}

#[test]
fn power_zone_needs_a_bounded_window() {
    let mut fixture = FixtureSys::default();
    fixture
        .dir_entry("/sys/class/powercap", "intel-rapl:0", true, false)
        .file("/sys/class/powercap/intel-rapl:0/name", "package-0\n");
    let mut sensors = CpuSensors::default();
    sensors.discover(&fixture);
    assert!(sensors.layout().unwrap().power_zones.is_empty());
}

#[test]
fn hwmon_and_powercap_entries_are_symlinks_and_still_discovered() {
    let mut fixture = FixtureSys::default();
    fixture
        .dir_entry("/sys/class/hwmon", "hwmon0", false, true)
        .file("/sys/class/hwmon/hwmon0/name", "coretemp\n")
        .file("/sys/class/hwmon/hwmon0/temp1_input", "63000\n")
        .file("/sys/class/hwmon/hwmon0/temp1_label", "Package id 0\n")
        .dir_entry("/sys/class/hwmon/hwmon0", "temp1_input", false, false)
        .dir_entry("/sys/class/powercap", "intel-rapl:0", false, true)
        .file("/sys/class/powercap/intel-rapl:0/name", "package-0\n")
        .file(
            "/sys/class/powercap/intel-rapl:0/max_energy_range_uj",
            "262143328850\n",
        );
    let mut sensors = CpuSensors::default();
    sensors.discover(&fixture);
    assert_eq!(sensors.temperature_millic(&fixture), Some(63_000));
    assert_eq!(sensors.layout().unwrap().power_zones.len(), 1);
}

#[test]
fn layout_absent_before_discovery() {
    let sensors = CpuSensors::default();
    assert!(sensors.layout().is_none());
    assert_eq!(sensors.temperature_millic(&FixtureSys::default()), None);
}

#[test]
fn cpu_list_parser_rejects_empty_input() {
    assert_eq!(parse_cpu_list("  "), None);
    assert_eq!(parse_cpu_list("1,3,5-7"), Some(vec![1, 3, 5, 6, 7]));
}
