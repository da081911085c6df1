use orsiktop::diagnostics::{describe_mapping, render, DiagReadings, ProviderReport};
use orsiktop::domain::{DeviceId, GpuEvidence, GpuMapping, GpuVendor, MappedGpu};
use orsiktop::gpu_map::NvmlDeviceInfo;
use orsiktop::server::DEFAULT_SERVER;
use orsiktop::system::FixtureSys;

fn fixture_with_gpu(sys: &mut FixtureSys, card: &str, bdf: &str, render: &str) {
    let pci = format!("/sys/devices/pci0000:00/{bdf}");
    sys.file(format!("{pci}/vendor").as_str(), "0x8086\n");
    sys.file(format!("{pci}/device").as_str(), "0x76a0\n");
    sys.file(format!("{pci}/class").as_str(), "0x030000\n");
    sys.symlink(
        format!("{pci}/driver").as_str(),
        "../../../bus/pci/drivers/xe",
    );
    sys.symlink(
        "/sys/class/drm/renderD128",
        &format!("../../devices/pci0000:00/{bdf}/drm/renderD128"),
    );
    sys.dir_entry("/sys/class/drm", "renderD128", false, true);
    sys.dir_entry("/sys/class/drm", card, false, true);
    sys.symlink(
        format!("/sys/class/drm/{card}").as_str(),
        &format!("../../devices/pci0000:00/{bdf}/drm/{card}"),
    );
    sys.dir_entry(
        "/dev/dri/by-path",
        &format!("pci-{bdf}-render"),
        false,
        true,
    );
    sys.symlink(
        format!("/dev/dri/by-path/pci-{bdf}-render").as_str(),
        &format!("/dev/dri/{render}"),
    );
    sys.dir_entry("/dev/dri", render, false, true);
}

fn server_process(fixture: &mut FixtureSys) {
    fixture.dir_entry("/proc", "4242", false, false);
    fixture.file("/proc/4242/cmdline", "llama-server\0--port\08080\0");
    fixture.dir_entry("/proc/4242/fd", "7", false, false);
    fixture.symlink(
        "/proc/4242/fd/7",
        "/dev/dri/by-path/pci-0000:01:00.0-render",
    );
}

#[test]
fn render_on_empty_sys_is_well_formed() {
    let fixture = FixtureSys::default();
    let out = render(&fixture, 4, true, None, &DiagReadings::default());
    // The report always carries the fixed section headers.
    assert!(
        out.contains("OrsikTop diagnostics\n"),
        "missing header:\n{out}"
    );
    assert!(out.contains("CPU\n"), "missing CPU section:\n{out}");
    assert!(
        out.contains("GPU discovery (DRM sysfs)"),
        "missing GPU section:\n{out}"
    );
    assert!(
        out.contains("CPU sensors"),
        "missing sensors section:\n{out}"
    );
    assert!(out.contains("llama.cpp\n"), "missing llama section:\n{out}");
    // No display-class devices on an empty sysfs.
    assert!(out.contains("no display-class DRM devices found"));
    // Nothing discovered → the default endpoint is selected.
    assert!(
        out.contains(&format!("{DEFAULT_SERVER} (default)")),
        "{out}"
    );
    // No local process → the mapping is explicitly not computed.
    assert!(out.contains("gpu map    : not computed"), "{out}");
}

#[test]
fn render_maps_local_server_process_to_render_gpu() {
    let mut fixture = FixtureSys::default();
    fixture_with_gpu(&mut fixture, "card0", "0000:01:00.0", "renderD128");

    // A llama-server process whose cmdline matches and which holds an
    // open fd on the by-path render node.
    server_process(&mut fixture);

    let out = render(&fixture, 4, true, None, &DiagReadings::default());
    assert!(
        out.contains("candidate[0]: process (pid 4242)"),
        "missing candidate:\n{out}"
    );
    assert!(
        out.contains("endpoint   : http://127.0.0.1:8080 (auto-discovered)"),
        "{out}"
    );
    assert!(
        out.contains("gpu map    : single 0000:01:00.0 (evidence: DRM render-node fd)"),
        "{out}"
    );
}

#[test]
fn mapping_states_are_described_explicitly() {
    assert_eq!(
        describe_mapping(&GpuMapping::NotComputed),
        "not computed (no local server process)"
    );
    assert_eq!(
        describe_mapping(&GpuMapping::Unknown),
        "unknown (insufficient evidence)"
    );
    let single = GpuMapping::Single(MappedGpu {
        device: DeviceId::new(Some("0000:01:00.0".into()), None),
        name: "card0".into(),
        vendor: GpuVendor::Nvidia,
        evidence: GpuEvidence::NvmlCompute,
    });
    assert_eq!(
        describe_mapping(&single),
        "single 0000:01:00.0 (evidence: NVML compute)"
    );
    let multi = GpuMapping::Multi(vec![
        MappedGpu {
            device: DeviceId::new(Some("0000:01:00.0".into()), None),
            name: "card0".into(),
            vendor: GpuVendor::Nvidia,
            evidence: GpuEvidence::NvmlCompute,
        },
        MappedGpu {
            device: DeviceId::new(Some("0000:02:00.0".into()), None),
            name: "card1".into(),
            vendor: GpuVendor::Nvidia,
            evidence: GpuEvidence::NvmlCompute,
        },
    ]);
    assert_eq!(describe_mapping(&multi), "multi (2 devices)");
}

#[test]
fn cpu_section_renders_fixture_topology() {
    let mut fixture = FixtureSys::default();
    fixture.file(
        "/proc/cpuinfo",
        "processor\t: 0\nvendor_id\t: GenuineIntel\nmodel name\t: Core(TM) Ultra 9\n",
    );
    fixture
        .file("/sys/devices/cpu_core/cpus", "0-1")
        .file("/sys/devices/cpu_atom/cpus", "2-3");
    for cpu in 0..4usize {
        fixture.file(
            &format!("/sys/devices/system/cpu/cpu{cpu}/topology/core_cpus_list"),
            &cpu.to_string(),
        );
    }
    let out = render(&fixture, 4, true, None, &DiagReadings::default());
    assert!(out.contains("vendor     : Intel"), "missing vendor:\n{out}");
    assert!(out.contains("classes    : P=2 E=2 LP=0"), "{out}");
    assert!(out.contains("hybrid     : yes (P/E minibar)"), "{out}");
    assert!(out.contains("core kinds : P,P,E,E"), "{out}");
}

#[test]
fn empty_report_is_exact() {
    let fixture = FixtureSys::default();
    let out = render(&fixture, 0, false, None, &DiagReadings::default());
    let expected = "OrsikTop diagnostics\n\
                    \x20 version    : 0.1.0\n\
                    CPU\n\
                    \x20 vendor     : CPU\n\
                    \x20 model      : \n\
                    \x20 logical    : 0 CPUs\n\
                    \x20 physical   : — cores\n\
                    \x20 classes    : P=— E=— LP=—\n\
                    \x20 hybrid     : no\n\
                    GPU discovery (DRM sysfs)\n\
                    \x20 no display-class DRM devices found\n\
                    GPU provider (selector = Auto)\n\
                    \x20 no sample  : no devices to probe\n\
                    \x20 available  : —\n\
                    \x20 unavailable: utilization, memory, temperature, power, clocks, fan, pcie, enc/dec\n\
                    CPU sensors\n\
                    \x20 frequency  : — MHz\n\
                    \x20 temperature: — °C\n\
                    \x20 power      : — W (unavailable)\n\
                    llama.cpp\n\
                    \x20 no local server processes found\n\
                    \x20 endpoint   : http://127.0.0.1:8080 (default)\n\
                    \x20 gpu map    : not computed (no local server process)\n";
    assert_eq!(out, expected);
}

#[test]
fn gpu_lines_show_pci_ids_in_fixed_width_hex() {
    let mut fixture = FixtureSys::default();
    fixture_with_gpu(&mut fixture, "card0", "0000:01:00.0", "renderD128");
    let out = render(&fixture, 4, true, None, &DiagReadings::default());
    assert!(
        out.contains("  [0] card0 0000:01:00.0 vendor=intel\n"),
        "{out}"
    );
    assert!(
        out.contains("       pci 8086:76a0 class=00030000 driver=xe render=renderD128\n"),
        "{out}"
    );
    // A GPU but no sample: the provider's error is shown.
    assert!(out.contains("  no sample  : <no error>\n"), "{out}");
}

#[test]
fn provider_sample_and_cpu_readings_are_shown() {
    let mut fixture = FixtureSys::default();
    fixture
        .dir_entry("/sys/class/hwmon", "hwmon0", true, false)
        .file("/sys/class/hwmon/hwmon0/name", "k10temp\n")
        .file("/sys/class/hwmon/hwmon0/temp1_input", "62500\n")
        .file("/sys/class/hwmon/hwmon0/temp1_label", "Tctl\n")
        .dir_entry("/sys/class/hwmon/hwmon0", "temp1_input", false, false);
    let readings = DiagReadings {
        provider: ProviderReport {
            available: true,
            name: String::new(),
            utilization: Some("37%".into()),
            temperature: None,
            power: Some("12.5W".into()),
            error: String::new(),
            has_memory: true,
            has_clocks: false,
            has_fan: false,
            has_pcie: true,
            has_codec: false,
        },
        cpu_frequency: Some("2400".into()),
        cpu_power: Some("15.2".into()),
        nvml: None,
    };
    let out = render(&fixture, 2, false, Some("http://10.0.0.2:9000"), &readings);
    assert!(out.contains("  device     : <unnamed>\n"), "{out}");
    assert!(
        out.contains("  utilization: 37%  temperature: —  power: 12.5W\n"),
        "{out}"
    );
    assert!(
        out.contains("  available  : utilization, memory, power, pcie\n"),
        "{out}"
    );
    assert!(
        out.contains("  unavailable: temperature, clocks, fan, enc/dec\n"),
        "{out}"
    );
    assert!(out.contains("  frequency  : 2400 MHz\n"), "{out}");
    // 62.5 °C rounds to the even neighbour.
    assert!(out.contains("  temperature: 62 °C\n"), "{out}");
    assert!(out.contains("  power      : 15.2 W\n"), "{out}");
    assert!(
        out.contains("  candidate[0]: configured http://10.0.0.2:9000\n"),
        "{out}"
    );
    assert!(
        out.contains("  endpoint   : http://10.0.0.2:9000 (configured)\n"),
        "{out}"
    );
}

#[test]
fn nvml_evidence_joins_render_evidence_in_the_mapping() {
    let mut fixture = FixtureSys::default();
    fixture_with_gpu(&mut fixture, "card0", "0000:01:00.0", "renderD128");
    server_process(&mut fixture);
    let nvml: Vec<NvmlDeviceInfo> = vec![(
        vec![4242],
        Some("00000000:02:00.0".to_string()),
        None,
    )];
    let readings = DiagReadings {
        nvml: Some(nvml),
        ..DiagReadings::default()
    };
    let out = render(&fixture, 4, true, None, &readings);
    assert!(out.contains("gpu map    : multi (2 devices)"), "{out}");
}

#[test]
fn report_never_prints_command_lines() {
    let mut sys = FixtureSys::default();
    sys.dir_entry("/proc", "4242", false, false);
    sys.file(
        "/proc/4242/cmdline",
        "llama-server\0--port\08080\0--api-key\0hunter2\0",
    );
    let out = render(&sys, 4, true, None, &DiagReadings::default());
    assert!(!out.contains("hunter2"));
    assert!(out.contains("candidate[0]: process (pid 4242)"));
}
