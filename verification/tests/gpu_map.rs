use orsiktop::discovery::DiscoveredGpu;
use orsiktop::domain::{normalize_pci_bdf, DeviceId, GpuEvidence, GpuMapping, GpuVendor};
use orsiktop::gpu_map::{
    bdf_from_by_path_name, combine_gpus, is_bdf, map_server_gpus, nvml_compute_keys,
    process_render_gpus,
};
use orsiktop::system::FixtureSys;

fn add_gpu(sys: &mut FixtureSys, card: &str, bdf: &str, render: &str) {
    let pci = format!("/sys/devices/pci0000:00/{bdf}");
    sys.file(format!("{pci}/vendor").as_str(), "0x1002\n");
    sys.file(format!("{pci}/device").as_str(), "0x74a0\n");
    sys.file(format!("{pci}/class").as_str(), "0x030000\n");
    sys.symlink(
        "/sys/class/drm/renderD128",
        &format!("../../devices/pci0000:00/{bdf}/drm/renderD128"),
    );
    sys.dir_entry("/sys/class/drm", "renderD128", false, true);
    sys.dir_entry("/sys/class/drm", card, false, true);
    sys.symlink(
        format!("/sys/class/drm/{card}").as_str(),
        &format!("../../devices/pci0000:00/{bdf}/drm/{card}"),
    );
    sys.dir_entry("/dev/dri/by-path", &format!("pci-{bdf}-render"), false, true);
    sys.symlink(
        format!("/dev/dri/by-path/pci-{bdf}-render").as_str(),
        &format!("/dev/dri/{render}"),
    );
    sys.dir_entry("/dev/dri", render, false, true);
}

fn gpu_list(bdfs: &[&str]) -> Vec<DiscoveredGpu> {
    bdfs.iter()
        .enumerate()
        .map(|(i, bdf)| DiscoveredGpu {
            card: format!("card{i}"),
            device_id: DeviceId::new(Some(bdf.to_string()), None),
            vendor: GpuVendor::Amd,
            pci_vendor_id: 0x1002,
            pci_device_id: 0x74a0,
            pci_class_code: 0x030000,
            driver: "amdgpu".to_string(),
            render_node: Some(format!("renderD{}", 128 + i)),
            outputs: Vec::new(),
        })
        .collect()
}

#[test]
fn render_fd_maps_process_to_single_gpu() {
    let mut sys = FixtureSys::default();
    add_gpu(&mut sys, "card0", "0000:01:00.0", "renderD128");
    let gpus = gpu_list(&["0000:01:00.0"]);

    sys.dir_entry("/proc/4242/fd", "7", false, false);
    sys.symlink("/proc/4242/fd/7", "/dev/dri/by-path/pci-0000:01:00.0-render");

    let render = process_render_gpus(&sys, 4242, &gpus);
    assert_eq!(render, vec![DeviceId::new(Some("0000:01:00.0".into()), None)]);

    let mapping = map_server_gpus(true, render, vec![], &gpus);
    let GpuMapping::Single(device) = mapping else {
        panic!("expected Single, got {mapping:?}");
    };
    assert_eq!(device.key(), "0000:01:00.0");
    assert_eq!(device.evidence, GpuEvidence::RenderNodeFd);
    assert_eq!(device.name, "card0");
    assert_eq!(device.vendor, GpuVendor::Amd);
}

#[test]
fn render_fd_by_render_node_name_maps_to_gpu() {
    let mut sys = FixtureSys::default();
    add_gpu(&mut sys, "card0", "0000:01:00.0", "renderD128");
    let gpus = gpu_list(&["0000:01:00.0"]);

    sys.dir_entry("/proc/4242/fd", "7", false, false);
    sys.symlink("/proc/4242/fd/7", "/dev/dri/renderD128");

    let render = process_render_gpus(&sys, 4242, &gpus);
    assert_eq!(render, vec![DeviceId::new(Some("0000:01:00.0".into()), None)]);
}

#[test]
fn no_open_render_fd_yields_no_evidence() {
    let mut sys = FixtureSys::default();
    add_gpu(&mut sys, "card0", "0000:01:00.0", "renderD128");
    let gpus = gpu_list(&["0000:01:00.0"]);

    sys.dir_entry("/proc/4242/fd", "0", false, false);
    sys.symlink("/proc/4242/fd/0", "/dev/null");

    let render = process_render_gpus(&sys, 4242, &gpus);
    assert!(render.is_empty());
    assert_eq!(map_server_gpus(true, render, vec![], &gpus), GpuMapping::Unknown);
}

#[test]
fn process_without_fd_dir_is_unknown() {
    let mut sys = FixtureSys::default();
    add_gpu(&mut sys, "card0", "0000:01:00.0", "renderD128");
    let gpus = gpu_list(&["0000:01:00.0"]);

    let render = process_render_gpus(&sys, 9999, &gpus);
    assert!(render.is_empty());
    assert_eq!(map_server_gpus(true, render, vec![], &gpus), GpuMapping::Unknown);
}

#[test]
fn server_not_running_is_unknown_even_with_evidence() {
    let mut sys = FixtureSys::default();
    add_gpu(&mut sys, "card0", "0000:01:00.0", "renderD128");
    let gpus = gpu_list(&["0000:01:00.0"]);
    sys.dir_entry("/proc/4242/fd", "7", false, false);
    sys.symlink("/proc/4242/fd/7", "/dev/dri/by-path/pci-0000:01:00.0-render");
    let render = process_render_gpus(&sys, 4242, &gpus);
    assert_eq!(map_server_gpus(false, render, vec![], &gpus), GpuMapping::Unknown);
}

#[test]
fn multi_gpu_when_process_opens_two_render_nodes() {
    let mut sys = FixtureSys::default();
    add_gpu(&mut sys, "card0", "0000:01:00.0", "renderD128");
    add_gpu(&mut sys, "card1", "0000:02:00.0", "renderD129");
    let gpus = gpu_list(&["0000:01:00.0", "0000:02:00.0"]);

    sys.dir_entry("/proc/4242/fd", "7", false, false);
    sys.symlink("/proc/4242/fd/7", "/dev/dri/by-path/pci-0000:01:00.0-render");
    sys.dir_entry("/proc/4242/fd", "8", false, false);
    sys.symlink("/proc/4242/fd/8", "/dev/dri/by-path/pci-0000:02:00.0-render");

    let render = process_render_gpus(&sys, 4242, &gpus);
    assert_eq!(render.len(), 2);
    let mapping = map_server_gpus(true, render, vec![], &gpus);
    let GpuMapping::Multi(devices) = mapping else {
        panic!("expected Multi, got {mapping:?}");
    };
    assert_eq!(devices.len(), 2);
    assert_eq!(devices[0].key(), "0000:01:00.0");
    assert_eq!(devices[1].key(), "0000:02:00.0");
}

#[test]
fn nvml_evidence_alone_maps_single_gpu() {
    let gpus = gpu_list(&["0000:41:00.0"]);
    let mapping = map_server_gpus(true, vec![], vec!["0000:41:00.0".into()], &gpus);
    let GpuMapping::Single(device) = mapping else {
        panic!("expected Single, got {mapping:?}");
    };
    assert_eq!(device.key(), "0000:41:00.0");
    assert_eq!(device.evidence, GpuEvidence::NvmlCompute);
}

#[test]
fn nvml_eight_digit_bdf_unifies_with_discovered_device() {
    let gpus = gpu_list(&["0000:41:00.0"]);
    let nvml = vec![normalize_pci_bdf("00000000:41:00.0")];
    let mapping = map_server_gpus(true, vec![], nvml, &gpus);
    let GpuMapping::Single(device) = mapping else {
        panic!("expected Single, got {mapping:?}");
    };
    assert_eq!(device.key(), "0000:41:00.0");
    assert_eq!(device.evidence, GpuEvidence::NvmlCompute);
    assert_eq!(device.name, "card0");
    assert_eq!(device.vendor, GpuVendor::Amd);
}

#[test]
fn nvml_uuid_evidence_maps_single_gpu() {
    let gpus = Vec::new();
    let mapping = map_server_gpus(true, vec![], vec!["GPU-abc123".into()], &gpus);
    let GpuMapping::Single(device) = mapping else {
        panic!("expected Single, got {mapping:?}");
    };
    assert_eq!(device.key(), "GPU-abc123");
    assert_eq!(device.evidence, GpuEvidence::NvmlCompute);
    assert_eq!(device.vendor, GpuVendor::Unknown);
}

#[test]
fn render_and_nvml_agree_on_same_device() {
    let gpus = gpu_list(&["0000:01:00.0"]);
    let render = vec![DeviceId::new(Some("0000:01:00.0".into()), None)];
    let nvml = vec!["0000:01:00.0".to_string()];
    let mapping = map_server_gpus(true, render, nvml, &gpus);
    let GpuMapping::Single(device) = mapping else {
        panic!("expected Single, got {mapping:?}");
    };
    assert_eq!(device.key(), "0000:01:00.0");
    assert_eq!(device.evidence, GpuEvidence::RenderNodeFd);
}

#[test]
fn nvml_multi_device_yields_multi() {
    let gpus = gpu_list(&["0000:41:00.0", "0000:42:00.0"]);
    let nvml = vec!["0000:41:00.0".into(), "0000:42:00.0".into()];
    let mapping = map_server_gpus(true, vec![], nvml, &gpus);
    let GpuMapping::Multi(devices) = mapping else {
        panic!("expected Multi, got {mapping:?}");
    };
    assert_eq!(devices.len(), 2);
}

#[test]
fn combine_dedupes_by_stable_key() {
    let gpus = gpu_list(&["0000:01:00.0"]);
    let render = vec![DeviceId::new(Some("0000:01:00.0".into()), None)];
    let nvml = vec!["0000:01:00.0".to_string()];
    let combined = combine_gpus(render, nvml, &gpus);
    assert_eq!(combined.len(), Some(1));
}

#[test]
fn bdf_parser_rejects_malformed_names() {
    assert_eq!(
        bdf_from_by_path_name("pci-0000:01:00.0-render").as_deref(),
        Some("0000:01:00.0")
    );
    assert_eq!(
        bdf_from_by_path_name("pci-0000:01:00.0-card").as_deref(),
        Some("0000:01:00.0")
    );
    assert_eq!(bdf_from_by_path_name("platform-fd500000.gpu"), None);
    assert_eq!(bdf_from_by_path_name("pci-0:1.0-render"), None);
    assert_eq!(bdf_from_by_path_name("pci-0000:01:00.8-render"), None);
    assert_eq!(bdf_from_by_path_name("renderD128"), None);
}

#[test]
fn unkeyed_render_devices_are_not_merged() {
    let render = vec![DeviceId::new(None, None), DeviceId::new(None, None)];
    let combined = combine_gpus(render, vec![], &[]);
    assert_eq!(combined.len(), Some(2));
}

#[test]
fn render_evidence_wins_when_nvml_comes_first_in_the_key_order() {
    let gpus = gpu_list(&["0000:01:00.0", "0000:02:00.0"]);
    let render = vec![DeviceId::new(Some("0000:02:00.0".into()), None)];
    let nvml = vec!["0000:01:00.0".to_string(), "0000:02:00.0".to_string()];
    let GpuMapping::Multi(devices) = combine_gpus(render, nvml, &gpus) else {
        panic!("expected Multi");
    };
    assert_eq!(devices[0].evidence, GpuEvidence::NvmlCompute);
    assert_eq!(devices[1].evidence, GpuEvidence::RenderNodeFd);
    assert_eq!(devices[1].name, "card1");
}

#[test]
fn nvml_keys_prefer_normalized_bus_ids() {
    let devices = vec![
        (vec![1, 42], Some("00000000:41:00.0".to_string()), Some("GPU-a".to_string())),
        (vec![7], Some("0000:42:00.0".to_string()), None),
        (vec![42], None, Some("GPU-c".to_string())),
        (vec![42], None, None),
    ];
    assert_eq!(
        nvml_compute_keys(&devices, 42),
        vec!["0000:41:00.0".to_string(), "GPU-c".to_string()]
    );
    assert!(is_bdf("0000:41:00.0"));
    assert!(!is_bdf("GPU-c"));
}
