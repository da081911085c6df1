use orsiktop::discovery::{
    bdf_from_path, discover_gpus, is_display_class, parse_bdf, parse_u16_hex, parse_u32_hex,
    vendor_from_pci_id, GpuVendor,
};
use orsiktop::paths::{components_of, resolve_link};
use orsiktop::system::FixtureSys;

fn add_card(sys: &mut FixtureSys, card: &str, bdf: &str, vendor_id: &str, device_id: &str, driver: &str) {
    let pci = format!("/sys/devices/pci0000:00/{bdf}");
    sys.file(format!("{pci}/vendor").as_str(), &format!("{vendor_id}\n"));
    sys.file(format!("{pci}/device").as_str(), &format!("{device_id}\n"));
    sys.file(format!("{pci}/class").as_str(), "0x030000\n");
    if !driver.is_empty() {
        sys.symlink(
            format!("{pci}/driver").as_str(),
            &format!("../../../bus/pci/drivers/{driver}"),
        );
        sys.symlink(
            "/sys/class/drm/renderD128",
            &format!("../../devices/pci0000:00/{bdf}/drm/renderD128"),
        );
        sys.dir_entry("/sys/class/drm", "renderD128", false, true);
    }
    sys.dir_entry("/sys/class/drm", card, false, true);
    sys.symlink(
        format!("/sys/class/drm/{card}").as_str(),
        &format!("../../devices/pci0000:00/{bdf}/drm/{card}"),
    );
}

fn add_connector(sys: &mut FixtureSys, name: &str, bdf: &str) {
    sys.dir_entry("/sys/class/drm", name, false, true);
    sys.symlink(
        format!("/sys/class/drm/{name}").as_str(),
        &format!("../../devices/pci0000:00/{bdf}/drm/{name}"),
    );
}

#[test]
fn discovers_single_nvidia_card() {
    let mut sys = FixtureSys::default();
    add_card(&mut sys, "card0", "0000:01:00.0", "0x10de", "0x2684", "nvidia");
    add_connector(&mut sys, "card0-DP-1", "0000:01:00.0");

    let gpus = discover_gpus(&sys);
    assert_eq!(gpus.len(), 1);
    let gpu = &gpus[0];
    assert_eq!(gpu.card, "card0");
    assert_eq!(gpu.device_id.key(), "0000:01:00.0");
    assert_eq!(gpu.vendor, GpuVendor::Nvidia);
    assert_eq!(gpu.pci_vendor_id, 0x10de);
    assert_eq!(gpu.pci_device_id, 0x2684);
    assert_eq!(gpu.pci_class_code, 0x030000);
    assert_eq!(gpu.driver, "nvidia");
    assert_eq!(gpu.render_node.as_deref(), Some("renderD128"));
    assert_eq!(gpu.outputs, vec!["card0-DP-1".to_string()]);
}

#[test]
fn discovers_intel_xe_igpu_and_amd_dgpu_sorted_by_bdf() {
    let mut sys = FixtureSys::default();
    add_card(&mut sys, "card0", "0000:65:00.0", "0x1002", "0x74a0", "amdgpu");
    add_card(&mut sys, "card1", "0000:00:02.0", "0x8086", "0x64a0", "xe");
    add_connector(&mut sys, "card1-eDP-1", "0000:00:02.0");

    let gpus = discover_gpus(&sys);
    assert_eq!(
        gpus.iter()
            .map(|gpu| gpu.device_id.key().to_string())
            .collect::<Vec<_>>(),
        vec!["0000:00:02.0", "0000:65:00.0"]
    );
    assert_eq!(gpus[0].vendor, GpuVendor::Intel);
    assert_eq!(gpus[0].pci_vendor_id, 0x8086);
    assert_eq!(gpus[0].driver, "xe");
    assert_eq!(gpus[0].outputs, vec!["card1-eDP-1".to_string()]);
    assert_eq!(gpus[1].vendor, GpuVendor::Amd);
    assert_eq!(gpus[1].driver, "amdgpu");
}

#[test]
fn vendor_falls_back_to_pci_id_when_driver_missing() {
    let mut sys = FixtureSys::default();
    let pci = "/sys/devices/pci0000:00/0000:01:00.0";
    sys.file(format!("{pci}/vendor").as_str(), "0x10de\n");
    sys.file(format!("{pci}/device").as_str(), "0x2684\n");
    sys.file(format!("{pci}/class").as_str(), "0x030000\n");
    sys.dir_entry("/sys/class/drm", "card0", false, true);
    sys.symlink(
        "/sys/class/drm/card0",
        "../../devices/pci0000:00/0000:01:00.0/drm/card0",
    );

    let gpus = discover_gpus(&sys);
    assert_eq!(gpus.len(), 1);
    assert_eq!(gpus[0].vendor, GpuVendor::Nvidia);
    assert_eq!(gpus[0].pci_vendor_id, 0x10de);
    assert_eq!(gpus[0].driver, "");
}

#[test]
fn ignores_non_display_pci_devices() {
    let mut sys = FixtureSys::default();
    add_card(&mut sys, "card0", "0000:02:00.0", "0x8086", "0x1267", "igb");
    sys.file("/sys/devices/pci0000:00/0000:02:00.0/class", "0x020000\n");

    assert!(discover_gpus(&sys).is_empty());
}

#[test]
fn headless_render_only_card_is_still_discovered() {
    let mut sys = FixtureSys::default();
    add_card(&mut sys, "card0", "0000:41:00.0", "0x10de", "0x26b3", "nvidia");

    let gpus = discover_gpus(&sys);
    assert_eq!(gpus.len(), 1);
    assert!(gpus[0].outputs.is_empty());
    assert_eq!(gpus[0].render_node.as_deref(), Some("renderD128"));
}

#[test]
fn parse_bdf_accepts_valid_and_rejects_garbage() {
    assert_eq!(parse_bdf("0000:01:00.0"), Some("0000:01:00.0".to_string()));
    assert_eq!(parse_bdf("0000:01:00.8"), None);
    assert_eq!(parse_bdf("0000:01:00"), None);
    assert_eq!(parse_bdf("0000-01-00-0"), None);
    assert_eq!(parse_bdf("zzzz:01:00.0"), None);
}

#[test]
fn parse_bdf_lowercases_hex_digits() {
    assert_eq!(parse_bdf("0000:0A:00.1"), Some("0000:0a:00.1".to_string()));
}

#[test]
fn resolve_link_handles_relative_and_parent_segments() {
    assert_eq!(
        resolve_link("/sys/class/drm", "../../devices/pci0000:00/0000:00:02.0/drm/card0").as_deref(),
        Some("/sys/devices/pci0000:00/0000:00:02.0/drm/card0")
    );
    assert_eq!(resolve_link("/sys/class/drm", "/abs/path").as_deref(), Some("/abs/path"));
    assert_eq!(resolve_link("/sys/class/drm", "../../..").as_deref(), Some("/"));
    assert_eq!(resolve_link("/a/b", "../../..").as_deref(), Some("/"));
}

#[test]
fn bdf_is_taken_from_the_last_matching_component() {
    let parts = components_of("/sys/devices/pci0000:00/0000:00:01.0/0000:01:00.0");
    assert_eq!(bdf_from_path(&parts).as_deref(), Some("0000:01:00.0"));
    let none = components_of("/sys/devices/platform/gpu");
    assert_eq!(bdf_from_path(&none), None);
}

#[test]
fn pci_ids_and_classes_decode() {
    assert_eq!(vendor_from_pci_id(0x10de), GpuVendor::Nvidia);
    assert_eq!(vendor_from_pci_id(0x1234), GpuVendor::Other);
    assert_eq!(vendor_from_pci_id(0), GpuVendor::Unknown);
    assert_eq!(parse_u16_hex(" 0x10de\n"), Some(0x10de));
    assert_eq!(parse_u16_hex("0x10000"), None);
    assert_eq!(parse_u32_hex("0x030000"), Some(0x030000));
    assert!(is_display_class(0x030200));
    assert!(!is_display_class(0x020000));
}

#[test]
fn missing_drm_class_yields_nothing() {
    let sys = FixtureSys::default();
    assert!(discover_gpus(&sys).is_empty());
}

#[test]
fn discovered_cards_have_lowercase_bdf_and_driver_vendor() {
    let mut sys = FixtureSys::default();
    add_card(&mut sys, "card1", "0000:0A:00.0", "0x10de", "0x2684", "amdgpu");
    add_connector(&mut sys, "card1-HDMI-A-1", "0000:0A:00.0");

    let gpus = discover_gpus(&sys);
    assert_eq!(gpus.len(), 1);
    let gpu = &gpus[0];
    assert_eq!(gpu.card, "card1");
    assert_eq!(gpu.device_id.pci_bdf.as_deref(), Some("0000:0a:00.0"));
    assert_eq!(gpu.device_id.uuid, None);
    assert_eq!(gpu.vendor, GpuVendor::Amd);
    assert_eq!(gpu.pci_class_code, 0x030000);
}
