use orsiktop::discovery::DiscoveredGpu;
use orsiktop::domain::{DeviceId, GpuSelector, GpuVendor};
use orsiktop::gpu::{choose_backend, resolve_discovered, Backend};

fn gpu(vendor: GpuVendor, bdf: &str) -> DiscoveredGpu {
    DiscoveredGpu {
        card: "card0".to_string(),
        device_id: DeviceId::new(Some(bdf.to_string()), None),
        vendor,
        pci_vendor_id: 0,
        pci_device_id: 0,
        pci_class_code: 0x030000,
        driver: String::new(),
        render_node: None,
        outputs: Vec::new(),
    }
}

#[test]
fn resolves_selector_against_discovered_gpus() {
    let gpus = vec![
        gpu(GpuVendor::Intel, "0000:00:02.0"),
        gpu(GpuVendor::Amd, "0000:01:00.0"),
        gpu(GpuVendor::Nvidia, "0000:41:00.0"),
    ];

    let (index, picked) = resolve_discovered(&GpuSelector::Auto, &gpus).unwrap();
    assert_eq!(index, 2);
    assert_eq!(picked.vendor, GpuVendor::Nvidia);

    assert_eq!(
        resolve_discovered(&GpuSelector::Index(0), &gpus).map(|(i, g)| (i, g.vendor)),
        Some((2, GpuVendor::Nvidia))
    );
    assert_eq!(resolve_discovered(&GpuSelector::Index(1), &gpus), None);

    assert_eq!(
        resolve_discovered(&GpuSelector::PciBusId("0000:01:00.0".to_string()), &gpus)
            .map(|(i, g)| (i, g.vendor)),
        Some((1, GpuVendor::Amd))
    );
    assert_eq!(
        resolve_discovered(&GpuSelector::PciBusId("0000:99:00.0".to_string()), &gpus,),
        None
    );

    assert_eq!(
        resolve_discovered(&GpuSelector::Uuid("GPU-abc".to_string()), &gpus),
        None
    );

    let none: Vec<DiscoveredGpu> = Vec::new();
    assert_eq!(resolve_discovered(&GpuSelector::Auto, &none), None);
}

#[test]
fn auto_falls_back_to_first_device_without_nvidia() {
    let gpus = vec![
        gpu(GpuVendor::Intel, "0000:00:02.0"),
        gpu(GpuVendor::Amd, "0000:01:00.0"),
    ];
    let (index, picked) = resolve_discovered(&GpuSelector::Auto, &gpus).unwrap();
    assert_eq!(index, 0);
    assert_eq!(picked.vendor, GpuVendor::Intel);
}

#[test]
fn index_selects_the_nth_nvidia_on_igpu_dgpu_machines() {
    let gpus = vec![
        gpu(GpuVendor::Intel, "0000:00:02.0"),
        gpu(GpuVendor::Nvidia, "0000:01:00.0"),
    ];
    assert_eq!(
        resolve_discovered(&GpuSelector::Index(0), &gpus).map(|(i, g)| (i, g.vendor)),
        Some((1, GpuVendor::Nvidia))
    );
    assert_eq!(resolve_discovered(&GpuSelector::Index(1), &gpus), None);

    let dual = vec![
        gpu(GpuVendor::Intel, "0000:00:02.0"),
        gpu(GpuVendor::Nvidia, "0000:01:00.0"),
        gpu(GpuVendor::Nvidia, "0000:41:00.0"),
    ];
    assert_eq!(
        resolve_discovered(&GpuSelector::Index(0), &dual).map(|(i, _)| i),
        Some(1)
    );
    assert_eq!(
        resolve_discovered(&GpuSelector::Index(1), &dual).map(|(i, _)| i),
        Some(2)
    );
    assert_eq!(resolve_discovered(&GpuSelector::Index(2), &dual), None);

    let no_nvidia = vec![
        gpu(GpuVendor::Intel, "0000:00:02.0"),
        gpu(GpuVendor::Amd, "0000:01:00.0"),
    ];
    assert_eq!(
        resolve_discovered(&GpuSelector::Index(0), &no_nvidia).map(|(i, g)| (i, g.vendor)),
        Some((0, GpuVendor::Intel))
    );
    assert_eq!(
        resolve_discovered(&GpuSelector::Index(1), &no_nvidia).map(|(i, g)| (i, g.vendor)),
        Some((1, GpuVendor::Amd))
    );
    assert_eq!(resolve_discovered(&GpuSelector::Index(2), &no_nvidia), None);
}

#[test]
fn dispatch_reports_explicit_errors_for_unbacked_vendors() {
    // Nothing discovered: no match.
    assert_eq!(choose_backend(&GpuSelector::Auto, &[]), Backend::NoMatch);

    // A vendor without a backend is reported as such, for that device.
    let gpus = vec![gpu(GpuVendor::Other, "0000:00:02.0")];
    assert_eq!(choose_backend(&GpuSelector::Auto, &gpus), Backend::Unbacked(0));
    assert_eq!(gpus[0].device_id.key(), "0000:00:02.0");

    // An AMD device goes to the AMD backend, not the error path.
    let gpus = vec![gpu(GpuVendor::Amd, "0000:01:00.0")];
    assert_eq!(choose_backend(&GpuSelector::Auto, &gpus), Backend::Amd(0));
}

#[test]
fn backend_follows_the_selected_vendor() {
    let gpus = vec![
        gpu(GpuVendor::Intel, "0000:00:02.0"),
        gpu(GpuVendor::Nvidia, "0000:41:00.0"),
    ];
    assert_eq!(choose_backend(&GpuSelector::Auto, &gpus), Backend::Nvidia);
    assert_eq!(
        choose_backend(&GpuSelector::PciBusId("0000:00:02.0".to_string()), &gpus),
        Backend::Intel(0)
    );
    assert_eq!(
        choose_backend(&GpuSelector::Uuid("GPU-1234".to_string()), &[]),
        Backend::Nvidia
    );
    assert_eq!(
        choose_backend(&GpuSelector::PciBusId("0000:09:00.0".to_string()), &gpus),
        Backend::NoMatch
    );
}
