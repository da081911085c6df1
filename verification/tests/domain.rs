use orsiktop::domain::{
    is_mig_uuid, normalize_pci_bdf, DeviceId, GpuEvidence, GpuMapping, GpuSelector, GpuVendor,
    MappedGpu, Metric,
};

#[test]
fn metric_distinguishes_available_from_unavailable_states() {
    assert_eq!(Metric::available(42).value(), Some(&42));
    assert!(Metric::available(0).is_live());
    assert_eq!(Metric::<f64>::stale(1.5).value(), Some(&1.5));
    assert!(!Metric::<f64>::stale(1.5).is_live());

    for metric in [
        Metric::<u8>::unsupported(),
        Metric::<u8>::unavailable(),
        Metric::<u8>::permission_denied(),
        Metric::<u8>::error("no such sensor".to_string()),
    ] {
        assert!(metric.is_unavailable());
        assert_eq!(metric.value(), None);
    }
    assert_eq!(Metric::default(), Metric::<u8>::unsupported());
}

#[test]
fn device_id_prefers_bdf_over_uuid() {
    let id = DeviceId::new(Some("0000:01:00.0".into()), Some("GPU-abc".into()));
    assert_eq!(id.key(), "0000:01:00.0");

    let uuid_only = DeviceId::new(None, Some("GPU-abc".into()));
    assert_eq!(uuid_only.key(), "GPU-abc");

    assert_eq!(uuid_only, DeviceId::new(None, Some("GPU-abc".into())));
}

#[test]
fn gpu_selector_parses_and_resolves() {
    assert_eq!(GpuSelector::parse(""), GpuSelector::Auto);
    assert_eq!(GpuSelector::parse("  "), GpuSelector::Auto);
    assert_eq!(GpuSelector::parse("2"), GpuSelector::Index(2));
    assert_eq!(
        GpuSelector::parse("GPU-1a2b3c"),
        GpuSelector::Uuid("GPU-1a2b3c".to_string())
    );
    assert_eq!(
        GpuSelector::parse("0000:41:00.0"),
        GpuSelector::PciBusId("0000:41:00.0".to_string())
    );
    assert_eq!(GpuSelector::default(), GpuSelector::Auto);

    let devices = vec![
        (
            0,
            Some("GPU-a".to_string()),
            Some("0000:01:00.0".to_string()),
        ),
        (
            1,
            Some("GPU-b".to_string()),
            Some("0000:41:00.0".to_string()),
        ),
    ];
    assert_eq!(GpuSelector::Auto.resolve(&devices), Some(0));
    assert_eq!(GpuSelector::Index(1).resolve(&devices), Some(1));
    assert_eq!(GpuSelector::Index(9).resolve(&devices), None);
    assert_eq!(
        GpuSelector::Uuid("GPU-b".to_string()).resolve(&devices),
        Some(1)
    );
    assert_eq!(
        GpuSelector::PciBusId("0000:01:00.0".to_string()).resolve(&devices),
        Some(0)
    );
    assert_eq!(
        GpuSelector::PciBusId("0000:99:00.0".to_string()).resolve(&devices),
        None
    );
    assert_eq!(GpuSelector::Auto.resolve(&[]), None);
}

#[test]
fn normalize_pci_bdf_canonicalizes_nvml_eight_digit_domain() {
    assert_eq!(normalize_pci_bdf("00000000:01:00.0"), "0000:01:00.0");
    assert_eq!(normalize_pci_bdf("00000000:41:00.1"), "0000:41:00.1");
    assert_eq!(normalize_pci_bdf("0000:01:00.0"), "0000:01:00.0");
    assert_eq!(normalize_pci_bdf("00010000:01:00.0"), "00010000:01:00.0");
    assert_eq!(normalize_pci_bdf("0000ffff:01:00.0"), "ffff:01:00.0");
    assert_eq!(normalize_pci_bdf("00000000:01:00"), "00000000:01:00");
    assert_eq!(normalize_pci_bdf("000000000:01:00.0"), "000000000:01:00.0");
    assert_eq!(normalize_pci_bdf("not-a-bdf"), "not-a-bdf");
    assert_eq!(normalize_pci_bdf(""), "");
}

#[test]
fn device_id_normalizes_eight_digit_bdf_at_ingress() {
    let nvml_form = DeviceId::new(Some("00000000:01:00.0".into()), None);
    let sysfs_form = DeviceId::new(Some("0000:01:00.0".into()), None);
    assert_eq!(nvml_form.key(), sysfs_form.key());
    assert_eq!(nvml_form, sysfs_form);
}

#[test]
fn gpu_selector_sanitizes_eight_digit_pci_bus_id() {
    assert_eq!(
        GpuSelector::parse("0000:41:00.0").sanitized(),
        GpuSelector::PciBusId("0000:41:00.0".to_string())
    );
    assert_eq!(
        GpuSelector::parse("00000000:41:00.0").sanitized(),
        GpuSelector::PciBusId("0000:41:00.0".to_string())
    );
}

fn mapped(bdf: &str) -> MappedGpu {
    MappedGpu {
        device: DeviceId::new(Some(bdf.into()), None),
        name: "card0".into(),
        vendor: GpuVendor::Amd,
        evidence: GpuEvidence::RenderNodeFd,
    }
}

#[test]
fn gpu_mapping_states_are_explicit() {
    let default = GpuMapping::default();
    assert!(matches!(default, GpuMapping::NotComputed));
    assert_ne!(default, GpuMapping::Unknown);

    assert!(default.is_empty());
    assert!(GpuMapping::Unknown.is_empty());
    assert_eq!(default.len(), Some(0));
    assert_eq!(GpuMapping::Unknown.len(), None);

    assert_eq!(GpuMapping::Single(mapped("0000:01:00.0")).len(), Some(1));
    assert!(!GpuMapping::Single(mapped("0000:01:00.0")).is_empty());
    assert_eq!(
        GpuMapping::Multi(vec![mapped("0000:01:00.0"), mapped("0000:02:00.0")]).len(),
        Some(2)
    );

    assert_eq!(mapped("0000:01:00.0").key(), "0000:01:00.0");
}

#[test]
fn mig_uuid_detection() {
    assert!(is_mig_uuid(
        "MIG-GPU-1a2b3c4d-5e6f-7890-abcd-ef0123456789-1-2"
    ));
    assert!(!is_mig_uuid("GPU-1a2b3c4d-5e6f-7890-abcd-ef0123456789"));
    assert!(!is_mig_uuid(
        "MIG-GPU-1a2b3c4d-5e6f-7890-abcd-ef0123456789-1"
    ));
    assert!(!is_mig_uuid("MIG-GPU-1a2b3c4d-x-2"));
    assert!(!is_mig_uuid("MIG-"));
}

#[test]
fn mig_uuid_parses_instance_and_parent() {
    let id = DeviceId::new(
        None,
        Some("MIG-GPU-1a2b3c4d-5e6f-7890-abcd-ef0123456789-1-2".into()),
    );
    assert_eq!(id.mig_instance(), Some((1, 2)));
    assert_eq!(
        id.mig_parent_uuid().as_deref(),
        Some("GPU-1a2b3c4d-5e6f-7890-abcd-ef0123456789")
    );
    assert_eq!(id.key(), "MIG-GPU-1a2b3c4d-5e6f-7890-abcd-ef0123456789-1-2");
}

#[test]
fn physical_uuid_is_never_mig() {
    let id = DeviceId::new(
        Some("0000:01:00.0".into()),
        Some("GPU-1a2b3c4d-5e6f-7890-abcd-ef0123456789".into()),
    );
    assert_eq!(id.mig_instance(), None);
    assert_eq!(id.mig_parent_uuid(), None);
}

#[test]
fn selector_parse_mig_uuid_is_uuid() {
    assert_eq!(
        GpuSelector::parse("MIG-GPU-1a2b3c4d-5e6f-7890-abcd-ef0123456789-1-2"),
        GpuSelector::Uuid("MIG-GPU-1a2b3c4d-5e6f-7890-abcd-ef0123456789-1-2".to_string())
    );
}

#[test]
fn mapped_gpu_without_identity_is_unkeyed() {
    let m = MappedGpu {
        device: DeviceId::new(None, None),
        name: String::new(),
        vendor: GpuVendor::Unknown,
        evidence: GpuEvidence::NvmlCompute,
    };
    assert_eq!(m.key(), "<unkeyed>");
}

#[test]
fn synthetic_mig_key_has_parent() {
    let id = DeviceId::new(None, Some("GPU-abc#mig-3".into()));
    assert_eq!(id.mig_parent_uuid().as_deref(), Some("GPU-abc"));
    assert_eq!(id.mig_instance(), None);
}

#[test]
fn only_purely_numeric_selectors_are_legacy_indices() {
    assert_eq!(GpuSelector::parse(" 7 "), GpuSelector::Index(7));
    assert_eq!(GpuSelector::parse("+7"), GpuSelector::PciBusId("+7".to_string()));
    assert_eq!(GpuSelector::parse("4294967295"), GpuSelector::Index(u32::MAX));
    assert_eq!(
        GpuSelector::parse("4294967296"),
        GpuSelector::PciBusId("4294967296".to_string())
    );
}
