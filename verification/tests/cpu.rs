use orsiktop::cpu::{
    build_physical_core_groups, classify_capacity_values, classify_sibling_counts,
    clean_model_name, detect_topology, parse_cpu_identity, parse_cpu_list, CpuCoreKind,
    CpuPhysicalCore, CpuVendor,
};
use orsiktop::system::FixtureSys;

#[test]
fn parses_cpu_lists() {
    assert_eq!(
        parse_cpu_list("0-3,8,10-11\n"),
        Some(vec![0, 1, 2, 3, 8, 10, 11])
    );
    assert_eq!(parse_cpu_list("7"), Some(vec![7]));
    assert_eq!(parse_cpu_list("3-1"), None);
}

#[test]
fn parses_intel_identity_and_cleans_model() {
    let text = "vendor_id : GenuineIntel\nmodel name : 12th Gen Intel(R) Core(TM) i9-12900K\n";
    let (vendor, model) = parse_cpu_identity(text);
    assert_eq!(vendor, CpuVendor::Intel);
    assert_eq!(model, "12th Gen Intel Core i9-12900K");
}

#[test]
fn parses_amd_identity() {
    let text = "vendor_id : AuthenticAMD\nmodel name : AMD Ryzen 9 9950X 16-Core Processor\n";
    let (vendor, model) = parse_cpu_identity(text);
    assert_eq!(vendor, CpuVendor::Amd);
    assert_eq!(model, "AMD Ryzen 9 9950X 16-Core");
}

#[test]
fn groups_logical_threads_into_physical_cores() {
    let groups = vec![
        Some("0,4".to_string()),
        Some("1,5".to_string()),
        Some("2".to_string()),
        Some("3".to_string()),
        Some("0,4".to_string()),
        Some("1,5".to_string()),
    ];
    let kinds = vec![
        CpuCoreKind::Performance,
        CpuCoreKind::Performance,
        CpuCoreKind::Efficiency,
        CpuCoreKind::Efficiency,
        CpuCoreKind::Performance,
        CpuCoreKind::Performance,
    ];
    assert_eq!(
        build_physical_core_groups(&groups, &kinds),
        vec![
            CpuPhysicalCore {
                kind: CpuCoreKind::Performance,
                logical_cpus: vec![0, 4],
            },
            CpuPhysicalCore {
                kind: CpuCoreKind::Performance,
                logical_cpus: vec![1, 5],
            },
            CpuPhysicalCore {
                kind: CpuCoreKind::Efficiency,
                logical_cpus: vec![2],
            },
            CpuPhysicalCore {
                kind: CpuCoreKind::Efficiency,
                logical_cpus: vec![3],
            },
        ]
    );
}

#[test]
fn capacity_classes_require_meaningful_difference() {
    assert_eq!(
        classify_capacity_values(&[Some(1024), Some(1024), Some(768), Some(768)]),
        Some(vec![
            CpuCoreKind::Performance,
            CpuCoreKind::Performance,
            CpuCoreKind::Efficiency,
            CpuCoreKind::Efficiency,
        ])
    );
    assert_eq!(
        classify_capacity_values(&[Some(1024), Some(1000), Some(1024), Some(1000)]),
        None
    );
}

#[test]
fn smt_classes_detect_two_thread_and_single_thread_cores() {
    assert_eq!(
        classify_sibling_counts(&[Some(2), Some(2), Some(1), Some(1)]),
        Some(vec![
            CpuCoreKind::Performance,
            CpuCoreKind::Performance,
            CpuCoreKind::Efficiency,
            CpuCoreKind::Efficiency,
        ])
    );
    assert_eq!(classify_sibling_counts(&[Some(2), Some(2)]), None);
}

fn hybrid_sys(logical: usize) -> FixtureSys {
    let mut fixture = FixtureSys::default();
    fixture.file(
        "/proc/cpuinfo",
        "processor\t: 0\nvendor_id\t: GenuineIntel\nmodel name\t: Core(TM) Ultra 7\n",
    );
    for cpu in 0..logical {
        let is_p = cpu < 8;
        let list = if is_p {
            let pair = cpu / 2 * 2;
            format!("{pair},{}", pair + 1)
        } else {
            cpu.to_string()
        };
        fixture
            .file(
                &format!("/sys/devices/system/cpu/cpu{cpu}/topology/core_cpus_list"),
                &list,
            )
            .file(
                &format!("/sys/devices/system/cpu/cpu{cpu}/cpu_capacity"),
                if is_p { "1024" } else { "512" },
            );
    }
    fixture
}

#[test]
fn fixture_detects_hybrid_topology_without_kernel_core_files() {
    let fixture = hybrid_sys(16);
    let topology = detect_topology(16, &fixture);

    assert_eq!(topology.vendor, CpuVendor::Intel);
    assert_eq!(topology.performance_threads(), 8);
    assert_eq!(topology.efficiency_threads(), 8);
    assert_eq!(topology.physical_cores, Some(12));
    assert!(topology.is_hybrid());

    let core0 = &topology
        .physical_core_groups
        .iter()
        .find(|core| core.logical_cpus.contains(&0))
        .unwrap();
    assert_eq!(core0.kind, CpuCoreKind::Performance);
    assert_eq!(core0.logical_cpus, vec![0, 1]);
}

#[test]
fn fixture_detects_homogeneous_topology_as_unknown_kinds() {
    let mut fixture = FixtureSys::default();
    fixture.file(
        "/proc/cpuinfo",
        "processor\t: 0\nvendor_id\t: AuthenticAMD\nmodel name\t: AMD Ryzen 9 7950X\n",
    );
    for cpu in 0..32 {
        let pair = cpu % 16;
        let list = format!("{pair},{}", pair + 16);
        fixture.file(
            &format!("/sys/devices/system/cpu/cpu{cpu}/topology/core_cpus_list"),
            &list,
        );
    }

    let topology = detect_topology(32, &fixture);
    assert_eq!(topology.vendor, CpuVendor::Amd);
    assert!(!topology.is_hybrid());
    assert!(topology
        .core_kinds
        .iter()
        .all(|kind| { matches!(kind, CpuCoreKind::Unknown) }));
    assert_eq!(topology.performance_cores, None);
    assert_eq!(topology.physical_cores, Some(16));
}

#[test]
fn kernel_core_lists_classify_cpus() {
    let mut fixture = FixtureSys::default();
    fixture
        .file("/proc/cpuinfo", "vendor_id : GenuineIntel\n")
        .file("/sys/devices/cpu_core/cpus", "0-1\n")
        .file("/sys/devices/cpu_atom/cpus", "2\n")
        .file("/sys/devices/cpu_lowpower/cpus", "3\n");
    for cpu in 0..4 {
        fixture.file(
            &format!("/sys/devices/system/cpu/cpu{cpu}/topology/core_cpus_list"),
            &cpu.to_string(),
        );
    }
    let topology = detect_topology(4, &fixture);
    assert_eq!(
        topology.core_kinds,
        vec![
            CpuCoreKind::Performance,
            CpuCoreKind::Performance,
            CpuCoreKind::Efficiency,
            CpuCoreKind::LowPower,
        ]
    );
    assert_eq!(topology.performance_cores, Some(2));
    assert_eq!(topology.efficiency_cores, Some(1));
    assert_eq!(topology.low_power_cores, Some(1));
    assert_eq!(topology.physical_cores, Some(4));
}

#[test]
fn package_and_core_ids_key_cores_without_sibling_lists() {
    let mut fixture = FixtureSys::default();
    for cpu in 0..2 {
        fixture
            .file(
                &format!("/sys/devices/system/cpu/cpu{cpu}/topology/physical_package_id"),
                "0\n",
            )
            .file(
                &format!("/sys/devices/system/cpu/cpu{cpu}/topology/core_id"),
                "5\n",
            );
    }
    let topology = detect_topology(2, &fixture);
    assert_eq!(topology.physical_cores, Some(1));
    assert_eq!(topology.vendor, CpuVendor::Unknown);
    assert_eq!(topology.model, "");
}

#[test]
fn model_names_drop_marks_and_filler() {
    assert_eq!(
        clean_model_name("Intel(R)  Xeon(TM)   CPU E5 Processor"),
        "Intel Xeon E5"
    );
    assert_eq!(CpuVendor::Amd.label(), "AMD");
    assert_eq!(CpuVendor::Other.label(), "CPU");
}

#[test]
fn cpu_list_rejects_garbage() {
    assert_eq!(parse_cpu_list(""), None);
    assert_eq!(parse_cpu_list("a-b"), None);
    assert_eq!(parse_cpu_list("1,,2"), Some(vec![1, 2]));
}

#[test]
fn physical_core_groups_partition_every_logical_cpu_once() {
    let fixture = hybrid_sys(12);
    let topology = detect_topology(12, &fixture);

    assert_eq!(topology.logical_cpus, 12);
    assert_eq!(topology.core_kinds.len(), 12);
    assert_eq!(topology.physical_cores, Some(topology.physical_core_groups.len()));
    let mut seen = vec![0usize; 12];
    for core in &topology.physical_core_groups {
        assert!(core.logical_cpus.windows(2).all(|w| w[0] < w[1]));
        for &cpu in &core.logical_cpus {
            seen[cpu] += 1;
        }
    }
    assert!(seen.iter().all(|&n| n == 1));
}
