use orsiktop::cpu::{CpuCoreKind, CpuPhysicalCore, CpuVendor};
use orsiktop::ui::{compact_cpu_model, system_panel_height, system_panel_title};
use orsiktop::ui::{
    braille_bit, braille_char, compact_endpoint, fit_cell, friendly_llm_error, gpu_bar_width,
    grouped_u64, is_llm_process, process_sort_name, resample_history, truncate_title,
    ProcessSortKey,
};

#[test]
fn endpoint_is_compact() {
    assert_eq!(compact_endpoint("http://127.0.0.1:8081/"), "127.0.0.1:8081");
}

#[test]
fn history_resampling_holds_the_latest_value_between_samples() {
    let s = 1_000_000_000u64;
    let history = vec![(30 * s, 25), (10 * s, 50)];
    let columns = resample_history(&history, 7);
    assert_eq!(
        columns,
        vec![None, None, None, Some(25), Some(25), Some(50), Some(50)]
    );
}

#[test]
fn braille_masks_map_to_expected_cells() {
    assert_eq!(braille_char(0), ' ');
    assert_eq!(braille_char(0xc0), '⣀');
    assert_eq!(braille_char(0xff), '⣿');
}

#[test]
fn braille_bits_follow_the_dot_numbering() {
    assert_eq!(braille_bit(0, 3), 0x40);
    assert_eq!(braille_bit(1, 3), 0x80);
    assert_eq!(braille_bit(2, 0), 0);
}

#[test]
fn history_outside_the_window_is_dropped_and_values_capped() {
    let s = 1_000_000_000u64;
    assert_eq!(resample_history(&[(90 * s, 10), (0, 250)], 1), vec![Some(100)]);
    assert_eq!(resample_history(&[], 0), vec![None]);
}

#[test]
fn token_counts_are_grouped_for_readability() {
    assert_eq!(grouped_u64(999), "999");
    assert_eq!(grouped_u64(1000), "1,000");
    assert_eq!(grouped_u64(1234567), "1,234,567");
    assert_eq!(grouped_u64(0), "0");
}

#[test]
fn cells_and_titles_are_fitted() {
    assert_eq!(fit_cell("abcdef", 4), "abc…");
    assert_eq!(fit_cell("abc", 4), "abc");
    assert_eq!(fit_cell("abc", 1), "…");
    assert_eq!(fit_cell("abc", 0), "");
    assert_eq!(truncate_title(" SYSTEM · x ", 5), " SYS…");
}

#[test]
fn labels_and_classifications() {
    assert_eq!(gpu_bar_width(80), 14);
    assert_eq!(gpu_bar_width(100), 22);
    assert_eq!(gpu_bar_width(200), 30);
    assert_eq!(process_sort_name(ProcessSortKey::Memory), "MEM");
    assert!(is_llm_process("Llama-Server", ""));
    assert!(is_llm_process("x", "/opt/OrsikTop/bin"));
    assert!(!is_llm_process("bash", "/bin/bash"));
    assert_eq!(
        friendly_llm_error("HTTP 501 Not Implemented"),
        "LLAMA METRICS OFF · restart server with --metrics"
    );
    assert_eq!(friendly_llm_error("Connection refused"), "LLAMA SERVER OFFLINE");
    assert_eq!(friendly_llm_error("weird"), "LLAMA · weird");
}

fn topology(vendor: orsiktop::cpu::CpuVendor, model: &str) -> orsiktop::cpu::CpuTopology {
    orsiktop::cpu::CpuTopology {
        vendor,
        model: model.to_string(),
        ..orsiktop::cpu::CpuTopology::default()
    }
}

#[test]
fn cpu_model_is_compacted_per_vendor() {
    assert_eq!(
        compact_cpu_model(&topology(CpuVendor::Intel, "12th Gen Intel Core i9-12900K")),
        "i9-12900K"
    );
    assert_eq!(
        compact_cpu_model(&topology(CpuVendor::Intel, "Intel Core Ultra 9 285K extra words")),
        "Core Ultra 9 285K"
    );
    assert_eq!(
        compact_cpu_model(&topology(CpuVendor::Amd, "AMD Ryzen 9 7950X 16-Core Processor")),
        "Ryzen 9 7950X"
    );
    assert_eq!(
        compact_cpu_model(&topology(CpuVendor::Amd, "AMD EPYC 7763 64-Core Processor")),
        "EPYC 7763 64-Core"
    );
    assert_eq!(
        compact_cpu_model(&topology(CpuVendor::Other, "  Neoverse N1 r3p1 big core  ")),
        "Neoverse N1 r3p1 big"
    );
    assert_eq!(compact_cpu_model(&topology(CpuVendor::Amd, "   ")), "AMD");
}

#[test]
fn system_title_summarizes_topology_and_fits_width() {
    let mut t = topology(CpuVendor::Intel, "Intel Core i7-12700H");
    t.logical_cpus = 20;
    t.physical_cores = Some(14);
    assert_eq!(system_panel_title(&t, 80), " SYSTEM · i7-12700H · 14C/20T ");
    t.core_kinds = vec![
        CpuCoreKind::Performance,
        CpuCoreKind::Performance,
        CpuCoreKind::Efficiency,
    ];
    t.performance_cores = Some(6);
    t.efficiency_cores = Some(8);
    assert_eq!(system_panel_title(&t, 80), " SYSTEM · i7-12700H · 6P+8E/20T ");
    t.efficiency_cores = None;
    assert_eq!(system_panel_title(&t, 80), " SYSTEM · i7-12700H · P2T+E1T ");
    // Too narrow: cut with an ellipsis to width - 2 characters.
    assert_eq!(system_panel_title(&t, 12), " SYSTEM ·…");
    let empty = topology(CpuVendor::Unknown, "");
    assert_eq!(system_panel_title(&empty, 80), " SYSTEM · CPU ");
}

fn physical_core(kind: CpuCoreKind, cpus: Vec<usize>) -> CpuPhysicalCore {
    CpuPhysicalCore { kind, logical_cpus: cpus }
}

#[test]
fn system_panel_grows_with_the_larger_core_class_on_hybrid_cpus() {
    let mut t = topology(CpuVendor::Intel, "Intel Core i7-12700H");
    assert_eq!(system_panel_height(&t), 12);
    t.core_kinds = vec![CpuCoreKind::Performance, CpuCoreKind::Efficiency];
    assert_eq!(system_panel_height(&t), 12);
    t.physical_core_groups = vec![
        physical_core(CpuCoreKind::Performance, vec![0, 1]),
        physical_core(CpuCoreKind::Efficiency, vec![2]),
    ];
    assert_eq!(system_panel_height(&t), 12);
    for i in 0..6 {
        t.physical_core_groups.push(physical_core(CpuCoreKind::Efficiency, vec![3 + i]));
    }
    // Seven efficiency cores: 7 + 9 rows.
    assert_eq!(system_panel_height(&t), 16);
    // Not hybrid: the fixed height.
    t.core_kinds = vec![CpuCoreKind::Performance];
    assert_eq!(system_panel_height(&t), 12);
}
