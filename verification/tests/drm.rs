use orsiktop::domain::ProcessIdentity;
use orsiktop::drm::{
    parse_fdinfo, parse_u64, sample_process_gpus, utilization_cycles, utilization_ns,
    value_to_bytes, DrmSamplerState,
};
use orsiktop::system::FixtureSys;

const BDF: &str = "0000:02:00.0";

/// Percent from a busy fraction, as the monitor displays it.
fn pct(u: Option<(u64, u64)>) -> Option<f64> {
    u.map(|(busy, window)| busy as f64 / window as f64 * 100.0)
}

/// Register a process with one fd (index 3) that opens a DRM render node,
/// plus its fdinfo file.
fn sys_with_drm_fd(sys: &mut FixtureSys, pid: u32, fdinfo: &str) {
    sys.dir_entry(&format!("/proc/{pid}/fd"), "3", false, true);
    sys.symlink(&format!("/proc/{pid}/fd/3"), "/dev/dri/renderD129");
    sys.file(&format!("/proc/{pid}/fdinfo/3"), fdinfo);
}

#[test]
fn no_fdinfo_dir_means_no_gpu() {
    let sys = FixtureSys::default();
    let mut state = DrmSamplerState::default();
    let gpus = sample_process_gpus(&sys, 1_000, ProcessIdentity::new(1, 100), &mut state);
    assert!(gpus.is_empty());
}

#[test]
fn non_drm_fd_is_ignored() {
    let mut sys = FixtureSys::default();
    let pid = 7u32;
    sys.dir_entry(&format!("/proc/{pid}/fd"), "3", false, true);
    sys.symlink(&format!("/proc/{pid}/fd/3"), "/usr/bin/llama-server");
    sys.file(
        &format!("/proc/{pid}/fdinfo/3"),
        "pos:\t0\nflags:\t02000002\n",
    );
    let mut state = DrmSamplerState::default();
    let gpus = sample_process_gpus(&sys, 1_000, ProcessIdentity::new(pid, 100), &mut state);
    assert!(gpus.is_empty());
}

#[test]
fn i915_ns_format_parses_bdf_driver_engines_and_memory() {
    let mut sys = FixtureSys::default();
    let pid = 42u32;
    sys_with_drm_fd(
        &mut sys,
        pid,
        &format!(
            "pos:\t123\n\
             drm-driver:\ti915\n\
             drm-pdev:\t{BDF}\n\
             drm-client-id:\t128\n\
             drm-engine-render:\t1500000000 ns\n\
             drm-engine-copy:\t100000000 ns\n\
             drm-resident-local:\t104857600\n\
             drm-resident-system:\t2097152\n\
             drm-purgeable-local:\t0\n"
        ),
    );
    let mut state = DrmSamplerState::default();
    let gpus = sample_process_gpus(&sys, 1_000, ProcessIdentity::new(pid, 100), &mut state);

    assert_eq!(gpus.len(), 1);
    let gpu = &gpus[0];
    assert_eq!(gpu.bdf, BDF);
    assert_eq!(gpu.driver, "i915");
    assert_eq!(gpu.client_count, 1);
    assert_eq!(gpu.resident_bytes, 104857600 + 2097152);
    assert_eq!(gpu.engines.len(), 2);

    let render = gpu
        .engines
        .iter()
        .find(|e| e.name == "render")
        .expect("render engine");
    assert_eq!(render.busy_ns, Some(1_500_000_000));
    // First sample: no baseline, so utilization is explicitly None.
    assert_eq!(pct(render.utilization), None);

    let copy = gpu
        .engines
        .iter()
        .find(|e| e.name == "copy")
        .expect("copy engine");
    assert_eq!(copy.busy_ns, Some(100_000_000));
    // Engines come sorted by name.
    assert_eq!(gpu.engines[0].name, "copy");
}

#[test]
fn xe_cycles_format_and_first_sample_utilization_none() {
    let mut sys = FixtureSys::default();
    let pid = 42u32;
    sys_with_drm_fd(
        &mut sys,
        pid,
        &format!(
            "drm-driver:\txe\n\
             drm-pdev:\t{BDF}\n\
             drm-cycles-rcs:\t4000\n\
             drm-total-cycles-rcs:\t10000\n\
             drm-cycles-bcs:\t100\n\
             drm-total-cycles-bcs:\t10000\n\
             drm-resident-local:\t524288\n\
             drm-resident-system:\t65536 KiB\n"
        ),
    );
    let mut state = DrmSamplerState::default();
    let gpus = sample_process_gpus(&sys, 1_000, ProcessIdentity::new(pid, 100), &mut state);

    assert_eq!(gpus.len(), 1);
    let gpu = &gpus[0];
    assert_eq!(gpu.driver, "xe");
    // 524288 bytes + 65536 KiB (65536 * 1024 bytes).
    assert_eq!(gpu.resident_bytes, 524288 + 65536 * 1024);
    let rcs = gpu
        .engines
        .iter()
        .find(|e| e.name == "rcs")
        .expect("rcs engine");
    assert_eq!(rcs.cycles_busy, Some(4000));
    assert_eq!(rcs.cycles_total, Some(10000));
    assert_eq!(pct(rcs.utilization), None);
}

#[test]
fn amdgpu_skips_deprecated_memory_aliases() {
    let mut sys = FixtureSys::default();
    let pid = 42u32;
    sys_with_drm_fd(
        &mut sys,
        pid,
        &format!(
            "drm-driver:\tamdgpu\n\
             drm-pdev:\t{BDF}\n\
             pasid:\t3\n\
             drm-resident-vram:\t209715200\n\
             drm-resident-gtt:\t1048576\n\
             drm-resident-cpu:\t4096\n\
             drm-purgeable-vram:\t0\n\
             drm-memory-vram:\t204800 KiB\n\
             drm-memory-gtt: \t1024 KiB\n\
             amd-evicted-vram:\t0 KiB\n\
             amd-requested-vram:\t204800 KiB\n\
             drm-engine-gfx:\t2000000000 ns\n"
        ),
    );
    let mut state = DrmSamplerState::default();
    let gpus = sample_process_gpus(&sys, 1_000, ProcessIdentity::new(pid, 100), &mut state);

    assert_eq!(gpus.len(), 1);
    let gpu = &gpus[0];
    assert_eq!(gpu.driver, "amdgpu");
    assert_eq!(gpu.resident_bytes, 209715200 + 1048576 + 4096);
    assert_eq!(gpu.total_bytes, 0);
    let gfx = gpu
        .engines
        .iter()
        .find(|e| e.name == "gfx")
        .expect("gfx engine");
    assert_eq!(gfx.busy_ns, Some(2_000_000_000));
}

#[test]
fn multiple_fds_to_same_bdf_are_aggregated() {
    let mut sys = FixtureSys::default();
    let pid = 42u32;
    let fdinfo = format!("drm-driver:\tamdgpu\ndrm-pdev:\t{BDF}\ndrm-resident-vram:\t1000\n");
    sys.dir_entry(&format!("/proc/{pid}/fd"), "3", false, true);
    sys.symlink(&format!("/proc/{pid}/fd/3"), "/dev/dri/renderD129");
    sys.file(&format!("/proc/{pid}/fdinfo/3"), &fdinfo);
    sys.dir_entry(&format!("/proc/{pid}/fd"), "9", false, true);
    sys.symlink(&format!("/proc/{pid}/fd/9"), "/dev/dri/renderD129");
    sys.file(&format!("/proc/{pid}/fdinfo/9"), &fdinfo);
    let mut state = DrmSamplerState::default();
    let gpus = sample_process_gpus(&sys, 1_000, ProcessIdentity::new(pid, 100), &mut state);

    assert_eq!(gpus.len(), 1);
    assert_eq!(gpus[0].client_count, 2);
    assert_eq!(gpus[0].resident_bytes, 2000);
}

#[test]
fn fdinfo_without_pdev_is_rejected() {
    let mut sys = FixtureSys::default();
    let pid = 42u32;
    sys.dir_entry(&format!("/proc/{pid}/fd"), "3", false, true);
    sys.symlink(&format!("/proc/{pid}/fd/3"), "/dev/dri/renderD129");
    sys.file(
        &format!("/proc/{pid}/fdinfo/3"),
        "drm-driver:\tamdgpu\ndrm-engine-gfx:\t5 ns\n",
    );
    let mut state = DrmSamplerState::default();
    let gpus = sample_process_gpus(&sys, 1_000, ProcessIdentity::new(pid, 100), &mut state);
    assert!(gpus.is_empty());
}

#[test]
fn utilization_ns_delta_math() {
    // 50% of 2_000_000_000 ns (2 s) busy.
    let p = pct(utilization_ns(1_000_000_000, 0, 2_000_000_000)).unwrap();
    assert!((p - 50.0).abs() < 1e-9);
    // Counter reset (read lower) yields a zero delta, not negative.
    let p = pct(utilization_ns(100, 1000, 2_000_000_000)).unwrap();
    assert_eq!(p, 0.0);
    // Zero elapsed wall time is undefined.
    assert_eq!(utilization_ns(100, 0, 0), None);
}

#[test]
fn utilization_cycles_delta_math() {
    // (6000-4000) / (10000-9000) = 2000/1000 = 200% (multi-engine sum).
    let p = pct(utilization_cycles(6000, 4000, 10000, 9000)).unwrap();
    assert!((p - 200.0).abs() < 1e-9);
    // No total progress → undefined.
    assert_eq!(utilization_cycles(5000, 4000, 9000, 9000), None);
    // Counter reset yields zero busy delta.
    let p = pct(utilization_cycles(100, 4000, 10000, 9000)).unwrap();
    assert_eq!(p, 0.0);
}

#[test]
fn second_sample_yields_utilization_and_monotonic_reset_is_clamped() {
    let pid = 42u32;
    let identity = ProcessIdentity::new(pid, 100);

    // First sample establishes the baseline.
    let mut sys1 = FixtureSys::default();
    sys_with_drm_fd(
        &mut sys1,
        pid,
        &format!("drm-driver:\txe\ndrm-pdev:\t{BDF}\ndrm-cycles-rcs:\t1000\ndrm-total-cycles-rcs:\t10000\n"),
    );
    let mut state = DrmSamplerState::default();
    let t0 = 5_000_000_000u64;
    let g1 = sample_process_gpus(&sys1, t0, identity, &mut state);
    assert!(g1[0]
        .engines
        .iter()
        .find(|e| e.name == "rcs")
        .unwrap()
        .utilization
        .is_none());

    // Second sample: busy 1000→3000, total 10000→20000 → (2000)/(10000)=20%.
    let mut sys2 = FixtureSys::default();
    sys_with_drm_fd(
        &mut sys2,
        pid,
        &format!("drm-driver:\txe\ndrm-pdev:\t{BDF}\ndrm-cycles-rcs:\t3000\ndrm-total-cycles-rcs:\t20000\n"),
    );
    let t1 = t0 + 2_000_000_000;
    let g2 = sample_process_gpus(&sys2, t1, identity, &mut state);
    let rcs = g2[0].engines.iter().find(|e| e.name == "rcs").unwrap();
    let p = pct(rcs.utilization).unwrap();
    assert!((p - 20.0).abs() < 1e-9);

    // Third sample with a reset counter (busy reads lower) → 0%, not negative.
    let mut sys3 = FixtureSys::default();
    sys_with_drm_fd(
        &mut sys3,
        pid,
        &format!("drm-driver:\txe\ndrm-pdev:\t{BDF}\ndrm-cycles-rcs:\t50\ndrm-total-cycles-rcs:\t21000\n"),
    );
    let t2 = t1 + 2_000_000_000;
    let g3 = sample_process_gpus(&sys3, t2, identity, &mut state);
    let rcs3 = g3[0].engines.iter().find(|e| e.name == "rcs").unwrap();
    assert_eq!(pct(rcs3.utilization), Some(0.0));
}

#[test]
fn busy_ns_utilization_uses_elapsed_wall_time() {
    let pid = 42u32;
    let identity = ProcessIdentity::new(pid, 100);
    let mut sys1 = FixtureSys::default();
    sys_with_drm_fd(
        &mut sys1,
        pid,
        &format!("drm-driver:\ti915\ndrm-pdev:\t{BDF}\ndrm-engine-render:\t1000000000 ns\n"),
    );
    let mut state = DrmSamplerState::default();
    let t0 = 10_000_000_000u64;
    let _ = sample_process_gpus(&sys1, t0, identity, &mut state);
    let mut sys2 = FixtureSys::default();
    sys_with_drm_fd(
        &mut sys2,
        pid,
        &format!("drm-driver:\ti915\ndrm-pdev:\t{BDF}\ndrm-engine-render:\t1500000000 ns\n"),
    );
    let g = sample_process_gpus(&sys2, t0 + 2_000_000_000, identity, &mut state);
    assert_eq!(g[0].engines[0].utilization, Some((500_000_000, 2_000_000_000)));
    // The same instant again: no elapsed time, no utilization.
    let g = sample_process_gpus(&sys2, t0 + 2_000_000_000, identity, &mut state);
    assert_eq!(g[0].engines[0].utilization, None);
    // A different process identity starts without a baseline.
    let g = sample_process_gpus(&sys2, t0 + 4_000_000_000, ProcessIdentity::new(pid, 101), &mut state);
    assert_eq!(g[0].engines[0].utilization, None);
}

#[test]
fn retain_drops_exited_process_counters() {
    let pid = 42u32;
    let identity = ProcessIdentity::new(pid, 100);
    let mut sys = FixtureSys::default();
    sys_with_drm_fd(
        &mut sys,
        pid,
        &format!("drm-driver:\txe\ndrm-pdev:\t{BDF}\ndrm-cycles-rcs:\t10\ndrm-total-cycles-rcs:\t100\n"),
    );
    let mut state = DrmSamplerState::default();
    let _ = sample_process_gpus(&sys, 1_000, identity, &mut state);
    assert!(state.len() > 0);
    assert!(state.counter(identity, BDF, "rcs").is_some());

    // A live process keeps its counters.
    state.retain(&[identity]);
    assert_eq!(state.len(), 1);

    // No live process with this identity → counter pruned.
    state.retain(&[]);
    assert_eq!(state.len(), 0);
}

#[test]
fn unknown_and_driver_prefixed_keys_are_ignored() {
    let parsed = parse_fdinfo(
        "drm-driver:\tamdgpu\n\
         drm-pdev:\t0000:01:00.0\n\
         i915-some-thing:\t1\n\
         random-key:\tfoo\n\
         : no-colon-line\n",
    )
    .expect("has drm-pdev");
    assert_eq!(parsed.driver, "amdgpu");
    assert_eq!(parsed.engines.len(), 0);
    assert_eq!(parsed.resident, 0);
}

#[test]
fn value_to_bytes_handles_units() {
    assert_eq!(value_to_bytes("1024"), Some(1024));
    assert_eq!(value_to_bytes("2 KiB"), Some(2048));
    assert_eq!(value_to_bytes("3 MiB"), Some(3 * 1024 * 1024));
    assert_eq!(value_to_bytes("abc"), None);
}

#[test]
fn fdinfo_without_pdev_is_not_a_drm_fd() {
    assert!(parse_fdinfo("pos:\t0\nflags:\t02000002\n").is_none());
}

#[test]
fn fdinfo_engines_and_memory_are_collected() {
    let parsed = parse_fdinfo(
        "drm-driver:\txe\n\
         drm-pdev:\t0000:00:02.0\n\
         drm-cycles-rcs:\t100\n\
         drm-total-cycles-rcs:\t1000\n\
         drm-engine-capacity-rcs:\t2\n\
         drm-engine-render:\t1500 ns\n\
         drm-resident-local:\t1 KiB\n\
         drm-resident-system:\t24\n\
         drm-total-local:\t2 MiB\n\
         drm-memory-vram:\t999\n",
    )
    .unwrap();
    assert_eq!(parsed.bdf, "0000:00:02.0");
    assert_eq!(parsed.driver, "xe");
    assert_eq!(parsed.engines.len(), 2);
    assert_eq!(parsed.engines[0].0, "rcs");
    assert_eq!(parsed.engines[0].1.cycles_busy, Some(100));
    assert_eq!(parsed.engines[0].1.cycles_total, Some(1000));
    assert_eq!(parsed.engines[0].1.capacity, Some(2));
    assert_eq!(parsed.engines[1].0, "render");
    assert_eq!(parsed.engines[1].1.busy_ns, Some(1500));
    assert_eq!(parsed.resident, 1024 + 24);
    assert_eq!(parsed.total, 2 * 1024 * 1024);
}

#[test]
fn numbers_ignore_units_and_reject_overflow() {
    assert_eq!(parse_u64(" 12345 ns"), Some(12345));
    assert_eq!(parse_u64(""), None);
    assert_eq!(value_to_bytes("18014398509481984 KiB"), None);
}

#[test]
fn last_pdev_wins_and_memory_sums_skip_cycle_counters() {
    let p = parse_fdinfo(
        "drm-pdev:\t0000:01:00.0\ndrm-resident-vram:\t2 KiB\ndrm-total-cycles-rcs:\t99\n\
         drm-total-vram:\t4 KiB\ndrm-resident-gtt:\t1024\ndrm-pdev:\t0000:02:00.0\n",
    )
    .unwrap();
    assert_eq!(p.bdf, "0000:02:00.0");
    assert_eq!(p.driver, "");
    assert_eq!(p.resident, 3072);
    assert_eq!(p.total, 4096);
}
