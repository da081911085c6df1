//! `orsiktop diag`: a human-readable diagnostics report for bug reports.
//!
//! Summarizes the non-secret state OrsikTop sees at startup: CPU topology,
//! GPU discovery (DRM sysfs), the provider selected for the auto selector
//! and a one-shot sample of it, CPU sensor discovery, and llama.cpp server
//! discovery plus the server→GPU mapping decision.
//!
//! No-secrets policy: process evidence is PID-only (never command lines),
//! no environment variables, no credentials.
//!
//! [`render`] reads the filesystem only through a [`Sys`], so a fixture
//! yields a deterministic report. What only live hardware can give (a
//! provider sample, NVML's process lists, timed power and frequency
//! readings) is handed in as [`DiagReadings`].

use vstd::prelude::*;

use crate::cpu::{
    cpu_identity_spec, cpuinfo_text, detect_topology, groups_spec, has_kind, kind_groups_spec,
    topology_kinds_spec, unique_groups_spec, CpuCoreKind,
};
use crate::discovery::{discover_spec, gpus_view, strings_view, DiscoveredGpu, GpuModel};
use crate::domain::{key_of, opt_view, GpuEvidence, GpuMapping, GpuVendor};
use crate::cpu_sensors::{temp_sensors_spec, temperature_spec, CpuSensors};
use crate::discovery_llm::{
    cands_view, collect_candidates, first_configured_same, law_selection_ignores_pids, collect_spec, endpoint_pid, select_endpoint, select_spec,
    selected_endpoint_pid, CandidateModel, LlamaServerCandidate, ServerSource,
};
use crate::gpu_map::{
    map_server_gpus, map_server_spec, mapping_view, nvml_compute_keys, nvml_keys_spec,
    process_render_gpus, render_gpus_spec, MappedModel, MappingModel, NvmlDeviceInfo,
};
use crate::server::DEFAULT_SERVER;
use crate::system::Sys;
use crate::text::{
    append_chars, append_str, dec_repr, join_tokens, join_with, push_dec, string_of, vecs_view,
};

verus! {

/// Version shown in the report header (the package version).
pub const VERSION: &'static str = "0.1.0";

/// Placeholder for a value that is not available.
pub open spec fn dash() -> Seq<char> {
    "—"@
}

pub open spec fn opt_dec(v: Option<usize>) -> Seq<char> {
    match v {
        Some(n) => dec_repr(n as nat),
        None => dash(),
    }
}

pub open spec fn opt_text(v: Option<Seq<char>>) -> Seq<char> {
    match v {
        Some(t) => t,
        None => dash(),
    }
}

/// The items joined by `", "`, or the placeholder when there are none.
pub open spec fn join_or_none(items: Seq<Seq<char>>) -> Seq<char> {
    if items.len() == 0 {
        dash()
    } else {
        join_with(items, ", "@)
    }
}

fn push_opt_dec(out: &mut Vec<char>, v: Option<usize>)
    ensures
        final(out)@ == old(out)@ + opt_dec(v),
{
    match v {
        Some(n) => push_dec(out, n as u64),
        None => append_str(out, "—"),
    }
}

fn push_opt_text(out: &mut Vec<char>, v: &Option<String>)
    ensures
        final(out)@ == old(out)@ + opt_text(opt_view(*v)),
{
    match v {
        Some(t) => append_str(out, t.as_str()),
        None => append_str(out, "—"),
    }
}

/// Lower-case hex digit.
pub open spec fn hex_char(d: nat) -> char {
    if d < 10 {
        (('0' as u32) + d) as char
    } else {
        (('a' as u32) + d - 10) as char
    }
}

/// `{:0w$x}` of a value below `16^w`: exactly `w` lower-case hex digits.
pub open spec fn hex_fixed(n: nat, w: nat) -> Seq<char>
    decreases w,
{
    if w == 0 {
        seq![]
    } else {
        hex_fixed(n / 16, (w - 1) as nat).push(hex_char(n % 16))
    }
}

fn push_hex(out: &mut Vec<char>, n: u64, w: usize)
    ensures
        final(out)@ == old(out)@ + hex_fixed(n as nat, w as nat),
    decreases w,
{
    let ghost start = out@;
    if w == 0 {
        assert(out@ =~= start + hex_fixed(n as nat, 0));
        return;
    }
    push_hex(out, n / 16, w - 1);
    let d = n % 16;
    let c: char = if d < 10 {
        ((d as u8) + 48) as char
    } else {
        ((d as u8) + 87) as char
    };
    out.push(c);
    assert(out@ =~= start + hex_fixed(n as nat, w as nat));
}

// ---------------------------------------------------------------------------
// Mapping description
// ---------------------------------------------------------------------------

pub open spec fn evidence_name(e: GpuEvidence) -> Seq<char> {
    match e {
        GpuEvidence::NvmlCompute => "NVML compute"@,
        GpuEvidence::RenderNodeFd => "DRM render-node fd"@,
    }
}

/// Display key of a mapped GPU: PCI BDF, else UUID, else `<unkeyed>`.
pub open spec fn mapped_key(g: MappedModel) -> Seq<char> {
    if key_of(g.0.0, g.0.1).len() == 0 {
        "<unkeyed>"@
    } else {
        key_of(g.0.0, g.0.1)
    }
}

/// Human-readable mapping state.
pub open spec fn describe_spec(m: MappingModel) -> Seq<char> {
    match m {
        MappingModel::NotComputed => "not computed (no local server process)"@,
        MappingModel::Single(g) => "single "@ + mapped_key(g) + " (evidence: "@ + evidence_name(g.3)
            + ")"@,
        MappingModel::Multi(ds) => "multi ("@ + dec_repr(ds.len()) + " devices)"@,
        MappingModel::Unknown => "unknown (insufficient evidence)"@,
    }
}

fn evidence_name_exec(e: GpuEvidence) -> (r: &'static str)
    ensures
        r@ == evidence_name(e),
{
    match e {
        GpuEvidence::NvmlCompute => "NVML compute",
        GpuEvidence::RenderNodeFd => "DRM render-node fd",
    }
}

fn push_mapping(out: &mut Vec<char>, mapping: &GpuMapping)
    ensures
        final(out)@ == old(out)@ + describe_spec(mapping_view(*mapping)),
{
    let ghost start = out@;
    match mapping {
        GpuMapping::NotComputed => append_str(out, "not computed (no local server process)"),
        GpuMapping::Single(g) => {
            append_str(out, "single ");
            append_str(out, g.key());
            append_str(out, " (evidence: ");
            append_str(out, evidence_name_exec(g.evidence));
            append_str(out, ")");
            proof {
                reveal_strlit("<unkeyed>");
            }
            assert(out@ =~= start + describe_spec(mapping_view(*mapping)));
        },
        GpuMapping::Multi(ds) => {
            append_str(out, "multi (");
            push_dec(out, ds.len() as u64);
            append_str(out, " devices)");
            assert(out@ =~= start + describe_spec(mapping_view(*mapping)));
        },
        GpuMapping::Unknown => append_str(out, "unknown (insufficient evidence)"),
    }
}

/// Human-readable [`GpuMapping`] state: explicit, never a guess.
pub fn describe_mapping(mapping: &GpuMapping) -> (r: String)
    ensures
        r@ == describe_spec(mapping_view(*mapping)),
{
    let mut out: Vec<char> = Vec::new();
    push_mapping(&mut out, mapping);
    assert(out@ =~= describe_spec(mapping_view(*mapping)));
    string_of(out.as_slice())
}


// ---------------------------------------------------------------------------
// CPU
// ---------------------------------------------------------------------------

pub open spec fn kind_short(k: CpuCoreKind) -> Seq<char> {
    match k {
        CpuCoreKind::Performance => "P"@,
        CpuCoreKind::Efficiency => "E"@,
        CpuCoreKind::LowPower => "L"@,
        CpuCoreKind::Unknown => "?"@,
    }
}

pub open spec fn kind_shorts(ks: Seq<CpuCoreKind>) -> Seq<Seq<char>> {
    ks.map_values(|k: CpuCoreKind| kind_short(k))
}

/// The CPU section for the topology detected from `sys` with `logical` CPUs.
pub open spec fn cpu_section_spec<S: Sys>(sys: &S, logical: usize) -> Seq<char> {
    let id = cpu_identity_spec(cpuinfo_text(sys));
    let groups = groups_spec(sys, logical as nat);
    let kinds = topology_kinds_spec(sys, logical as nat);
    let hybrid = has_kind(kinds, CpuCoreKind::Performance) && has_kind(
        kinds,
        CpuCoreKind::Efficiency,
    );
    "CPU\n"@ + "  vendor     : "@ + id.0.label_spec() + "\n"@ + "  model      : "@ + id.1 + "\n"@
        + "  logical    : "@ + dec_repr(logical as nat) + " CPUs\n"@ + "  physical   : "@ + opt_dec(
        unique_groups_spec(groups),
    ) + " cores\n"@ + "  classes    : P="@ + opt_dec(
        kind_groups_spec(groups, kinds, CpuCoreKind::Performance),
    ) + " E="@ + opt_dec(kind_groups_spec(groups, kinds, CpuCoreKind::Efficiency)) + " LP="@
        + opt_dec(kind_groups_spec(groups, kinds, CpuCoreKind::LowPower)) + "\n"@
        + "  hybrid     : "@ + (if hybrid {
        "yes (P/E minibar)"@
    } else {
        "no"@
    }) + "\n"@ + (if kinds.len() > 0 {
        "  core kinds : "@ + join_with(kind_shorts(kinds), ","@) + "\n"@
    } else {
        seq![]
    })
}

fn kind_short_exec(k: CpuCoreKind) -> (r: &'static str)
    ensures
        r@ == kind_short(k),
{
    match k {
        CpuCoreKind::Performance => "P",
        CpuCoreKind::Efficiency => "E",
        CpuCoreKind::LowPower => "L",
        CpuCoreKind::Unknown => "?",
    }
}

fn push_kinds(out: &mut Vec<char>, ks: &Vec<CpuCoreKind>)
    ensures
        final(out)@ == old(out)@ + join_with(kind_shorts(ks@), ","@),
{
    let ghost start = out@;
    let ghost tv = kind_shorts(ks@);
    for i in 0..ks.len()
        invariant
            tv == kind_shorts(ks@),
            out@ == start + join_with(tv.take(i as int), ","@),
    {
        let ghost pre = tv.take(i as int);
        let ghost nxt = tv.take(i + 1);
        assert(nxt.drop_last() =~= pre);
        if i > 0 {
            append_str(out, ",");
        } else {
            assert(nxt.len() == 1);
        }
        append_str(out, kind_short_exec(ks[i]));
        assert(out@ =~= start + join_with(nxt, ","@));
    }
    assert(tv.take(ks@.len() as int) =~= tv);
}

fn cpu_section<S: Sys>(out: &mut Vec<char>, sys: &S, logical: usize)
    ensures
        final(out)@ == old(out)@ + cpu_section_spec(sys, logical),
{
    let t = detect_topology(logical, sys);
    let mut sec = crate::text::chars_of("CPU\n");
    append_str(&mut sec, "  vendor     : ");
    append_str(&mut sec, t.vendor.label());
    append_str(&mut sec, "\n");
    append_str(&mut sec, "  model      : ");
    append_str(&mut sec, t.model.as_str());
    append_str(&mut sec, "\n");
    append_str(&mut sec, "  logical    : ");
    push_dec(&mut sec, t.logical_cpus as u64);
    append_str(&mut sec, " CPUs\n");
    append_str(&mut sec, "  physical   : ");
    push_opt_dec(&mut sec, t.physical_cores);
    append_str(&mut sec, " cores\n");
    append_str(&mut sec, "  classes    : P=");
    push_opt_dec(&mut sec, t.performance_cores);
    append_str(&mut sec, " E=");
    push_opt_dec(&mut sec, t.efficiency_cores);
    append_str(&mut sec, " LP=");
    push_opt_dec(&mut sec, t.low_power_cores);
    append_str(&mut sec, "\n");
    append_str(&mut sec, "  hybrid     : ");
    let hybrid = t.is_hybrid();
    let hy = if hybrid {
        "yes (P/E minibar)"
    } else {
        "no"
    };
    append_str(&mut sec, hy);
    append_str(&mut sec, "\n");
    let ghost main = sec@;
    if t.core_kinds.len() > 0 {
        let mut tail = crate::text::chars_of("  core kinds : ");
        push_kinds(&mut tail, &t.core_kinds);
        append_str(&mut tail, "\n");
        append_chars(&mut sec, tail.as_slice());
    } else {
        assert(sec@ =~= main + seq![]);
    }
    append_chars(out, sec.as_slice());
}


// ---------------------------------------------------------------------------
// GPU discovery
// ---------------------------------------------------------------------------

pub open spec fn vendor_name(v: GpuVendor) -> Seq<char> {
    match v {
        GpuVendor::Nvidia => "nvidia"@,
        GpuVendor::Amd => "amd"@,
        GpuVendor::Intel => "intel"@,
        GpuVendor::Other => "other"@,
        GpuVendor::Unknown => "unknown"@,
    }
}

fn vendor_name_exec(v: GpuVendor) -> (r: &'static str)
    ensures
        r@ == vendor_name(v),
{
    match v {
        GpuVendor::Nvidia => "nvidia",
        GpuVendor::Amd => "amd",
        GpuVendor::Intel => "intel",
        GpuVendor::Other => "other",
        GpuVendor::Unknown => "unknown",
    }
}

/// The lines describing GPU number `i`.
pub open spec fn gpu_lines(i: nat, g: GpuModel) -> Seq<char> {
    let key = key_of(g.bdf, g.uuid);
    "  ["@ + dec_repr(i) + "] "@ + g.card + " "@ + (if key.len() == 0 {
        "<no BDF>"@
    } else {
        key
    }) + " vendor="@ + vendor_name(g.vendor) + "\n"@ + "       pci "@ + hex_fixed(
        g.pci_vendor_id as nat,
        4,
    ) + ":"@ + hex_fixed(g.pci_device_id as nat, 4) + " class="@ + hex_fixed(
        g.pci_class_code as nat,
        8,
    ) + " driver="@ + (if g.driver.len() == 0 {
        "<unbound>"@
    } else {
        g.driver
    }) + " render="@ + opt_text(g.render_node) + "\n"@ + (if g.outputs.len() > 0 {
        "       outputs  : "@ + join_with(g.outputs, ", "@) + "\n"@
    } else {
        seq![]
    })
}

pub open spec fn gpu_list_lines(gs: Seq<GpuModel>) -> Seq<char>
    decreases gs.len(),
{
    if gs.len() == 0 {
        seq![]
    } else {
        gpu_list_lines(gs.drop_last()) + gpu_lines((gs.len() - 1) as nat, gs.last())
    }
}

pub open spec fn gpu_section_spec(gs: Seq<GpuModel>) -> Seq<char> {
    "GPU discovery (DRM sysfs)\n"@ + (if gs.len() == 0 {
        "  no display-class DRM devices found\n"@
    } else {
        seq![]
    }) + gpu_list_lines(gs)
}

fn push_joined(out: &mut Vec<char>, items: &Vec<String>, sep: &str)
    ensures
        final(out)@ == old(out)@ + join_with(strings_view(items@), sep@),
{
    let ghost start = out@;
    let ghost tv = strings_view(items@);
    for i in 0..items.len()
        invariant
            tv == strings_view(items@),
            out@ == start + join_with(tv.take(i as int), sep@),
    {
        let ghost pre = tv.take(i as int);
        let ghost nxt = tv.take(i + 1);
        assert(nxt.drop_last() =~= pre);
        if i > 0 {
            append_str(out, sep);
        } else {
            assert(nxt.len() == 1);
        }
        append_str(out, items[i].as_str());
        assert(out@ =~= start + join_with(nxt, sep@));
    }
    assert(tv.take(items@.len() as int) =~= tv);
}

fn gpu_lines_exec(i: usize, g: &DiscoveredGpu) -> (r: Vec<char>)
    ensures
        r@ == gpu_lines(i as nat, g@),
{
    let mut l = crate::text::chars_of("  [");
    push_dec(&mut l, i as u64);
    append_str(&mut l, "] ");
    append_str(&mut l, g.card.as_str());
    append_str(&mut l, " ");
    let key = g.device_id.key();
    let shown = if key.is_empty() {
        "<no BDF>"
    } else {
        key
    };
    append_str(&mut l, shown);
    append_str(&mut l, " vendor=");
    append_str(&mut l, vendor_name_exec(g.vendor));
    append_str(&mut l, "\n");
    append_str(&mut l, "       pci ");
    push_hex(&mut l, g.pci_vendor_id as u64, 4);
    append_str(&mut l, ":");
    push_hex(&mut l, g.pci_device_id as u64, 4);
    append_str(&mut l, " class=");
    push_hex(&mut l, g.pci_class_code as u64, 8);
    append_str(&mut l, " driver=");
    let driver = if g.driver.as_str().is_empty() {
        "<unbound>"
    } else {
        g.driver.as_str()
    };
    append_str(&mut l, driver);
    append_str(&mut l, " render=");
    push_opt_text(&mut l, &g.render_node);
    append_str(&mut l, "\n");
    let ghost main = l@;
    if g.outputs.len() > 0 {
        let mut tail = crate::text::chars_of("       outputs  : ");
        push_joined(&mut tail, &g.outputs, ", ");
        append_str(&mut tail, "\n");
        append_chars(&mut l, tail.as_slice());
    } else {
        assert(l@ =~= main + seq![]);
    }
    l
}

fn gpu_section(out: &mut Vec<char>, gpus: &Vec<DiscoveredGpu>)
    ensures
        final(out)@ == old(out)@ + gpu_section_spec(gpus_view(gpus@)),
{
    let ghost gv = gpus_view(gpus@);
    let mut sec = crate::text::chars_of("GPU discovery (DRM sysfs)\n");
    let none = if gpus.len() == 0 {
        "  no display-class DRM devices found\n"
    } else {
        ""
    };
    proof {
        reveal_strlit("");
    }
    append_str(&mut sec, none);
    let ghost head = sec@;
    assert(gv.take(0) =~= seq![]);
    assert(sec@ =~= head + gpu_list_lines(gv.take(0)));
    for i in 0..gpus.len()
        invariant
            gv == gpus_view(gpus@),
            sec@ == head + gpu_list_lines(gv.take(i as int)),
    {
        assert(gv.take(i + 1).drop_last() =~= gv.take(i as int));
        assert(gv.take(i + 1).last() == gpus@[i as int]@);
        let l = gpu_lines_exec(i, &gpus[i]);
        append_chars(&mut sec, l.as_slice());
        assert(sec@ =~= head + gpu_list_lines(gv.take(i + 1)));
    }
    assert(gv.take(gpus@.len() as int) =~= gv);
    assert(sec@ =~= gpu_section_spec(gv));
    append_chars(out, sec.as_slice());
}


// ---------------------------------------------------------------------------
// GPU provider sample
// ---------------------------------------------------------------------------

/// What a one-shot sample of the provider picked for the `Auto` selector
/// showed. Metric values come formatted for display (`37%`, `63°C`,
/// `12.5W`); a metric the provider does not expose is `None`.
pub struct ProviderReport {
    /// The sample succeeded.
    pub available: bool,
    /// Device name reported by the provider (may be empty).
    pub name: String,
    pub utilization: Option<String>,
    pub temperature: Option<String>,
    pub power: Option<String>,
    /// Why there is no sample (may be empty).
    pub error: String,
    /// Both total and used memory are exposed.
    pub has_memory: bool,
    pub has_clocks: bool,
    pub has_fan: bool,
    pub has_pcie: bool,
    /// Encoder or decoder utilization is exposed.
    pub has_codec: bool,
}

pub struct ProviderModel {
    pub available: bool,
    pub name: Seq<char>,
    pub utilization: Option<Seq<char>>,
    pub temperature: Option<Seq<char>>,
    pub power: Option<Seq<char>>,
    pub error: Seq<char>,
    pub has_memory: bool,
    pub has_clocks: bool,
    pub has_fan: bool,
    pub has_pcie: bool,
    pub has_codec: bool,
}

impl View for ProviderReport {
    type V = ProviderModel;

    open spec fn view(&self) -> ProviderModel {
        ProviderModel {
            available: self.available,
            name: self.name@,
            utilization: opt_view(self.utilization),
            temperature: opt_view(self.temperature),
            power: opt_view(self.power),
            error: self.error@,
            has_memory: self.has_memory,
            has_clocks: self.has_clocks,
            has_fan: self.has_fan,
            has_pcie: self.has_pcie,
            has_codec: self.has_codec,
        }
    }
}

impl Default for ProviderReport {
    /// No sample and no capabilities.
    fn default() -> (r: Self)
        ensures
            !r.available,
            r.name@.len() == 0,
            r.error@.len() == 0,
            r.utilization is None,
            r.temperature is None,
            r.power is None,
            !r.has_memory && !r.has_clocks && !r.has_fan && !r.has_pcie && !r.has_codec,
    {
        ProviderReport {
            available: false,
            name: String::new(),
            utilization: None,
            temperature: None,
            power: None,
            error: String::new(),
            has_memory: false,
            has_clocks: false,
            has_fan: false,
            has_pcie: false,
            has_codec: false,
        }
    }
}

/// `name` when its flag equals `want`.
pub open spec fn cap_if(name: Seq<char>, flag: bool, want: bool) -> Seq<Seq<char>> {
    if flag == want {
        seq![name]
    } else {
        seq![]
    }
}

/// Capability names whose availability equals `want`, in a fixed order.
pub open spec fn caps_with(p: ProviderModel, want: bool) -> Seq<Seq<char>> {
    cap_if("utilization"@, p.utilization is Some, want) + cap_if("memory"@, p.has_memory, want)
        + cap_if("temperature"@, p.temperature is Some, want) + cap_if(
        "power"@,
        p.power is Some,
        want,
    ) + cap_if("clocks"@, p.has_clocks, want) + cap_if("fan"@, p.has_fan, want) + cap_if(
        "pcie"@,
        p.has_pcie,
        want,
    ) + cap_if("enc/dec"@, p.has_codec, want)
}

pub open spec fn provider_section_spec(has_gpus: bool, p: ProviderModel) -> Seq<char> {
    "GPU provider (selector = Auto)\n"@ + (if p.available {
        "  device     : "@ + (if p.name.len() == 0 {
            "<unnamed>"@
        } else {
            p.name
        }) + "\n"@ + "  utilization: "@ + opt_text(p.utilization) + "  temperature: "@ + opt_text(
            p.temperature,
        ) + "  power: "@ + opt_text(p.power) + "\n"@
    } else if has_gpus {
        "  no sample  : "@ + (if p.error.len() == 0 {
            "<no error>"@
        } else {
            p.error
        }) + "\n"@
    } else {
        "  no sample  : no devices to probe\n"@
    }) + "  available  : "@ + join_or_none(caps_with(p, true)) + "\n"@ + "  unavailable: "@
        + join_or_none(caps_with(p, false)) + "\n"@
}

fn push_cap(items: &mut Vec<Vec<char>>, name: &str, flag: bool, want: bool)
    ensures
        vecs_view(final(items)@) == vecs_view(old(items)@) + cap_if(name@, flag, want),
{
    let ghost before = vecs_view(items@);
    if flag == want {
        items.push(crate::text::chars_of(name));
        assert(vecs_view(items@) =~= before + cap_if(name@, flag, want));
    } else {
        assert(vecs_view(items@) =~= before + cap_if(name@, flag, want));
    }
}

fn caps_exec(p: &ProviderReport, want: bool) -> (r: Vec<Vec<char>>)
    ensures
        vecs_view(r@) == caps_with(p@, want),
{
    let mut items: Vec<Vec<char>> = Vec::new();
    assert(vecs_view(items@) =~= seq![]);
    push_cap(&mut items, "utilization", p.utilization.is_some(), want);
    assert(vecs_view(items@) =~= cap_if("utilization"@, p.utilization is Some, want));
    push_cap(&mut items, "memory", p.has_memory, want);
    push_cap(&mut items, "temperature", p.temperature.is_some(), want);
    push_cap(&mut items, "power", p.power.is_some(), want);
    push_cap(&mut items, "clocks", p.has_clocks, want);
    push_cap(&mut items, "fan", p.has_fan, want);
    push_cap(&mut items, "pcie", p.has_pcie, want);
    push_cap(&mut items, "enc/dec", p.has_codec, want);
    items
}

fn push_join_or_none(out: &mut Vec<char>, items: &Vec<Vec<char>>)
    ensures
        final(out)@ == old(out)@ + join_or_none(vecs_view(items@)),
{
    if items.len() == 0 {
        append_str(out, "—");
    } else {
        let j = join_tokens(items, ", ");
        assert(vecs_view(items@) =~= items@.map_values(|t: Vec<char>| t@));
        append_chars(out, j.as_slice());
    }
}

fn provider_section(out: &mut Vec<char>, has_gpus: bool, p: &ProviderReport)
    ensures
        final(out)@ == old(out)@ + provider_section_spec(has_gpus, p@),
{
    let mut sec = crate::text::chars_of("GPU provider (selector = Auto)\n");
    let mut body: Vec<char>;
    if p.available {
        body = crate::text::chars_of("  device     : ");
        let name = if p.name.as_str().is_empty() {
            "<unnamed>"
        } else {
            p.name.as_str()
        };
        append_str(&mut body, name);
        append_str(&mut body, "\n");
        append_str(&mut body, "  utilization: ");
        push_opt_text(&mut body, &p.utilization);
        append_str(&mut body, "  temperature: ");
        push_opt_text(&mut body, &p.temperature);
        append_str(&mut body, "  power: ");
        push_opt_text(&mut body, &p.power);
        append_str(&mut body, "\n");
    } else if has_gpus {
        body = crate::text::chars_of("  no sample  : ");
        let err = if p.error.as_str().is_empty() {
            "<no error>"
        } else {
            p.error.as_str()
        };
        append_str(&mut body, err);
        append_str(&mut body, "\n");
    } else {
        body = crate::text::chars_of("  no sample  : no devices to probe\n");
    }
    append_chars(&mut sec, body.as_slice());
    append_str(&mut sec, "  available  : ");
    let avail = caps_exec(p, true);
    push_join_or_none(&mut sec, &avail);
    append_str(&mut sec, "\n");
    append_str(&mut sec, "  unavailable: ");
    let missing = caps_exec(p, false);
    push_join_or_none(&mut sec, &missing);
    append_str(&mut sec, "\n");
    append_chars(out, sec.as_slice());
}

// ---------------------------------------------------------------------------
// CPU sensors
// ---------------------------------------------------------------------------

/// `m / d` rounded to the nearest integer, ties to even (how `{:.0}`
/// rounds).
pub open spec fn round_div_even(m: nat, d: nat) -> nat {
    let q = m / d;
    let r = m % d;
    if 2 * r > d || (2 * r == d && q % 2 == 1) {
        q + 1
    } else {
        q
    }
}

/// A millidegree reading shown in whole degrees.
pub open spec fn opt_celsius(t: Option<u64>) -> Seq<char> {
    match t {
        Some(m) => dec_repr(round_div_even(m as nat, 1000)),
        None => dash(),
    }
}

pub open spec fn sensors_section_spec(
    temp: Option<u64>,
    freq: Option<Seq<char>>,
    power: Option<Seq<char>>,
) -> Seq<char> {
    "CPU sensors\n"@ + "  frequency  : "@ + opt_text(freq) + " MHz\n"@ + "  temperature: "@
        + opt_celsius(temp) + " °C\n"@ + "  power      : "@ + opt_text(power) + " W"@ + (if power is None {
        " (unavailable)"@
    } else {
        ""@
    }) + "\n"@
}

fn push_opt_celsius(out: &mut Vec<char>, t: Option<u64>)
    ensures
        final(out)@ == old(out)@ + opt_celsius(t),
{
    match t {
        Some(m) => {
            let q = m / 1000;
            let r = m % 1000;
            let v = if 2 * r > 1000 || (2 * r == 1000 && q % 2 == 1) {
                q + 1
            } else {
                q
            };
            push_dec(out, v);
        },
        None => append_str(out, "—"),
    }
}

fn sensors_section(
    out: &mut Vec<char>,
    temp: Option<u64>,
    freq: &Option<String>,
    power: &Option<String>,
)
    ensures
        final(out)@ == old(out)@ + sensors_section_spec(temp, opt_view(*freq), opt_view(*power)),
{
    let mut sec = crate::text::chars_of("CPU sensors\n");
    append_str(&mut sec, "  frequency  : ");
    push_opt_text(&mut sec, freq);
    append_str(&mut sec, " MHz\n");
    append_str(&mut sec, "  temperature: ");
    push_opt_celsius(&mut sec, temp);
    append_str(&mut sec, " °C\n");
    append_str(&mut sec, "  power      : ");
    push_opt_text(&mut sec, power);
    append_str(&mut sec, " W");
    let note = if power.is_none() {
        " (unavailable)"
    } else {
        ""
    };
    append_str(&mut sec, note);
    append_str(&mut sec, "\n");
    append_chars(out, sec.as_slice());
}


// ---------------------------------------------------------------------------
// llama.cpp discovery and mapping
// ---------------------------------------------------------------------------

pub open spec fn source_text(src: ServerSource) -> Seq<char> {
    match src {
        ServerSource::Process { pid } => "process (pid "@ + dec_repr(pid as nat) + ")"@,
        ServerSource::Configured => "configured"@,
    }
}

pub open spec fn candidate_line(i: nat, c: CandidateModel) -> Seq<char> {
    "  candidate["@ + dec_repr(i) + "]: "@ + source_text(c.1) + " "@ + c.0 + "\n"@
}

pub open spec fn candidate_lines(cs: Seq<CandidateModel>) -> Seq<char>
    decreases cs.len(),
{
    if cs.len() == 0 {
        seq![]
    } else {
        candidate_lines(cs.drop_last()) + candidate_line((cs.len() - 1) as nat, cs.last())
    }
}

/// Where the selected endpoint came from.
pub open spec fn source_label(auto_discovery: bool, cs: Seq<CandidateModel>, server: Option<
    Seq<char>,
>) -> Seq<char> {
    if auto_discovery && cs.len() > 0 && cs[0].1 is Process {
        "auto-discovered"@
    } else if server is Some {
        "configured"@
    } else {
        "default"@
    }
}

/// The server→GPU mapping decision, exactly as the monitor computes it:
/// only a local process behind the selected endpoint is mapped.
pub open spec fn llama_mapping_spec<S: Sys>(
    sys: &S,
    cs: Seq<CandidateModel>,
    endpoint: Seq<char>,
    nvml: Seq<NvmlDeviceInfo>,
) -> MappingModel {
    let gpus = discover_spec(sys);
    match endpoint_pid(cs, endpoint) {
        Some(pid) => map_server_spec(
            true,
            gpus,
            render_gpus_spec(sys, pid, gpus),
            nvml_keys_spec(nvml, pid),
        ),
        None => MappingModel::NotComputed,
    }
}

/// The llama.cpp section for the candidates `cs`.
pub open spec fn llama_section_from<S: Sys>(
    sys: &S,
    auto_discovery: bool,
    server: Option<Seq<char>>,
    nvml: Seq<NvmlDeviceInfo>,
    cs: Seq<CandidateModel>,
) -> Seq<char> {
    let endpoint = select_spec(cs, DEFAULT_SERVER@);
    "llama.cpp\n"@ + (if cs.len() == 0 {
        "  no local server processes found\n"@
    } else {
        ""@
    }) + candidate_lines(cs) + "  endpoint   : "@ + endpoint + " ("@ + source_label(
        auto_discovery,
        cs,
        server,
    ) + ")\n"@ + "  gpu map    : "@ + describe_spec(llama_mapping_spec(sys, cs, endpoint, nvml))
        + "\n"@
}

pub open spec fn llama_section_spec<S: Sys>(
    sys: &S,
    auto_discovery: bool,
    server: Option<Seq<char>>,
    nvml: Seq<NvmlDeviceInfo>,
) -> Seq<char> {
    llama_section_from(sys, auto_discovery, server, nvml, collect_spec(sys, auto_discovery, server))
}

/// The candidates with their command lines dropped.
pub open spec fn without_commands(cs: Seq<CandidateModel>) -> Seq<CandidateModel> {
    cs.map_values(|c: CandidateModel| (c.0, c.1, None::<Seq<char>>))
}

proof fn lemma_candidate_lines_ignore_commands(cs: Seq<CandidateModel>)
    ensures
        candidate_lines(without_commands(cs)) == candidate_lines(cs),
    decreases cs.len(),
{
    if cs.len() > 0 {
        assert(without_commands(cs).drop_last() =~= without_commands(cs.drop_last()));
        lemma_candidate_lines_ignore_commands(cs.drop_last());
    }
}

proof fn lemma_endpoint_pid_ignores_commands(cs: Seq<CandidateModel>, e: Seq<char>)
    ensures
        endpoint_pid(without_commands(cs), e) == endpoint_pid(cs, e),
    decreases cs.len(),
{
    if cs.len() > 0 {
        assert(without_commands(cs).drop_first() =~= without_commands(cs.drop_first()));
        lemma_endpoint_pid_ignores_commands(cs.drop_first(), e);
    }
}

/// No command-line text reaches the report: the llama.cpp section reads
/// only each candidate's endpoint and source (a PID at most), so it is the
/// same whatever the processes' command lines say, secrets among them.
pub proof fn law_report_omits_command_lines<S: Sys>(
    sys: &S,
    auto_discovery: bool,
    server: Option<Seq<char>>,
    nvml: Seq<NvmlDeviceInfo>,
    cs: Seq<CandidateModel>,
)
    ensures
        llama_section_from(sys, auto_discovery, server, nvml, without_commands(cs))
            == llama_section_from(sys, auto_discovery, server, nvml, cs),
        llama_section_spec(sys, auto_discovery, server, nvml) == llama_section_from(
            sys,
            auto_discovery,
            server,
            nvml,
            without_commands(collect_spec(sys, auto_discovery, server)),
        ),
{
    let w = without_commands(cs);
    assert(first_configured_same(cs, w));
    law_selection_ignores_pids(cs, w, DEFAULT_SERVER@);
    lemma_candidate_lines_ignore_commands(cs);
    let e = select_spec(cs, DEFAULT_SERVER@);
    lemma_endpoint_pid_ignores_commands(cs, e);
    let c2 = collect_spec(sys, auto_discovery, server);
    let w2 = without_commands(c2);
    assert(first_configured_same(c2, w2));
    law_selection_ignores_pids(c2, w2, DEFAULT_SERVER@);
    lemma_candidate_lines_ignore_commands(c2);
    lemma_endpoint_pid_ignores_commands(c2, select_spec(c2, DEFAULT_SERVER@));
}

fn candidate_line_exec(i: usize, c: &LlamaServerCandidate) -> (r: Vec<char>)
    ensures
        r@ == candidate_line(i as nat, c@),
{
    let mut l = crate::text::chars_of("  candidate[");
    push_dec(&mut l, i as u64);
    append_str(&mut l, "]: ");
    let ghost before = l@;
    match c.source {
        ServerSource::Process { pid } => {
            let mut t = crate::text::chars_of("process (pid ");
            push_dec(&mut t, pid as u64);
            append_str(&mut t, ")");
            append_chars(&mut l, t.as_slice());
        },
        ServerSource::Configured => {
            append_str(&mut l, "configured");
        },
    }
    assert(l@ == before + source_text(c.source));
    append_str(&mut l, " ");
    append_str(&mut l, c.endpoint.as_str());
    append_str(&mut l, "\n");
    l
}

fn llama_section<S: Sys>(
    out: &mut Vec<char>,
    sys: &S,
    gpus: &Vec<DiscoveredGpu>,
    auto_discovery: bool,
    server: Option<&str>,
    nvml: &[NvmlDeviceInfo],
)
    requires
        gpus_view(gpus@) == discover_spec(sys),
    ensures
        final(out)@ == old(out)@ + llama_section_spec(
            sys,
            auto_discovery,
            match server {
                Some(e) => Some(e@),
                None => None::<Seq<char>>,
            },
            nvml@,
        ),
{
    let ghost server_v = match server {
        Some(e) => Some(e@),
        None => None::<Seq<char>>,
    };
    let cands = collect_candidates(sys, auto_discovery, server);
    let ghost cv = cands_view(cands@);
    let endpoint = select_endpoint(cands.as_slice(), DEFAULT_SERVER);
    let mut sec = crate::text::chars_of("llama.cpp\n");
    let none = if cands.len() == 0 {
        "  no local server processes found\n"
    } else {
        ""
    };
    append_str(&mut sec, none);
    let ghost head = sec@;
    assert(cv.take(0) =~= seq![]);
    assert(sec@ =~= head + candidate_lines(cv.take(0)));
    for i in 0..cands.len()
        invariant
            cv == cands_view(cands@),
            sec@ == head + candidate_lines(cv.take(i as int)),
    {
        assert(cv.take(i + 1).drop_last() =~= cv.take(i as int));
        assert(cv.take(i + 1).last() == cands@[i as int]@);
        let l = candidate_line_exec(i, &cands[i]);
        append_chars(&mut sec, l.as_slice());
        assert(sec@ =~= head + candidate_lines(cv.take(i + 1)));
    }
    assert(cv.take(cands@.len() as int) =~= cv);
    append_str(&mut sec, "  endpoint   : ");
    append_str(&mut sec, endpoint.as_str());
    append_str(&mut sec, " (");
    let auto_found = auto_discovery && cands.len() > 0 && match cands[0].source {
        ServerSource::Process { .. } => true,
        ServerSource::Configured => false,
    };
    proof {
        if cands.len() > 0 {
            assert(cv[0] == cands@[0]@);
        }
    }
    let label = if auto_found {
        "auto-discovered"
    } else if server.is_some() {
        "configured"
    } else {
        "default"
    };
    append_str(&mut sec, label);
    append_str(&mut sec, ")\n");
    append_str(&mut sec, "  gpu map    : ");
    let pid = selected_endpoint_pid(cands.as_slice(), endpoint.as_str());
    let mapping = match pid {
        Some(p) => {
            let render = process_render_gpus(sys, p, gpus.as_slice());
            let keys = nvml_compute_keys(nvml, p);
            map_server_gpus(true, render, keys, gpus.as_slice())
        },
        None => GpuMapping::NotComputed,
    };
    push_mapping(&mut sec, &mapping);
    append_str(&mut sec, "\n");
    append_chars(out, sec.as_slice());
}

// ---------------------------------------------------------------------------
// The report
// ---------------------------------------------------------------------------

/// Readings only live hardware can give, taken by the caller.
pub struct DiagReadings {
    /// One-shot sample of the provider the `Auto` selector picks.
    pub provider: ProviderReport,
    /// Average CPU frequency in MHz, formatted, when known.
    pub cpu_frequency: Option<String>,
    /// CPU package power in W, formatted, when known.
    pub cpu_power: Option<String>,
    /// NVML compute-process lists per device, when NVML is available.
    pub nvml: Option<Vec<NvmlDeviceInfo>>,
}

impl Default for DiagReadings {
    /// Nothing measured: no provider sample, no CPU frequency or power, no
    /// NVML.
    fn default() -> (r: Self)
        ensures
            !r.provider.available,
            r.provider.name@.len() == 0,
            r.provider.error@.len() == 0,
            r.provider.utilization is None,
            r.provider.temperature is None,
            r.provider.power is None,
            !r.provider.has_memory && !r.provider.has_clocks && !r.provider.has_fan
                && !r.provider.has_pcie && !r.provider.has_codec,
            r.cpu_frequency is None,
            r.cpu_power is None,
            r.nvml is None,
    {
        DiagReadings {
            provider: ProviderReport::default(),
            cpu_frequency: None,
            cpu_power: None,
            nvml: None,
        }
    }
}

pub open spec fn nvml_seq(n: Option<Vec<NvmlDeviceInfo>>) -> Seq<NvmlDeviceInfo> {
    match n {
        Some(v) => v@,
        None => seq![],
    }
}

pub open spec fn header_spec() -> Seq<char> {
    "OrsikTop diagnostics\n"@ + "  version    : "@ + VERSION@ + "\n"@
}

/// The whole report.
pub open spec fn render_spec<S: Sys>(
    sys: &S,
    logical: usize,
    auto_discovery: bool,
    server: Option<Seq<char>>,
    readings: DiagReadings,
) -> Seq<char> {
    let gpus = discover_spec(sys);
    header_spec() + cpu_section_spec(sys, logical) + gpu_section_spec(gpus)
        + provider_section_spec(gpus.len() > 0, readings.provider@) + sensors_section_spec(
        temperature_spec(sys, temp_sensors_spec(sys)),
        opt_view(readings.cpu_frequency),
        opt_view(readings.cpu_power),
    ) + llama_section_spec(sys, auto_discovery, server, nvml_seq(readings.nvml))
}

/// Builds the diagnostics report: header, CPU topology, GPU discovery, the
/// provider sample, CPU sensors, and llama.cpp discovery with the
/// server→GPU mapping decision. Every filesystem read goes through `sys`.
pub fn render<S: Sys>(
    sys: &S,
    logical: usize,
    auto_discovery: bool,
    server: Option<&str>,
    readings: &DiagReadings,
) -> (r: String)
    ensures
        r@ == render_spec(
            sys,
            logical,
            auto_discovery,
            match server {
                Some(e) => Some(e@),
                None => None::<Seq<char>>,
            },
            *readings,
        ),
{
    let mut out = crate::text::chars_of("OrsikTop diagnostics\n");
    append_str(&mut out, "  version    : ");
    append_str(&mut out, VERSION);
    append_str(&mut out, "\n");
    cpu_section(&mut out, sys, logical);
    let gpus = crate::discovery::discover_gpus(sys);
    gpu_section(&mut out, &gpus);
    provider_section(&mut out, gpus.len() > 0, &readings.provider);
    let mut sensors = CpuSensors::default();
    sensors.discover(sys);
    let temp = sensors.temperature_millic(sys);
    sensors_section(&mut out, temp, &readings.cpu_frequency, &readings.cpu_power);
    let empty: Vec<NvmlDeviceInfo> = Vec::new();
    let nvml = match &readings.nvml {
        Some(v) => v.as_slice(),
        None => empty.as_slice(),
    };
    llama_section(&mut out, sys, &gpus, auto_discovery, server, nvml);
    string_of(out.as_slice())
}

} // verus!
