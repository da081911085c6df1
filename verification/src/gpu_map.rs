//! Map the llama.cpp inference server process to the GPU(s) it actually uses.
//!
//! Device attribution comes from *evidence*, never from guessing. Two
//! independent, vendor-neutral evidence sources are combined:
//!
//! * **DRM render-node fds** — the process holds an open DRM render node
//!   (`/dev/dri/by-path/…` or `/dev/dri/renderD…`) that identifies a PCI BDF.
//! * **NVIDIA NVML compute processes** — NVML reports the process as a running
//!   compute client of a specific device.
//!
//! The result is a [`GpuMapping`] with explicit states (one / multiple /
//! unknown) so a missing or ambiguous device is never faked.

use vstd::prelude::*;

use crate::discovery::{gpus_view, is_bdf_chars, is_bdf_spec, model_key, DiscoveredGpu, GpuModel};
use crate::domain::{
    key_of, normalize_bdf_spec, normalize_pci_bdf, opt_view, DeviceId, DeviceModel, GpuEvidence,
    GpuMapping, GpuVendor, MappedGpu,
};
use crate::gpu::{first_with_key, lemma_first_with_key_props};
use crate::order::{
    distinct_keys_of, keyed_view, lemma_sort_by_key_sorted, lemma_sort_keeps_distinct,
    lemma_sort_members, sort_by_key, sort_by_key_spec, sorted_by_key,
};
use crate::paths::{join_str, last_component, last_component_of, path_join};
use crate::system::{entries_view, EntryModel, Sys};
use crate::text::{
    append_str, chars_of, dec_repr, eq_chars, first_index, push_dec, slice_vec, starts_with,
    starts_with_str, string_of, trim, trim_str,
};

verus! {

// ---------------------------------------------------------------------------
// BDF keys from device-node names
// ---------------------------------------------------------------------------

/// True when `key` is a PCI BDF of the form `dddd:bb:dd.f`.
pub fn is_bdf(key: &str) -> (r: bool)
    ensures
        r == is_bdf_spec(key@),
{
    let v = chars_of(key);
    is_bdf_chars(v.as_slice())
}

/// The PCI BDF embedded in a DRM by-path name (`pci-<BDF>-render`): the text
/// between `pci-` and the next `-`, when it is a BDF.
pub open spec fn by_path_bdf(name: Seq<char>) -> Option<Seq<char>> {
    if starts_with(name, "pci-"@) {
        let rest = name.skip(4);
        let bdf = match first_index(rest, '-') {
            Some(i) => rest.take(i),
            None => rest,
        };
        if is_bdf_spec(bdf) {
            Some(bdf)
        } else {
            None
        }
    } else {
        None
    }
}

/// Parse the PCI BDF embedded in a DRM **by-path** name
/// (`pci-0000:01:00.0-render`, `pci-0000:01:00.0-card`). `None` for non-PCI
/// by-path names (`platform-…`) or malformed input.
pub fn bdf_from_by_path_name(name: &str) -> (r: Option<String>)
    ensures
        opt_view(r) == by_path_bdf(name@),
{
    let v = chars_of(name);
    proof {
        reveal_strlit("pci-");
    }
    if !starts_with_str(v.as_slice(), "pci-") {
        return None;
    }
    let rest = slice_vec(&v, 4, v.len());
    assert(rest@ =~= name@.skip(4));
    proof {
        crate::text::lemma_first_index_props(rest@, '-');
    }
    let bdf = match crate::text::find_char(rest.as_slice(), '-') {
        Some(i) => {
            let b = slice_vec(&rest, 0, i);
            assert(b@ =~= rest@.take(i as int));
            b
        },
        None => rest,
    };
    if is_bdf_chars(bdf.as_slice()) {
        Some(string_of(bdf.as_slice()))
    } else {
        None
    }
}

// ---------------------------------------------------------------------------
// Render-node evidence
// ---------------------------------------------------------------------------

/// `/proc/<pid>/fd`.
pub open spec fn fd_dir(pid: u32) -> Seq<char> {
    "/proc/"@ + dec_repr(pid as nat) + "/fd"@
}

/// Key of the discovered device that owns render node `node`.
pub open spec fn render_owner_key(gs: Seq<GpuModel>, node: Seq<char>) -> Option<Seq<char>>
    decreases gs.len(),
{
    if gs.len() == 0 {
        None
    } else if gs[0].render_node == Some(node) {
        Some(model_key(gs[0]))
    } else {
        render_owner_key(gs.drop_first(), node)
    }
}

/// The key an open device node points at: a render node through the device
/// that owns it, a by-path name through the BDF in it.
pub open spec fn fd_key(gs: Seq<GpuModel>, component: Seq<char>) -> Option<Seq<char>> {
    if starts_with(component, "renderD"@) {
        render_owner_key(gs, component)
    } else {
        by_path_bdf(component)
    }
}

/// Identity of the first discovered device with key `key`.
pub open spec fn device_of_key(gs: Seq<GpuModel>, key: Seq<char>) -> Option<DeviceModel> {
    match first_with_key(gs, key) {
        Some(k) => Some((gs[k].bdf, gs[k].uuid)),
        None => None,
    }
}

pub open spec fn has_device_key(ds: Seq<DeviceModel>, key: Seq<char>) -> bool {
    exists|i: int| 0 <= i < ds.len() && key_of(#[trigger] ds[i].0, ds[i].1) == key
}

/// Effect of one open file descriptor on the devices found so far.
pub open spec fn fd_step<S: Sys>(sys: &S, gs: Seq<GpuModel>, pid: u32, acc: Seq<DeviceModel>, e: EntryModel) -> Seq<DeviceModel> {
    match sys.spec_link(path_join(fd_dir(pid), e.0)) {
        None => acc,
        Some(t) => match last_component(trim(t)) {
            None => acc,
            Some(c) => match fd_key(gs, c) {
                None => acc,
                Some(k) => match device_of_key(gs, k) {
                    None => acc,
                    Some(d) => if has_device_key(acc, key_of(d.0, d.1)) {
                        acc
                    } else {
                        acc.push(d)
                    },
                },
            },
        },
    }
}

pub open spec fn fd_devices<S: Sys>(sys: &S, gs: Seq<GpuModel>, pid: u32, es: Seq<EntryModel>) -> Seq<DeviceModel>
    decreases es.len(),
{
    if es.len() == 0 {
        seq![]
    } else {
        fd_step(sys, gs, pid, fd_devices(sys, gs, pid, es.drop_last()), es.last())
    }
}

/// Devices (once per key, in fd order) that `pid` holds a render node of.
pub open spec fn render_gpus_spec<S: Sys>(sys: &S, pid: u32, gs: Seq<GpuModel>) -> Seq<DeviceModel> {
    match sys.spec_dir(fd_dir(pid)) {
        None => seq![],
        Some(es) => fd_devices(sys, gs, pid, es),
    }
}

pub open spec fn devices_view(ds: Seq<DeviceId>) -> Seq<DeviceModel> {
    ds.map_values(|d: DeviceId| d@)
}

fn render_owner(gpus: &[DiscoveredGpu], node: &Vec<char>) -> (r: Option<Vec<char>>)
    ensures
        match r {
            Some(k) => render_owner_key(gpus_view(gpus@), node@) == Some(k@),
            None => render_owner_key(gpus_view(gpus@), node@) is None,
        },
{
    let ghost gv = gpus_view(gpus@);
    let mut i: usize = 0;
    assert(gv.skip(0) =~= gv);
    while i < gpus.len()
        invariant
            i <= gpus@.len(),
            gv == gpus_view(gpus@),
            render_owner_key(gv, node@) == render_owner_key(gv.skip(i as int), node@),
        decreases gpus@.len() - i,
    {
        let ghost rest = gv.skip(i as int);
        assert(rest[0] == gpus@[i as int]@);
        let hit = match &gpus[i].render_node {
            Some(n) => {
                let nv = chars_of(n.as_str());
                eq_chars(nv.as_slice(), node.as_slice())
            },
            None => false,
        };
        if hit {
            return Some(chars_of(gpus[i].device_id.key()));
        }
        assert(rest.drop_first() =~= gv.skip(i + 1));
        i = i + 1;
    }
    None
}

fn device_for_key(gpus: &[DiscoveredGpu], key: &Vec<char>) -> (r: Option<DeviceId>)
    ensures
        match r {
            Some(d) => device_of_key(gpus_view(gpus@), key@) == Some(d@),
            None => device_of_key(gpus_view(gpus@), key@) is None,
        },
{
    let ghost gv = gpus_view(gpus@);
    let mut i: usize = 0;
    assert(gv.skip(0) =~= gv);
    while i < gpus.len()
        invariant
            i <= gpus@.len(),
            gv == gpus_view(gpus@),
            first_with_key(gv, key@) == (match first_with_key(gv.skip(i as int), key@) {
                Some(k) => Some(k + i),
                None => None::<int>,
            }),
        decreases gpus@.len() - i,
    {
        let ghost rest = gv.skip(i as int);
        assert(rest[0] == gpus@[i as int]@);
        assert(rest.drop_first() =~= gv.skip(i + 1));
        let k = chars_of(gpus[i].device_id.key());
        if eq_chars(k.as_slice(), key.as_slice()) {
            return Some(gpus[i].device_id.duplicate());
        }
        i = i + 1;
    }
    None
}

fn has_key_exec(ds: &Vec<DeviceId>, key: &Vec<char>) -> (r: bool)
    ensures
        r == has_device_key(devices_view(ds@), key@),
{
    let ghost dv = devices_view(ds@);
    for i in 0..ds.len()
        invariant
            dv == devices_view(ds@),
            forall|j: int| 0 <= j < i ==> key_of(#[trigger] dv[j].0, dv[j].1) != key@,
    {
        assert(dv[i as int] == ds@[i as int]@);
        let k = chars_of(ds[i].key());
        if eq_chars(k.as_slice(), key.as_slice()) {
            assert(key_of(dv[i as int].0, dv[i as int].1) == key@);
            return true;
        }
    }
    false
}

pub fn fd_dir_exec(pid: u32) -> (r: Vec<char>)
    ensures
        r@ == fd_dir(pid),
{
    let mut v = chars_of("/proc/");
    push_dec(&mut v, pid as u64);
    append_str(&mut v, "/fd");
    v
}

/// PCI devices of the discovered GPUs that the process has an open DRM
/// render node for, derived from its open file descriptors; each device
/// once, in fd order, empty when the process has none (or no fd directory).
pub fn process_render_gpus<S: Sys>(sys: &S, pid: u32, gpus: &[DiscoveredGpu]) -> (r: Vec<DeviceId>)
    ensures
        devices_view(r@) == render_gpus_spec(sys, pid, gpus_view(gpus@)),
{
    let dir = fd_dir_exec(pid);
    let dir_s = string_of(dir.as_slice());
    let entries = match sys.read_dir(dir_s.as_str()) {
        Some(es) => es,
        None => return Vec::new(),
    };
    let ghost gv = gpus_view(gpus@);
    let ghost ev = entries_view(entries@);
    let mut result: Vec<DeviceId> = Vec::new();
    for i in 0..entries.len()
        invariant
            dir@ == fd_dir(pid),
            gv == gpus_view(gpus@),
            ev == entries_view(entries@),
            devices_view(result@) == fd_devices(sys, gv, pid, ev.take(i as int)),
    {
        let ghost pre = ev.take(i as int);
        let ghost nxt = ev.take(i + 1);
        assert(nxt.drop_last() =~= pre);
        assert(nxt.last() == entries@[i as int]@);
        let ghost r0 = devices_view(result@);
        let path = join_str(dir.as_slice(), entries[i].name.as_str());
        if let Some(target) = sys.symlink_target(path.as_str()) {
            let t = string_of(trim_str(target.as_str()).as_slice());
            if let Some(component) = last_component_of(t.as_str()) {
                proof {
                    reveal_strlit("renderD");
                }
                let key = if starts_with_str(component.as_slice(), "renderD") {
                    render_owner(gpus, &component)
                } else {
                    let cs = string_of(component.as_slice());
                    match bdf_from_by_path_name(cs.as_str()) {
                        Some(b) => Some(chars_of(b.as_str())),
                        None => None,
                    }
                };
                if let Some(key) = key {
                    if let Some(device) = device_for_key(gpus, &key) {
                        let dk = chars_of(device.key());
                        if !has_key_exec(&result, &dk) {
                            let ghost dm = device@;
                            result.push(device);
                            assert(devices_view(result@) =~= r0.push(dm));
                        }
                    }
                }
            }
        }
    }
    assert(ev.take(entries@.len() as int) =~= ev);
    result
}

// ---------------------------------------------------------------------------
// Combining evidence
// ---------------------------------------------------------------------------

/// Abstract value of a [`MappedGpu`]: device, card name, vendor, evidence.
pub type MappedModel = (DeviceModel, Seq<char>, GpuVendor, GpuEvidence);

pub open spec fn mapped_view(m: MappedGpu) -> MappedModel {
    (m.device@, m.name@, m.vendor, m.evidence)
}

/// Abstract value of a [`GpuMapping`].
pub enum MappingModel {
    NotComputed,
    Single(MappedModel),
    Multi(Seq<MappedModel>),
    Unknown,
}

pub open spec fn mapping_view(m: GpuMapping) -> MappingModel {
    match m {
        GpuMapping::NotComputed => MappingModel::NotComputed,
        GpuMapping::Single(g) => MappingModel::Single(mapped_view(g)),
        GpuMapping::Multi(gs) => MappingModel::Multi(gs@.map_values(|g: MappedGpu| mapped_view(g))),
        GpuMapping::Unknown => MappingModel::Unknown,
    }
}

/// Position of the entry with key `key`.
pub open spec fn key_index(merged: Seq<(Seq<char>, MappedModel)>, key: Seq<char>) -> Option<int>
    decreases merged.len(),
{
    if merged.len() == 0 {
        None
    } else if merged.last().0 == key {
        Some(merged.len() - 1)
    } else {
        key_index(merged.drop_last(), key)
    }
}

/// Add one piece of evidence. A new key gets an entry named after the
/// discovered device with that key (if any); a known key only upgrades its
/// evidence to render-node evidence.
pub open spec fn insert_evidence(
    gs: Seq<GpuModel>,
    merged: Seq<(Seq<char>, MappedModel)>,
    key: Seq<char>,
    device: DeviceModel,
    ev: GpuEvidence,
) -> Seq<(Seq<char>, MappedModel)> {
    match key_index(merged, key) {
        Some(i) => if ev == GpuEvidence::RenderNodeFd {
            merged.update(
                i,
                (merged[i].0, (merged[i].1.0, merged[i].1.1, merged[i].1.2, GpuEvidence::RenderNodeFd)),
            )
        } else {
            merged
        },
        None => {
            let found = first_with_key(gs, key);
            let name = match found {
                Some(k) => gs[k].card,
                None => seq![],
            };
            let vendor = match found {
                Some(k) => gs[k].vendor,
                None => GpuVendor::Unknown,
            };
            merged.push((key, (device, name, vendor, ev)))
        },
    }
}

/// Merge key of the `i`-th render device: its key, or a slot of its own
/// (`\0render:<i>`) when it has none.
pub open spec fn render_slot_key(d: DeviceModel, i: nat) -> Seq<char> {
    if key_of(d.0, d.1).len() == 0 {
        seq!['\0'] + "render:"@ + dec_repr(i)
    } else {
        key_of(d.0, d.1)
    }
}

pub open spec fn merge_render(gs: Seq<GpuModel>, render: Seq<DeviceModel>) -> Seq<(Seq<char>, MappedModel)>
    decreases render.len(),
{
    if render.len() == 0 {
        seq![]
    } else {
        let i = (render.len() - 1) as nat;
        insert_evidence(
            gs,
            merge_render(gs, render.drop_last()),
            render_slot_key(render.last(), i),
            render.last(),
            GpuEvidence::RenderNodeFd,
        )
    }
}

/// The device an NVML key names: a BDF, else a UUID.
pub open spec fn nvml_device(key: Seq<char>) -> DeviceModel {
    if is_bdf_spec(key) {
        (Some(normalize_bdf_spec(key)), None)
    } else {
        (None, Some(key))
    }
}

pub open spec fn merge_nvml(
    gs: Seq<GpuModel>,
    start: Seq<(Seq<char>, MappedModel)>,
    nvml: Seq<Seq<char>>,
) -> Seq<(Seq<char>, MappedModel)>
    decreases nvml.len(),
{
    if nvml.len() == 0 {
        start
    } else {
        insert_evidence(gs, merge_nvml(gs, start, nvml.drop_last()), nvml.last(), nvml_device(nvml.last()), GpuEvidence::NvmlCompute)
    }
}

/// Render evidence first, then NVML evidence, ordered by merge key.
pub open spec fn combined_entries(gs: Seq<GpuModel>, render: Seq<DeviceModel>, nvml: Seq<Seq<char>>) -> Seq<(Seq<char>, MappedModel)> {
    sort_by_key_spec(merge_nvml(gs, merge_render(gs, render), nvml))
}

pub open spec fn mapping_of(ds: Seq<MappedModel>) -> MappingModel {
    if ds.len() == 0 {
        MappingModel::NotComputed
    } else if ds.len() == 1 {
        MappingModel::Single(ds[0])
    } else {
        MappingModel::Multi(ds)
    }
}

pub open spec fn combine_spec(gs: Seq<GpuModel>, render: Seq<DeviceModel>, nvml: Seq<Seq<char>>) -> MappingModel {
    mapping_of(combined_entries(gs, render, nvml).map_values(|p: (Seq<char>, MappedModel)| p.1))
}

pub open spec fn merged_view(v: Seq<(Vec<char>, MappedGpu)>) -> Seq<(Seq<char>, MappedModel)> {
    v.map_values(|p: (Vec<char>, MappedGpu)| (p.0@, mapped_view(p.1)))
}

proof fn lemma_key_index_props(merged: Seq<(Seq<char>, MappedModel)>, key: Seq<char>)
    ensures
        match key_index(merged, key) {
            Some(i) => 0 <= i < merged.len() && merged[i].0 == key,
            None => forall|j: int| 0 <= j < merged.len() ==> (#[trigger] merged[j]).0 != key,
        },
    decreases merged.len(),
{
    if merged.len() > 0 {
        lemma_key_index_props(merged.drop_last(), key);
        assert forall|j: int| 0 <= j < merged.len() - 1 implies merged[j] == merged.drop_last()[j] by {}
    }
}

fn evidence_is_render(e: GpuEvidence) -> (r: bool)
    ensures
        r == (e == GpuEvidence::RenderNodeFd),
{
    match e {
        GpuEvidence::RenderNodeFd => true,
        GpuEvidence::NvmlCompute => false,
    }
}

fn discovered_name(gpus: &[DiscoveredGpu], key: &Vec<char>) -> (r: (String, GpuVendor))
    ensures
        match first_with_key(gpus_view(gpus@), key@) {
            Some(k) => r.0@ == gpus_view(gpus@)[k].card && r.1 == gpus_view(gpus@)[k].vendor,
            None => r.0@ == Seq::<char>::empty() && r.1 == GpuVendor::Unknown,
        },
{
    let ghost gv = gpus_view(gpus@);
    let mut j: usize = 0;
    assert(gv.skip(0) =~= gv);
    while j < gpus.len()
        invariant
            j <= gpus@.len(),
            gv == gpus_view(gpus@),
            first_with_key(gv, key@) == (match first_with_key(gv.skip(j as int), key@) {
                Some(k) => Some(k + j),
                None => None::<int>,
            }),
        decreases gpus@.len() - j,
    {
        let ghost rest = gv.skip(j as int);
        assert(rest[0] == gpus@[j as int]@);
        assert(rest.drop_first() =~= gv.skip(j + 1));
        let gk = chars_of(gpus[j].device_id.key());
        if eq_chars(gk.as_slice(), key.as_slice()) {
            return (gpus[j].card.clone(), gpus[j].vendor);
        }
        j = j + 1;
    }
    (String::new(), GpuVendor::Unknown)
}

fn insert_exec(
    gpus: &[DiscoveredGpu],
    merged: &mut Vec<(Vec<char>, MappedGpu)>,
    key: Vec<char>,
    device: DeviceId,
    evidence: GpuEvidence,
)
    ensures
        merged_view(final(merged)@) == insert_evidence(
            gpus_view(gpus@),
            merged_view(old(merged)@),
            key@,
            device@,
            evidence,
        ),
{
    let ghost mv = merged_view(merged@);
    proof {
        lemma_key_index_props(mv, key@);
    }
    let mut i = merged.len();
    assert(mv.take(i as int) =~= mv);
    while i > 0
        invariant
            i <= merged@.len(),
            merged@ == old(merged)@,
            mv == merged_view(merged@),
            key_index(mv, key@) == key_index(mv.take(i as int), key@),
        decreases i,
    {
        let ghost t = mv.take(i as int);
        assert(t.last() == mv[i - 1]);
        if eq_chars(merged[i - 1].0.as_slice(), key.as_slice()) {
            assert(mv[i - 1].0 == merged@[i - 1].0@);
            assert(key_index(t, key@) == Some((i - 1) as int));
            if evidence_is_render(evidence) {
                let mut slot = merged.remove(i - 1);
                slot.1.evidence = GpuEvidence::RenderNodeFd;
                merged.insert(i - 1, slot);
                assert(merged_view(merged@) =~= mv.update(
                    i - 1,
                    (mv[i - 1].0, (mv[i - 1].1.0, mv[i - 1].1.1, mv[i - 1].1.2, GpuEvidence::RenderNodeFd)),
                ));
            }
            return;
        }
        assert(t.drop_last() =~= mv.take(i - 1));
        i = i - 1;
    }
    let ks = string_of(key.as_slice());
    let (name, vendor) = discovered_name(gpus, &key);
    let ghost before = merged_view(merged@);
    let mapped = MappedGpu { device, name, vendor, evidence };
    assert(ks@ == key@);
    merged.push((key, mapped));
    assert(merged_view(merged@) =~= before.push((ks@, mapped_view(mapped))));
}


fn is_render_evidence_key(i: usize, d: &DeviceId) -> (r: Vec<char>)
    ensures
        r@ == render_slot_key(d@, i as nat),
{
    let dk = chars_of(d.key());
    if dk.len() == 0 {
        let mut k: Vec<char> = Vec::new();
        k.push('\0');
        append_str(&mut k, "render:");
        push_dec(&mut k, i as u64);
        assert(k@ =~= seq!['\0'] + "render:"@ + dec_repr(i as nat));
        k
    } else {
        dk
    }
}

/// Combine render-node and NVML evidence into a [`GpuMapping`].
///
/// Union by stable key (BDF, else UUID). When both sources name the same
/// device, the render-node evidence wins. A device with no key is kept as its
/// own entry (never merged with another unkeyed device). Entries are ordered
/// by key.
pub fn combine_gpus(render: Vec<DeviceId>, nvml: Vec<String>, gpus: &[DiscoveredGpu]) -> (r: GpuMapping)
    ensures
        mapping_view(r) == combine_spec(gpus_view(gpus@), devices_view(render@), crate::discovery::strings_view(nvml@)),
{
    let ghost gv = gpus_view(gpus@);
    let ghost rv = devices_view(render@);
    let ghost nv = crate::discovery::strings_view(nvml@);
    let mut merged: Vec<(Vec<char>, MappedGpu)> = Vec::new();
    for i in 0..render.len()
        invariant
            gv == gpus_view(gpus@),
            rv == devices_view(render@),
            merged_view(merged@) == merge_render(gv, rv.take(i as int)),
    {
        let ghost pre = rv.take(i as int);
        let ghost nxt = rv.take(i + 1);
        assert(nxt.drop_last() =~= pre);
        assert(nxt.last() == render@[i as int]@);
        let key = is_render_evidence_key(i, &render[i]);
        insert_exec(gpus, &mut merged, key, render[i].duplicate(), GpuEvidence::RenderNodeFd);
    }
    assert(rv.take(render@.len() as int) =~= rv);
    for j in 0..nvml.len()
        invariant
            gv == gpus_view(gpus@),
            rv == devices_view(render@),
            nv == crate::discovery::strings_view(nvml@),
            merged_view(merged@) == merge_nvml(gv, merge_render(gv, rv), nv.take(j as int)),
    {
        let ghost pre = nv.take(j as int);
        let ghost nxt = nv.take(j + 1);
        assert(nxt.drop_last() =~= pre);
        assert(nxt.last() == nvml@[j as int]@);
        let key = chars_of(nvml[j].as_str());
        let device = if is_bdf(nvml[j].as_str()) {
            DeviceId::new(Some(nvml[j].clone()), None)
        } else {
            DeviceId::new(None, Some(nvml[j].clone()))
        };
        insert_exec(gpus, &mut merged, key, device, GpuEvidence::NvmlCompute);
    }
    assert(nv.take(nvml@.len() as int) =~= nv);
    let ghost mexec = merged@;
    let mut sorted = sort_by_key(merged);
    let ghost sv = keyed_view(sorted@);
    let ghost entries = combined_entries(gv, rv, nv);
    proof {
        let f = |g: MappedGpu| mapped_view(g);
        crate::order::lemma_sort_map(keyed_view(mexec), f);
        assert(crate::order::map_items(keyed_view(mexec), f) =~= merged_view(mexec));
        assert(crate::order::map_items(sv, f) == entries);
    }
    let m = sorted.len();
    let mut devices: Vec<MappedGpu> = Vec::new();
    let mut k: usize = 0;
    while sorted.len() > 0
        invariant
            m == sv.len() == k + sorted@.len(),
            keyed_view(sorted@) == sv.skip(k as int),
            devices@ == sv.take(k as int).map_values(|p: (Seq<char>, MappedGpu)| p.1),
        decreases sorted@.len(),
    {
        let ghost rest = sorted@;
        let (_, g) = sorted.remove(0);
        assert(keyed_view(rest)[0] == sv[k as int]);
        assert(keyed_view(sorted@) =~= sv.skip(k + 1)) by {
            assert(sorted@ =~= rest.drop_first());
            assert(keyed_view(sorted@) =~= keyed_view(rest).drop_first());
            assert(sv.skip(k as int).drop_first() =~= sv.skip(k + 1));
        }
        devices.push(g);
        assert(devices@ =~= sv.take(k + 1).map_values(|p: (Seq<char>, MappedGpu)| p.1));
        k = k + 1;
    }
    assert(sv.take(k as int) =~= sv);
    proof {
        let f = |g: MappedGpu| mapped_view(g);
        assert(devices@.map_values(|g: MappedGpu| mapped_view(g)) =~= entries.map_values(
            |p: (Seq<char>, MappedModel)| p.1,
        )) by {
            assert(crate::order::map_items(sv, f) == entries);
            assert forall|i: int| 0 <= i < devices@.len() implies mapped_view(#[trigger] devices@[i]) == entries[i].1 by {
                assert(devices@[i] == sv[i].1);
                assert(crate::order::map_items(sv, f)[i] == entries[i]);
            }
        }
    }
    if devices.len() == 0 {
        GpuMapping::NotComputed
    } else if devices.len() == 1 {
        GpuMapping::Single(devices.remove(0))
    } else {
        GpuMapping::Multi(devices)
    }
}


/// The mapping for a server process: `Unknown` when it is not running
/// locally or when no evidence attributes any GPU to it.
pub open spec fn map_server_spec(running: bool, gs: Seq<GpuModel>, render: Seq<DeviceModel>, nvml: Seq<Seq<char>>) -> MappingModel {
    if !running {
        MappingModel::Unknown
    } else {
        match combine_spec(gs, render, nvml) {
            MappingModel::NotComputed => MappingModel::Unknown,
            other => other,
        }
    }
}

/// Full mapping for a server process, given its evidence inputs. One device
/// yields `Single`; more than one yields `Multi`.
pub fn map_server_gpus(server_running: bool, render: Vec<DeviceId>, nvml: Vec<String>, gpus: &[DiscoveredGpu]) -> (r: GpuMapping)
    ensures
        mapping_view(r) == map_server_spec(
            server_running,
            gpus_view(gpus@),
            devices_view(render@),
            crate::discovery::strings_view(nvml@),
        ),
{
    if !server_running {
        return GpuMapping::Unknown;
    }
    match combine_gpus(render, nvml, gpus) {
        GpuMapping::NotComputed => GpuMapping::Unknown,
        other => other,
    }
}

/// What NVML reports of one device: the PIDs of its running compute
/// processes, its PCI bus ID and its UUID (each when NVML could tell).
pub type NvmlDeviceInfo = (Vec<u32>, Option<String>, Option<String>);

/// Key of one NVML device that runs `pid`: its normalized PCI bus ID, else
/// its UUID; nothing when it does not run `pid` or has neither.
pub open spec fn nvml_key(pids: Seq<u32>, bus: Option<Seq<char>>, uuid: Option<Seq<char>>, pid: u32) -> Option<Seq<char>> {
    if pids.contains(pid) {
        match bus {
            Some(b) => Some(normalize_bdf_spec(b)),
            None => uuid,
        }
    } else {
        None
    }
}

pub open spec fn nvml_keys_spec(devs: Seq<NvmlDeviceInfo>, pid: u32) -> Seq<Seq<char>>
    decreases devs.len(),
{
    if devs.len() == 0 {
        seq![]
    } else {
        let rest = nvml_keys_spec(devs.drop_last(), pid);
        let d = devs.last();
        match nvml_key(d.0@, opt_view(d.1), opt_view(d.2), pid) {
            Some(k) => rest.push(k),
            None => rest,
        }
    }
}

/// Stable keys (PCI BDF, else vendor UUID) of the NVML devices on which
/// `pid` is a running compute process, in device order.
pub fn nvml_compute_keys(devices: &[NvmlDeviceInfo], pid: u32) -> (r: Vec<String>)
    ensures
        crate::discovery::strings_view(r@) == nvml_keys_spec(devices@, pid),
{
    let mut keys: Vec<String> = Vec::new();
    for i in 0..devices.len()
        invariant
            crate::discovery::strings_view(keys@) == nvml_keys_spec(devices@.take(i as int), pid),
    {
        let ghost pre = devices@.take(i as int);
        let ghost nxt = devices@.take(i + 1);
        assert(nxt.drop_last() =~= pre);
        let d = &devices[i];
        let mut has = false;
        for j in 0..d.0.len()
            invariant
                has == d.0@.take(j as int).contains(pid),
        {
            let ghost was = has;
            if d.0[j] == pid {
                has = true;
            }
            proof {
                let t = d.0@.take(j + 1);
                let p = d.0@.take(j as int);
                if d.0@[j as int] == pid {
                    assert(t[j as int] == pid);
                }
                if p.contains(pid) {
                    let m = choose|m: int| 0 <= m < p.len() && p[m] == pid;
                    assert(t[m] == pid);
                }
                if t.contains(pid) {
                    let m = choose|m: int| 0 <= m < t.len() && t[m] == pid;
                    if m < j {
                        assert(p[m] == pid);
                    }
                }
            }
        }
        assert(d.0@.take(d.0@.len() as int) =~= d.0@);
        let ghost before = crate::discovery::strings_view(keys@);
        if has {
            match &d.1 {
                Some(b) => {
                    let k = normalize_pci_bdf(b.as_str());
                    keys.push(k);
                    assert(crate::discovery::strings_view(keys@) =~= before.push(normalize_bdf_spec(b@)));
                },
                None => match &d.2 {
                    Some(u) => {
                        keys.push(u.clone());
                        assert(crate::discovery::strings_view(keys@) =~= before.push(u@));
                    },
                    None => {},
                },
            }
        }
    }
    assert(devices@.take(devices@.len() as int) =~= devices@);
    keys
}


// ---------------------------------------------------------------------------
// Laws of the combined mapping
// ---------------------------------------------------------------------------

proof fn lemma_insert_keeps_distinct(
    gs: Seq<GpuModel>,
    merged: Seq<(Seq<char>, MappedModel)>,
    key: Seq<char>,
    device: DeviceModel,
    ev: GpuEvidence,
)
    requires
        distinct_keys_of(merged),
    ensures
        distinct_keys_of(insert_evidence(gs, merged, key, device, ev)),
{
    lemma_key_index_props(merged, key);
    let r = insert_evidence(gs, merged, key, device, ev);
    assert forall|i: int, j: int| 0 <= i < j < r.len() implies #[trigger] r[i].0 != #[trigger] r[j].0 by {
        if j < merged.len() {
            assert(r[i].0 == merged[i].0 && r[j].0 == merged[j].0);
        } else {
            assert(r[i].0 == merged[i].0);
        }
    }
}

proof fn lemma_merge_render_distinct(gs: Seq<GpuModel>, render: Seq<DeviceModel>)
    ensures
        distinct_keys_of(merge_render(gs, render)),
    decreases render.len(),
{
    if render.len() > 0 {
        lemma_merge_render_distinct(gs, render.drop_last());
        lemma_insert_keeps_distinct(
            gs,
            merge_render(gs, render.drop_last()),
            render_slot_key(render.last(), (render.len() - 1) as nat),
            render.last(),
            GpuEvidence::RenderNodeFd,
        );
    }
}

proof fn lemma_merge_nvml_distinct(gs: Seq<GpuModel>, start: Seq<(Seq<char>, MappedModel)>, nvml: Seq<Seq<char>>)
    requires
        distinct_keys_of(start),
    ensures
        distinct_keys_of(merge_nvml(gs, start, nvml)),
    decreases nvml.len(),
{
    if nvml.len() > 0 {
        lemma_merge_nvml_distinct(gs, start, nvml.drop_last());
        lemma_insert_keeps_distinct(
            gs,
            merge_nvml(gs, start, nvml.drop_last()),
            nvml.last(),
            nvml_device(nvml.last()),
            GpuEvidence::NvmlCompute,
        );
    }
}

/// The devices of a combined mapping are ordered by key and no key occurs
/// twice: evidence for one device, from either source, yields one entry.
pub proof fn law_combined_sorted_and_deduped(gs: Seq<GpuModel>, render: Seq<DeviceModel>, nvml: Seq<Seq<char>>)
    ensures
        sorted_by_key(combined_entries(gs, render, nvml)),
        distinct_keys_of(combined_entries(gs, render, nvml)),
{
    let merged = merge_nvml(gs, merge_render(gs, render), nvml);
    lemma_merge_render_distinct(gs, render);
    lemma_merge_nvml_distinct(gs, merge_render(gs, render), nvml);
    lemma_sort_by_key_sorted(merged);
    lemma_sort_keeps_distinct(merged);
}

/// Merge keys of the render devices, by position.
pub open spec fn render_keys(render: Seq<DeviceModel>) -> Seq<Seq<char>> {
    Seq::new(render.len(), |i: int| render_slot_key(render[i], i as nat))
}

/// Every entry whose key is in `keys` carries render-node evidence.
pub open spec fn render_wins(merged: Seq<(Seq<char>, MappedModel)>, keys: Seq<Seq<char>>) -> bool {
    forall|j: int| 0 <= j < merged.len() && keys.contains(#[trigger] merged[j].0) ==> merged[j].1.3
        == GpuEvidence::RenderNodeFd
}

/// Every key in `keys` has an entry.
pub open spec fn keys_present(merged: Seq<(Seq<char>, MappedModel)>, keys: Seq<Seq<char>>) -> bool {
    forall|x: Seq<char>| keys.contains(x) ==> exists|j: int| 0 <= j < merged.len() && #[trigger] merged[j].0 == x
}

proof fn lemma_merge_render_wins(gs: Seq<GpuModel>, render: Seq<DeviceModel>)
    ensures
        render_wins(merge_render(gs, render), render_keys(render)),
        keys_present(merge_render(gs, render), render_keys(render)),
    decreases render.len(),
{
    if render.len() > 0 {
        let pre = render.drop_last();
        lemma_merge_render_wins(gs, pre);
        let m0 = merge_render(gs, pre);
        let n = (render.len() - 1) as nat;
        let key = render_slot_key(render.last(), n);
        let m1 = merge_render(gs, render);
        let ks = render_keys(render);
        let k0 = render_keys(pre);
        assert(ks =~= k0.push(key)) by {
            assert forall|i: int| 0 <= i < pre.len() implies ks[i] == k0[i] by {
                assert(render[i] == pre[i]);
            }
        }
        lemma_key_index_props(m0, key);
        assert(m1 == insert_evidence(gs, m0, key, render.last(), GpuEvidence::RenderNodeFd));
        assert forall|j: int| 0 <= j < m1.len() && ks.contains(#[trigger] m1[j].0) implies m1[j].1.3
            == GpuEvidence::RenderNodeFd by {
            lemma_merge_render_distinct(gs, pre);
            match key_index(m0, key) {
                Some(i) => {
                    if j != i {
                        assert(m1[j] == m0[j]);
                    }
                },
                None => {},
            }
            if m1[j].0 == key {
                match key_index(m0, key) {
                    Some(i) => {
                        if j != i {
                            assert(m0[j].0 == m0[i].0);
                        }
                    },
                    None => {
                        if j < m0.len() {
                            assert(m1[j] == m0[j]);
                        }
                    },
                }
            } else {
                let q = choose|q: int| 0 <= q < ks.len() && ks[q] == m1[j].0;
                assert(k0[q] == ks[q]);
                assert(k0.contains(m1[j].0));
                match key_index(m0, key) {
                    Some(i) => {
                        assert(j != i);
                    },
                    None => {
                        assert(j < m0.len());
                    },
                }
                assert(m1[j] == m0[j]);
            }
        }
        assert forall|x: Seq<char>| ks.contains(x) implies exists|j: int| 0 <= j < m1.len() && #[trigger] m1[j].0 == x by {
            if x == key {
                match key_index(m0, key) {
                    Some(i) => {
                        assert(m1[i].0 == x);
                    },
                    None => {
                        assert(m1[m0.len() as int].0 == x);
                    },
                }
            } else {
                let q = choose|q: int| 0 <= q < ks.len() && ks[q] == x;
                assert(k0[q] == ks[q]);
                assert(k0.contains(x));
                let j = choose|j: int| 0 <= j < m0.len() && #[trigger] m0[j].0 == x;
                assert(m1[j].0 == x);
            }
        }
    }
}

proof fn lemma_merge_nvml_wins(
    gs: Seq<GpuModel>,
    start: Seq<(Seq<char>, MappedModel)>,
    nvml: Seq<Seq<char>>,
    keys: Seq<Seq<char>>,
)
    requires
        render_wins(start, keys),
        keys_present(start, keys),
    ensures
        render_wins(merge_nvml(gs, start, nvml), keys),
        keys_present(merge_nvml(gs, start, nvml), keys),
    decreases nvml.len(),
{
    if nvml.len() > 0 {
        lemma_merge_nvml_wins(gs, start, nvml.drop_last(), keys);
        let m0 = merge_nvml(gs, start, nvml.drop_last());
        let key = nvml.last();
        let m1 = merge_nvml(gs, start, nvml);
        lemma_key_index_props(m0, key);
        match key_index(m0, key) {
            Some(i) => {
                assert(m1 == m0);
            },
            None => {
                assert(!keys.contains(key)) by {
                    if keys.contains(key) {
                        let j = choose|j: int| 0 <= j < m0.len() && #[trigger] m0[j].0 == key;
                    }
                }
                assert forall|j: int| 0 <= j < m1.len() && keys.contains(#[trigger] m1[j].0) implies m1[j].1.3
                    == GpuEvidence::RenderNodeFd by {
                    if j < m0.len() {
                        assert(m1[j] == m0[j]);
                    }
                }
                assert forall|x: Seq<char>| keys.contains(x) implies exists|j: int| 0 <= j < m1.len() && #[trigger] m1[j].0 == x by {
                    let j = choose|j: int| 0 <= j < m0.len() && #[trigger] m0[j].0 == x;
                    assert(m1[j] == m0[j]);
                }
            },
        }
    }
}

/// When render-node and NVML evidence name the same device, the mapped
/// device carries the render-node evidence.
pub proof fn law_render_evidence_wins(gs: Seq<GpuModel>, render: Seq<DeviceModel>, nvml: Seq<Seq<char>>)
    ensures
        forall|j: int|
            0 <= j < combined_entries(gs, render, nvml).len() && render_keys(render).contains(
                #[trigger] combined_entries(gs, render, nvml)[j].0,
            ) ==> combined_entries(gs, render, nvml)[j].1.3 == GpuEvidence::RenderNodeFd,
{
    let merged = merge_nvml(gs, merge_render(gs, render), nvml);
    lemma_merge_render_wins(gs, render);
    lemma_merge_nvml_wins(gs, merge_render(gs, render), nvml, render_keys(render));
    let c = combined_entries(gs, render, nvml);
    assert forall|j: int| 0 <= j < c.len() && render_keys(render).contains(#[trigger] c[j].0) implies c[j].1.3
        == GpuEvidence::RenderNodeFd by {
        lemma_sort_members(merged, j);
        let k = choose|k: int| 0 <= k < merged.len() && merged[k] == c[j];
        assert(merged[k].0 == c[j].0);
    }
}

/// The card name of the first discovered device with key `key`, else empty.
pub open spec fn name_for(gs: Seq<GpuModel>, key: Seq<char>) -> Seq<char> {
    match first_with_key(gs, key) {
        Some(k) => gs[k].card,
        None => seq![],
    }
}

/// The vendor of the first discovered device with key `key`, else unknown.
pub open spec fn vendor_for(gs: Seq<GpuModel>, key: Seq<char>) -> GpuVendor {
    match first_with_key(gs, key) {
        Some(k) => gs[k].vendor,
        None => GpuVendor::Unknown,
    }
}

/// Every entry is named after the discovered device with its key.
pub open spec fn named_from(gs: Seq<GpuModel>, merged: Seq<(Seq<char>, MappedModel)>) -> bool {
    forall|j: int|
        0 <= j < merged.len() ==> (#[trigger] merged[j]).1.1 == name_for(gs, merged[j].0)
            && merged[j].1.2 == vendor_for(gs, merged[j].0)
}

proof fn lemma_insert_named(
    gs: Seq<GpuModel>,
    merged: Seq<(Seq<char>, MappedModel)>,
    key: Seq<char>,
    device: DeviceModel,
    ev: GpuEvidence,
)
    requires
        named_from(gs, merged),
    ensures
        named_from(gs, insert_evidence(gs, merged, key, device, ev)),
{
    lemma_key_index_props(merged, key);
    let r = insert_evidence(gs, merged, key, device, ev);
    match key_index(merged, key) {
        Some(i) => {
            assert forall|j: int| 0 <= j < r.len() implies (#[trigger] r[j]).1.1 == name_for(gs, r[j].0)
                && r[j].1.2 == vendor_for(gs, r[j].0) by {
                assert(merged[j].1.1 == name_for(gs, merged[j].0));
            }
        },
        None => {
            assert forall|j: int| 0 <= j < r.len() implies (#[trigger] r[j]).1.1 == name_for(gs, r[j].0)
                && r[j].1.2 == vendor_for(gs, r[j].0) by {
                if j < merged.len() {
                    assert(r[j] == merged[j]);
                }
            }
        },
    }
}

proof fn lemma_merge_render_named(gs: Seq<GpuModel>, render: Seq<DeviceModel>)
    ensures
        named_from(gs, merge_render(gs, render)),
    decreases render.len(),
{
    if render.len() > 0 {
        lemma_merge_render_named(gs, render.drop_last());
        let i = (render.len() - 1) as nat;
        lemma_insert_named(
            gs,
            merge_render(gs, render.drop_last()),
            render_slot_key(render.last(), i),
            render.last(),
            GpuEvidence::RenderNodeFd,
        );
    }
}

proof fn lemma_merge_nvml_named(
    gs: Seq<GpuModel>,
    start: Seq<(Seq<char>, MappedModel)>,
    nvml: Seq<Seq<char>>,
)
    requires
        named_from(gs, start),
    ensures
        named_from(gs, merge_nvml(gs, start, nvml)),
    decreases nvml.len(),
{
    if nvml.len() > 0 {
        lemma_merge_nvml_named(gs, start, nvml.drop_last());
        lemma_insert_named(
            gs,
            merge_nvml(gs, start, nvml.drop_last()),
            nvml.last(),
            nvml_device(nvml.last()),
            GpuEvidence::NvmlCompute,
        );
    }
}

/// Each mapped GPU carries the card name and vendor of the first
/// discovered device with its key, or an empty name and an unknown vendor
/// when no discovered device has it; and render devices without a key
/// each keep a merge key of their own, so two of them are never merged.
pub proof fn law_mapped_names_and_unkeyed_slots(
    gs: Seq<GpuModel>,
    render: Seq<DeviceModel>,
    nvml: Seq<Seq<char>>,
    i: nat,
    j: nat,
)
    ensures
        forall|k: int|
            0 <= k < combined_entries(gs, render, nvml).len() ==> (#[trigger] combined_entries(
                gs,
                render,
                nvml,
            )[k]).1.1 == name_for(gs, combined_entries(gs, render, nvml)[k].0)
                && combined_entries(gs, render, nvml)[k].1.2 == vendor_for(
                gs,
                combined_entries(gs, render, nvml)[k].0,
            ),
        i < render.len() && j < render.len() && i != j && key_of(render[i as int].0, render[i as int].1).len()
            == 0 && key_of(render[j as int].0, render[j as int].1).len() == 0 ==> render_slot_key(
            render[i as int],
            i,
        ) != render_slot_key(render[j as int], j),
{
    let merged = merge_nvml(gs, merge_render(gs, render), nvml);
    lemma_merge_render_named(gs, render);
    lemma_merge_nvml_named(gs, merge_render(gs, render), nvml);
    let c = combined_entries(gs, render, nvml);
    assert forall|k: int| 0 <= k < c.len() implies (#[trigger] c[k]).1.1 == name_for(gs, c[k].0)
        && c[k].1.2 == vendor_for(gs, c[k].0) by {
        lemma_sort_members(merged, k);
        let m = choose|m: int| 0 <= m < merged.len() && merged[m] == c[k];
        assert(merged[m].1.1 == name_for(gs, merged[m].0));
    }
    if i < render.len() && j < render.len() && i != j && key_of(render[i as int].0, render[i as int].1).len()
        == 0 && key_of(render[j as int].0, render[j as int].1).len() == 0 {
        let a = render_slot_key(render[i as int], i);
        let b = render_slot_key(render[j as int], j);
        let prefix = seq!['\0'] + "render:"@;
        if a == b {
            assert(a.skip(prefix.len() as int) =~= dec_repr(i));
            assert(b.skip(prefix.len() as int) =~= dec_repr(j));
            crate::text::lemma_parse_dec_repr(i, i + j);
            crate::text::lemma_parse_dec_repr(j, i + j);
        }
    }
}

/// The discovered device an fd of process `pid` points at, if any: the
/// link's last path component names a `pci-<BDF>-…` device or a render node,
/// and a discovered device has that key.
pub open spec fn fd_device<S: Sys>(sys: &S, gs: Seq<GpuModel>, pid: u32, e: EntryModel) -> Option<DeviceModel> {
    match sys.spec_link(path_join(fd_dir(pid), e.0)) {
        None => None,
        Some(t) => match last_component(trim(t)) {
            None => None,
            Some(c) => match fd_key(gs, c) {
                None => None,
                Some(k) => device_of_key(gs, k),
            },
        },
    }
}

proof fn lemma_fd_devices_props<S: Sys>(sys: &S, gs: Seq<GpuModel>, pid: u32, es: Seq<EntryModel>)
    ensures
        ({
            let r = fd_devices(sys, gs, pid, es);
            &&& forall|i: int|
                0 <= i < r.len() ==> exists|j: int|
                    0 <= j < es.len() && fd_device(sys, gs, pid, #[trigger] es[j]) == Some(#[trigger] r[i])
            &&& forall|j: int|
                0 <= j < es.len() && (#[trigger] fd_device(sys, gs, pid, es[j])) is Some ==> has_device_key(
                    r,
                    key_of((fd_device(sys, gs, pid, es[j])->0).0, (fd_device(sys, gs, pid, es[j])->0).1),
                )
            &&& forall|i: int, j: int|
                0 <= i < j < r.len() ==> key_of((#[trigger] r[i]).0, r[i].1) != key_of(
                    (#[trigger] r[j]).0,
                    r[j].1,
                )
        }),
    decreases es.len(),
{
    if es.len() > 0 {
        let init = es.drop_last();
        let acc = fd_devices(sys, gs, pid, init);
        lemma_fd_devices_props(sys, gs, pid, init);
        let r = fd_devices(sys, gs, pid, es);
        let e = es.last();
        assert(r == match fd_device(sys, gs, pid, e) {
            None => acc,
            Some(d) => if has_device_key(acc, key_of(d.0, d.1)) {
                acc
            } else {
                acc.push(d)
            },
        });
        assert forall|i: int| 0 <= i < acc.len() implies (#[trigger] r[i]) == acc[i] by {}
        assert forall|i: int| 0 <= i < r.len() implies exists|j: int|
            0 <= j < es.len() && fd_device(sys, gs, pid, #[trigger] es[j]) == Some(#[trigger] r[i]) by {
            if i < acc.len() {
                let j = choose|j: int| 0 <= j < init.len() && fd_device(sys, gs, pid, #[trigger] init[j]) == Some(acc[i]);
                assert(es[j] == init[j]);
            } else {
                assert(es[es.len() - 1] == e);
            }
        }
        assert forall|j: int| 0 <= j < es.len() && (#[trigger] fd_device(sys, gs, pid, es[j])) is Some implies has_device_key(
            r,
            key_of((fd_device(sys, gs, pid, es[j])->0).0, (fd_device(sys, gs, pid, es[j])->0).1),
        ) by {
            let d = fd_device(sys, gs, pid, es[j])->0;
            if j < init.len() {
                assert(es[j] == init[j]);
                let m = choose|m: int| 0 <= m < acc.len() && key_of((#[trigger] acc[m]).0, acc[m].1) == key_of(d.0, d.1);
                assert(r[m] == acc[m]);
            } else {
                assert(es[j] == e);
                if !has_device_key(acc, key_of(d.0, d.1)) {
                    assert(r[acc.len() as int] == d);
                }
            }
        }
    }
}

/// The GPUs a process uses, by its open fds: none when its fd directory
/// cannot be read; otherwise every reported device is a discovered device
/// that one of its fds points at, every discovered device one of its fds
/// points at is reported, and no key is reported twice.
pub proof fn law_render_gpus_of_process<S: Sys>(sys: &S, pid: u32, gs: Seq<GpuModel>)
    ensures
        sys.spec_dir(fd_dir(pid)) is None ==> render_gpus_spec(sys, pid, gs).len() == 0,
        sys.spec_dir(fd_dir(pid)) is Some ==> ({
            let es = sys.spec_dir(fd_dir(pid))->0;
            let r = render_gpus_spec(sys, pid, gs);
            &&& forall|i: int|
                0 <= i < r.len() ==> exists|j: int|
                    0 <= j < es.len() && fd_device(sys, gs, pid, #[trigger] es[j]) == Some(#[trigger] r[i])
            &&& forall|j: int|
                0 <= j < es.len() && (#[trigger] fd_device(sys, gs, pid, es[j])) is Some ==> has_device_key(
                    r,
                    key_of((fd_device(sys, gs, pid, es[j])->0).0, (fd_device(sys, gs, pid, es[j])->0).1),
                )
        }),
        forall|i: int|
            0 <= i < render_gpus_spec(sys, pid, gs).len() ==> exists|k: int|
                0 <= k < gs.len() && (gs[k].bdf, gs[k].uuid) == #[trigger] render_gpus_spec(sys, pid, gs)[i],
        forall|i: int, j: int|
            0 <= i < j < render_gpus_spec(sys, pid, gs).len() ==> key_of(
                (#[trigger] render_gpus_spec(sys, pid, gs)[i]).0,
                render_gpus_spec(sys, pid, gs)[i].1,
            ) != key_of(
                (#[trigger] render_gpus_spec(sys, pid, gs)[j]).0,
                render_gpus_spec(sys, pid, gs)[j].1,
            ),
{
    let r = render_gpus_spec(sys, pid, gs);
    if sys.spec_dir(fd_dir(pid)) is Some {
        let es = sys.spec_dir(fd_dir(pid))->0;
        lemma_fd_devices_props(sys, gs, pid, es);
        assert forall|i: int| 0 <= i < r.len() implies exists|k: int|
            0 <= k < gs.len() && (gs[k].bdf, gs[k].uuid) == #[trigger] r[i] by {
            let j = choose|j: int| 0 <= j < es.len() && fd_device(sys, gs, pid, #[trigger] es[j]) == Some(r[i]);
            let t = sys.spec_link(path_join(fd_dir(pid), es[j].0))->0;
            let c = last_component(trim(t))->0;
            let key = fd_key(gs, c)->0;
            lemma_first_with_key_props(gs, key);
        }
    }
}

} // verus!
