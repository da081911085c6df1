//! Vendor-neutral GPU discovery from Linux DRM sysfs.
//!
//! Every DRM card is discovered from `/sys/class/drm` without assuming a
//! vendor: the card's symlink target carries the PCI BDF, and the PCI
//! device attributes (vendor/device IDs, class, driver binding) classify it.
//! Enumeration order (`card0`, `card1`, …) is never used as identity; the
//! PCI BDF is the stable key, and results are sorted by BDF.

use vstd::prelude::*;

pub use crate::domain::GpuVendor;

use crate::domain::{clone_opt_string, key_of, normalize_bdf_spec, opt_view, DeviceId};
use crate::order::{
    keyed_view, lemma_sort_by_key_permutes, lemma_sort_by_key_sorted, lemma_sort_map, lemma_sort_members, lex_le,
    map_items, sort_by_key, sort_by_key_spec,
};
use crate::paths::{
    join_str, last_component, last_component_of, lit_clone, parent_of, parent_parts, path_join,
    render_parts, render_path, resolve_link_parts, resolve_link_spec,
};
use crate::system::{entries_view, EntryModel, Sys, SysEntry};
use crate::text::{
    all_hex, chars_of, eq_chars, is_hex_digit, lower_char, find_char, first_index, is_digit, is_digit_exec, is_hex_digit_exec, parse_hex, parse_hex_vec,
    slice_vec, starts_with, starts_with_vec, string_of, to_lower, to_lower_vec, trim, trim_vec,
    vecs_view,
};

verus! {

/// PCI base class 0x03 (display controller), held in bits 23..=16.
pub open spec fn is_display_class_spec(class: u32) -> bool {
    (class / 0x10000) % 0x100 == 3
}

pub fn is_display_class(class: u32) -> (r: bool)
    ensures
        r == is_display_class_spec(class),
{
    (class / 0x10000) % 0x100 == 3
}

/// A PCI BDF of the form `dddd:bb:dd.f` (hex digits, function 0–7).
pub open spec fn is_bdf_spec(s: Seq<char>) -> bool {
    &&& s.len() == 12
    &&& all_hex(s.take(4))
    &&& s[4] == ':'
    &&& all_hex(s.subrange(5, 7))
    &&& s[7] == ':'
    &&& all_hex(s.subrange(8, 10))
    &&& s[10] == '.'
    &&& is_digit(s[11])
    &&& (s[11] as u32) <= ('7' as u32)
}

fn all_hex_between(v: &[char], lo: usize, hi: usize) -> (r: bool)
    requires
        lo <= hi <= v@.len(),
    ensures
        r == all_hex(v@.subrange(lo as int, hi as int)),
{
    let mut i = lo;
    while i < hi
        invariant
            lo <= i <= hi <= v@.len(),
            all_hex(v@.subrange(lo as int, i as int)),
        decreases hi - i,
    {
        if !is_hex_digit_exec(v[i]) {
            assert(v@.subrange(lo as int, hi as int)[i - lo] == v@[i as int]);
            return false;
        }
        assert forall|j: int| 0 <= j < i + 1 - lo implies crate::text::is_hex_digit(
            #[trigger] v@.subrange(lo as int, i + 1)[j],
        ) by {
            if j < i - lo {
                assert(v@.subrange(lo as int, i + 1)[j] == v@.subrange(lo as int, i as int)[j]);
            }
        }
        i = i + 1;
    }
    true
}

pub fn is_bdf_chars(v: &[char]) -> (r: bool)
    ensures
        r == is_bdf_spec(v@),
{
    if v.len() != 12 {
        return false;
    }
    assert(v@.take(4) =~= v@.subrange(0, 4));
    all_hex_between(v, 0, 4) && v[4] == ':' && all_hex_between(v, 5, 7) && v[7] == ':'
        && all_hex_between(v, 8, 10) && v[10] == '.' && is_digit_exec(v[11]) && (v[11] as u32)
        <= ('7' as u32)
}

/// A valid BDF, lowercased; `None` for anything else.
pub open spec fn parse_bdf_spec(s: Seq<char>) -> Option<Seq<char>> {
    if is_bdf_spec(s) {
        Some(to_lower(s))
    } else {
        None
    }
}

/// Parse and validate a PCI BDF like `0000:01:00.0`.
pub fn parse_bdf(text: &str) -> (r: Option<String>)
    ensures
        opt_view(r) == parse_bdf_spec(text@),
{
    let v = chars_of(text);
    if is_bdf_chars(v.as_slice()) {
        Some(string_of(to_lower_vec(v.as_slice()).as_slice()))
    } else {
        None
    }
}

/// The BDF carried by the last component of `parts` that is one.
pub open spec fn bdf_from_parts(parts: Seq<Seq<char>>) -> Option<Seq<char>>
    decreases parts.len(),
{
    if parts.len() == 0 {
        None
    } else {
        match parse_bdf_spec(parts.last()) {
            Some(b) => Some(b),
            None => bdf_from_parts(parts.drop_last()),
        }
    }
}

/// The PCI BDF is the final component of the PCI device directory, with a
/// fallback scan for platforms that nest the device deeper in the path.
pub fn bdf_from_path(parts: &Vec<Vec<char>>) -> (r: Option<String>)
    ensures
        opt_view(r) == bdf_from_parts(vecs_view(parts@)),
{
    let ghost pv = vecs_view(parts@);
    let mut i = parts.len();
    assert(pv.take(i as int) =~= pv);
    while i > 0
        invariant
            i <= parts@.len(),
            pv == vecs_view(parts@),
            bdf_from_parts(pv) == bdf_from_parts(pv.take(i as int)),
        decreases i,
    {
        let ghost t = pv.take(i as int);
        assert(t.last() == parts@[i - 1]@);
        let c = &parts[i - 1];
        if is_bdf_chars(c.as_slice()) {
            return Some(string_of(to_lower_vec(c.as_slice()).as_slice()));
        }
        assert(t.drop_last() =~= pv.take(i - 1));
        i = i - 1;
    }
    None
}

pub open spec fn vendor_from_pci_id_spec(id: u16) -> GpuVendor {
    if id == 0x10de {
        GpuVendor::Nvidia
    } else if id == 0x1002 {
        GpuVendor::Amd
    } else if id == 0x8086 {
        GpuVendor::Intel
    } else if id != 0 {
        GpuVendor::Other
    } else {
        GpuVendor::Unknown
    }
}

pub fn vendor_from_pci_id(id: u16) -> (r: GpuVendor)
    ensures
        r == vendor_from_pci_id_spec(id),
{
    if id == 0x10de {
        GpuVendor::Nvidia
    } else if id == 0x1002 {
        GpuVendor::Amd
    } else if id == 0x8086 {
        GpuVendor::Intel
    } else if id != 0 {
        GpuVendor::Other
    } else {
        GpuVendor::Unknown
    }
}

/// Hex attribute text: whitespace trimmed, an optional `0x` prefix, then
/// hex digits whose value is at most `max`.
pub open spec fn parse_hex_attr(text: Seq<char>, max: nat) -> Option<nat> {
    let t = trim(text);
    let digits = if starts_with(t, "0x"@) {
        t.skip(2)
    } else {
        t
    };
    parse_hex(trim(digits), max)
}

fn parse_hex_attr_exec(text: &str, max: u64) -> (r: Option<u64>)
    ensures
        r == (match parse_hex_attr(text@, max as nat) {
            Some(n) => Some(n as u64),
            None => None::<u64>,
        }),
{
    let v = chars_of(text);
    let t = trim_vec(&v);
    let px = chars_of("0x");
    proof {
        reveal_strlit("0x");
    }
    let digits = if starts_with_vec(t.as_slice(), px.as_slice()) {
        assert(px@.len() == 2);
        let d = slice_vec(&t, 2, t.len());
        assert(d@ =~= t@.skip(2));
        d
    } else {
        let d = slice_vec(&t, 0, t.len());
        assert(d@ =~= t@);
        d
    };
    let d = trim_vec(&digits);
    parse_hex_vec(d.as_slice(), max)
}

pub fn parse_u16_hex(text: &str) -> (r: Option<u16>)
    ensures
        r == (match parse_hex_attr(text@, 0xffff) {
            Some(n) => Some(n as u16),
            None => None::<u16>,
        }),
{
    match parse_hex_attr_exec(text, 0xffff) {
        Some(n) => Some(n as u16),
        None => None,
    }
}

pub fn parse_u32_hex(text: &str) -> (r: Option<u32>)
    ensures
        r == (match parse_hex_attr(text@, 0xffff_ffff) {
            Some(n) => Some(n as u32),
            None => None::<u32>,
        }),
{
    match parse_hex_attr_exec(text, 0xffff_ffff) {
        Some(n) => Some(n as u32),
        None => None,
    }
}


// ---------------------------------------------------------------------------
// Discovered devices
// ---------------------------------------------------------------------------

/// A GPU discovered through DRM sysfs, before any vendor telemetry.
#[derive(Clone, Debug, PartialEq, Eq)]
pub struct DiscoveredGpu {
    /// DRM card name (e.g. `card0`) — for display only, not identity.
    pub card: String,
    pub device_id: DeviceId,
    pub vendor: GpuVendor,
    pub pci_vendor_id: u16,
    pub pci_device_id: u16,
    pub pci_class_code: u32,
    /// Bound driver name (`nvidia`, `amdgpu`, `i915`, `xe`, …) or empty.
    pub driver: String,
    /// Render node name (`renderD128`) when the card exposes one.
    pub render_node: Option<String>,
    /// Connector names (`card0-DP-1`, …) attached to this card.
    pub outputs: Vec<String>,
}

/// Abstract value of a [`DiscoveredGpu`].
pub struct GpuModel {
    pub card: Seq<char>,
    pub bdf: Option<Seq<char>>,
    pub uuid: Option<Seq<char>>,
    pub vendor: GpuVendor,
    pub pci_vendor_id: u16,
    pub pci_device_id: u16,
    pub pci_class_code: u32,
    pub driver: Seq<char>,
    pub render_node: Option<Seq<char>>,
    pub outputs: Seq<Seq<char>>,
}

pub open spec fn strings_view(v: Seq<String>) -> Seq<Seq<char>> {
    v.map_values(|s: String| s@)
}

impl View for DiscoveredGpu {
    type V = GpuModel;

    open spec fn view(&self) -> GpuModel {
        GpuModel {
            card: self.card@,
            bdf: opt_view(self.device_id.pci_bdf),
            uuid: opt_view(self.device_id.uuid),
            vendor: self.vendor,
            pci_vendor_id: self.pci_vendor_id,
            pci_device_id: self.pci_device_id,
            pci_class_code: self.pci_class_code,
            driver: self.driver@,
            render_node: opt_view(self.render_node),
            outputs: strings_view(self.outputs@),
        }
    }
}

pub open spec fn gpus_view(v: Seq<DiscoveredGpu>) -> Seq<GpuModel> {
    v.map_values(|g: DiscoveredGpu| g@)
}

/// Stable key of a discovered device (its BDF).
pub open spec fn model_key(m: GpuModel) -> Seq<char> {
    key_of(m.bdf, m.uuid)
}

pub open spec fn drm_root() -> Seq<char> {
    "/sys/class/drm"@
}

/// Card names, `(card, connector)` pairs and `(render node, link target)`
/// pairs found in `/sys/class/drm`.
pub type ScanModel = (Seq<Seq<char>>, Seq<(Seq<char>, Seq<char>)>, Seq<(Seq<char>, Seq<char>)>);

/// The card a connector entry (`card0-DP-1`) belongs to.
pub open spec fn output_card(name: Seq<char>) -> Option<Seq<char>> {
    if starts_with(name, "card"@) {
        match first_index(name, '-') {
            Some(i) => Some(name.take(i)),
            None => None,
        }
    } else {
        None
    }
}

/// Effect of one `/sys/class/drm` entry: only symlinks whose target can be
/// read count; connectors, render nodes and cards are told apart by name.
pub open spec fn scan_step<S: Sys>(sys: &S, st: ScanModel, e: EntryModel) -> ScanModel {
    if !e.1 {
        st
    } else {
        match sys.spec_link(path_join(drm_root(), e.0)) {
            None => st,
            Some(t) => match output_card(e.0) {
                Some(c) => (st.0, st.1.push((c, e.0)), st.2),
                None => if starts_with(e.0, "renderD"@) {
                    (st.0, st.1, st.2.push((e.0, t)))
                } else if starts_with(e.0, "card"@) {
                    (st.0.push(e.0), st.1, st.2)
                } else {
                    st
                },
            },
        }
    }
}

pub open spec fn scan_entries<S: Sys>(sys: &S, es: Seq<EntryModel>) -> ScanModel
    decreases es.len(),
{
    if es.len() == 0 {
        (seq![], seq![], seq![])
    } else {
        scan_step(sys, scan_entries(sys, es.drop_last()), es.last())
    }
}

/// Connectors recorded for `card`, in directory order.
pub open spec fn outputs_of(outs: Seq<(Seq<char>, Seq<char>)>, card: Seq<char>) -> Seq<Seq<char>>
    decreases outs.len(),
{
    if outs.len() == 0 {
        seq![]
    } else {
        let rest = outputs_of(outs.drop_last(), card);
        if outs.last().0 == card {
            rest.push(outs.last().1)
        } else {
            rest
        }
    }
}

/// A hex attribute file of at most `max`.
pub open spec fn hex_file<S: Sys>(sys: &S, path: Seq<char>, max: nat) -> Option<nat> {
    match sys.spec_file(path) {
        Some(t) => parse_hex_attr(t, max),
        None => None,
    }
}

/// Name of the bound driver: the last component of the `driver` link.
pub open spec fn driver_spec(link: Option<Seq<char>>) -> Seq<char> {
    match link {
        Some(p) => match last_component(p) {
            Some(c) => c,
            None => seq![],
        },
        None => seq![],
    }
}

/// Vendor from the driver binding, else from the PCI vendor ID.
pub open spec fn gpu_vendor_spec(driver: Seq<char>, pci_vendor: Option<nat>) -> GpuVendor {
    if driver == "nvidia"@ {
        GpuVendor::Nvidia
    } else if driver == "amdgpu"@ {
        GpuVendor::Amd
    } else if driver == "i915"@ || driver == "xe"@ {
        GpuVendor::Intel
    } else {
        match pci_vendor {
            Some(id) => if id != 0 {
                vendor_from_pci_id_spec(id as u16)
            } else {
                GpuVendor::Unknown
            },
            None => GpuVendor::Unknown,
        }
    }
}

/// First render node whose resolved link lies under the PCI directory.
pub open spec fn render_for(renders: Seq<(Seq<char>, Seq<char>)>, pci: Seq<Seq<char>>) -> Option<Seq<char>>
    decreases renders.len(),
{
    if renders.len() == 0 {
        None
    } else if pci.is_prefix_of(resolve_link_spec(drm_root(), renders[0].1)) {
        Some(renders[0].0)
    } else {
        render_for(renders.drop_first(), pci)
    }
}

/// The PCI device directory of a card: two levels above its resolved link.
pub open spec fn card_pci_dir<S: Sys>(sys: &S, card: Seq<char>) -> Option<Seq<Seq<char>>> {
    match sys.spec_link(path_join(drm_root(), card)) {
        None => None,
        Some(t) => match parent_parts(resolve_link_spec(drm_root(), t)) {
            None => None,
            Some(d) => parent_parts(d),
        },
    }
}

/// What `card` contributes (connectors not yet attached): nothing when its
/// link or BDF cannot be found or its PCI class is not a display class.
pub open spec fn card_model<S: Sys>(sys: &S, card: Seq<char>, renders: Seq<(Seq<char>, Seq<char>)>) -> Option<GpuModel> {
    match card_pci_dir(sys, card) {
        None => None,
        Some(pci) => match bdf_from_parts(pci) {
            None => None,
            Some(bdf) => {
                let dir = render_path(pci);
                let ven = hex_file(sys, path_join(dir, "vendor"@), 0xffff);
                let dev = hex_file(sys, path_join(dir, "device"@), 0xffff);
                let class = hex_file(sys, path_join(dir, "class"@), 0xffff_ffff);
                if class is Some && !is_display_class_spec(class->0 as u32) {
                    None
                } else {
                    let driver = driver_spec(sys.spec_link(path_join(dir, "driver"@)));
                    Some(
                        GpuModel {
                            card,
                            bdf: Some(normalize_bdf_spec(bdf)),
                            uuid: None,
                            vendor: gpu_vendor_spec(driver, ven),
                            pci_vendor_id: match ven {
                                Some(v) => v as u16,
                                None => 0,
                            },
                            pci_device_id: match dev {
                                Some(v) => v as u16,
                                None => 0,
                            },
                            pci_class_code: match class {
                                Some(c) => c as u32,
                                None => 0,
                            },
                            driver,
                            render_node: render_for(renders, pci),
                            outputs: seq![],
                        },
                    )
                }
            },
        },
    }
}

pub open spec fn with_outputs(m: GpuModel, outputs: Seq<Seq<char>>) -> GpuModel {
    GpuModel { outputs, ..m }
}

/// Devices in card order, with the cards that already took their connectors.
pub open spec fn collect_cards<S: Sys>(sys: &S, cards: Seq<Seq<char>>, st: ScanModel) -> (Seq<GpuModel>, Seq<Seq<char>>)
    decreases cards.len(),
{
    if cards.len() == 0 {
        (seq![], seq![])
    } else {
        let acc = collect_cards(sys, cards.drop_last(), st);
        let card = cards.last();
        match card_model(sys, card, st.2) {
            None => acc,
            Some(m) => {
                let outputs = if acc.1.contains(card) {
                    seq![]
                } else {
                    outputs_of(st.1, card)
                };
                (acc.0.push(with_outputs(m, outputs)), acc.1.push(card))
            },
        }
    }
}

/// Devices ordered by key; equal keys keep card order.
pub open spec fn sort_models(ms: Seq<GpuModel>) -> Seq<GpuModel> {
    sort_by_key_spec(ms.map_values(|m: GpuModel| (model_key(m), m))).map_values(
        |p: (Seq<char>, GpuModel)| p.1,
    )
}

/// Everything [`discover_gpus`] finds in `sys`.
pub open spec fn discover_spec<S: Sys>(sys: &S) -> Seq<GpuModel> {
    match sys.spec_dir(drm_root()) {
        None => seq![],
        Some(es) => {
            let st = scan_entries(sys, es);
            sort_models(collect_cards(sys, st.0, st).0)
        },
    }
}


pub open spec fn pairs_vv(s: Seq<(Vec<char>, Vec<char>)>) -> Seq<(Seq<char>, Seq<char>)> {
    s.map_values(|p: (Vec<char>, Vec<char>)| (p.0@, p.1@))
}

fn output_card_exec(name: &Vec<char>) -> (r: Option<Vec<char>>)
    ensures
        match r {
            Some(c) => output_card(name@) == Some(c@),
            None => output_card(name@) is None,
        },
{
    if !crate::text::starts_with_str(name.as_slice(), "card") {
        return None;
    }
    proof {
        crate::text::lemma_first_index_props(name@, '-');
    }
    match find_char(name.as_slice(), '-') {
        Some(i) => {
            let c = slice_vec(name, 0, i);
            assert(c@ =~= name@.take(i as int));
            Some(c)
        },
        None => None,
    }
}

fn scan_drm<S: Sys>(sys: &S, entries: &Vec<SysEntry>) -> (r: (
    Vec<Vec<char>>,
    Vec<(Vec<char>, Vec<char>)>,
    Vec<(Vec<char>, Vec<char>)>,
))
    ensures
        (vecs_view(r.0@), pairs_vv(r.1@), pairs_vv(r.2@)) == scan_entries(sys, entries_view(entries@)),
{
    let root = chars_of("/sys/class/drm");
    let ghost ev = entries_view(entries@);
    let mut cards: Vec<Vec<char>> = Vec::new();
    let mut outs: Vec<(Vec<char>, Vec<char>)> = Vec::new();
    let mut renders: Vec<(Vec<char>, Vec<char>)> = Vec::new();
    for i in 0..entries.len()
        invariant
            root@ == drm_root(),
            ev == entries_view(entries@),
            (vecs_view(cards@), pairs_vv(outs@), pairs_vv(renders@)) == scan_entries(sys, ev.take(i as int)),
    {
        let ghost pre = ev.take(i as int);
        let ghost nxt = ev.take(i + 1);
        assert(nxt.drop_last() =~= pre);
        let e = &entries[i];
        assert(nxt.last() == e@);
        let ghost c0 = vecs_view(cards@);
        let ghost o0 = pairs_vv(outs@);
        let ghost r0 = pairs_vv(renders@);
        if e.is_symlink {
            let path = join_str(root.as_slice(), e.name.as_str());
            if let Some(target) = sys.symlink_target(path.as_str()) {
                let name = chars_of(e.name.as_str());
                match output_card_exec(&name) {
                    Some(card) => {
                        outs.push((card, name));
                        assert(pairs_vv(outs@) =~= o0.push((output_card(e.name@)->0, e.name@)));
                    },
                    None => {
                        if crate::text::starts_with_str(name.as_slice(), "renderD") {
                            let t = chars_of(target.as_str());
                            renders.push((name, t));
                            assert(pairs_vv(renders@) =~= r0.push((e.name@, target@)));
                        } else if crate::text::starts_with_str(name.as_slice(), "card") {
                            cards.push(name);
                            assert(vecs_view(cards@) =~= c0.push(e.name@));
                        }
                    },
                }
            }
        }
    }
    assert(ev.take(entries@.len() as int) =~= ev);
    (cards, outs, renders)
}

fn outputs_for(outs: &Vec<(Vec<char>, Vec<char>)>, card: &Vec<char>) -> (r: Vec<String>)
    ensures
        strings_view(r@) == outputs_of(pairs_vv(outs@), card@),
{
    let ghost ov = pairs_vv(outs@);
    let mut r: Vec<String> = Vec::new();
    for i in 0..outs.len()
        invariant
            ov == pairs_vv(outs@),
            strings_view(r@) == outputs_of(ov.take(i as int), card@),
    {
        let ghost pre = ov.take(i as int);
        let ghost nxt = ov.take(i + 1);
        assert(nxt.drop_last() =~= pre);
        assert(nxt.last() == (outs@[i as int].0@, outs@[i as int].1@));
        if eq_chars(outs[i].0.as_slice(), card.as_slice()) {
            let ghost before = strings_view(r@);
            let s = string_of(outs[i].1.as_slice());
            r.push(s);
            assert(strings_view(r@) =~= before.push(outs@[i as int].1@));
        }
    }
    assert(ov.take(outs@.len() as int) =~= ov);
    r
}

fn read_hex<S: Sys>(sys: &S, path: &String, max: u64) -> (r: Option<u64>)
    ensures
        r == (match hex_file(sys, path@, max as nat) {
            Some(n) => Some(n as u64),
            None => None::<u64>,
        }),
{
    match sys.read_to_string(path.as_str()) {
        Some(t) => parse_hex_attr_exec(t.as_str(), max),
        None => None,
    }
}

fn render_node_for(renders: &Vec<(Vec<char>, Vec<char>)>, pci: &Vec<Vec<char>>) -> (r: Option<String>)
    ensures
        opt_view(r) == render_for(pairs_vv(renders@), vecs_view(pci@)),
{
    let ghost rv = pairs_vv(renders@);
    let ghost pv = vecs_view(pci@);
    let mut i: usize = 0;
    assert(rv.skip(0) =~= rv);
    while i < renders.len()
        invariant
            i <= renders@.len(),
            rv == pairs_vv(renders@),
            pv == vecs_view(pci@),
            render_for(rv, pv) == render_for(rv.skip(i as int), pv),
        decreases renders@.len() - i,
    {
        let ghost rest = rv.skip(i as int);
        assert(rest[0] == (renders@[i as int].0@, renders@[i as int].1@));
        let t = string_of(renders[i].1.as_slice());
        let resolved = resolve_link_parts("/sys/class/drm", t.as_str());
        proof {
            reveal_strlit("/sys/class/drm");
        }
        if parts_prefix(pci, &resolved) {
            return Some(string_of(renders[i].0.as_slice()));
        }
        assert(rest.drop_first() =~= rv.skip(i + 1));
        i = i + 1;
    }
    None
}

fn parts_prefix(a: &Vec<Vec<char>>, b: &Vec<Vec<char>>) -> (r: bool)
    ensures
        r == vecs_view(a@).is_prefix_of(vecs_view(b@)),
{
    if a.len() > b.len() {
        return false;
    }
    for i in 0..a.len()
        invariant
            a@.len() <= b@.len(),
            forall|j: int| 0 <= j < i ==> #[trigger] a@[j]@ == b@[j]@,
    {
        if !eq_chars(a[i].as_slice(), b[i].as_slice()) {
            assert(vecs_view(a@)[i as int] != vecs_view(b@)[i as int]);
            return false;
        }
    }
    assert(vecs_view(a@) =~= vecs_view(b@).take(a@.len() as int));
    true
}

fn vendor_for(driver: &Vec<char>, pci_vendor: Option<u64>) -> (r: GpuVendor)
    ensures
        r == gpu_vendor_spec(
            driver@,
            match pci_vendor {
                Some(v) => Some(v as nat),
                None => None::<nat>,
            },
        ),
{
    proof {
        reveal_strlit("nvidia");
        reveal_strlit("amdgpu");
        reveal_strlit("i915");
        reveal_strlit("xe");
    assert("amdgpu"@ != "nvidia"@) by {
        assert("amdgpu"@[0] != "nvidia"@[0]);
    }
    assert("i915"@.len() != "nvidia"@.len() && "i915"@.len() != "amdgpu"@.len());
    assert("xe"@.len() != "nvidia"@.len() && "xe"@.len() != "amdgpu"@.len());
    }
    if eq_chars(driver.as_slice(), chars_of("nvidia").as_slice()) {
        GpuVendor::Nvidia
    } else if eq_chars(driver.as_slice(), chars_of("amdgpu").as_slice()) {
        GpuVendor::Amd
    } else if eq_chars(driver.as_slice(), chars_of("i915").as_slice()) || eq_chars(
        driver.as_slice(),
        chars_of("xe").as_slice(),
    ) {
        GpuVendor::Intel
    } else {
        match pci_vendor {
            Some(id) => if id != 0 {
                vendor_from_pci_id(id as u16)
            } else {
                GpuVendor::Unknown
            },
            None => GpuVendor::Unknown,
        }
    }
}

/// One card as [`card_model`] describes it.
fn card_gpu<S: Sys>(sys: &S, card: &Vec<char>, renders: &Vec<(Vec<char>, Vec<char>)>) -> (r: Option<DiscoveredGpu>)
    ensures
        match r {
            Some(g) => card_model(sys, card@, pairs_vv(renders@)) == Some(g@),
            None => card_model(sys, card@, pairs_vv(renders@)) is None,
        },
{
    let root = chars_of("/sys/class/drm");
    let cs = string_of(card.as_slice());
    let link_path = join_str(root.as_slice(), cs.as_str());
    let target = match sys.symlink_target(link_path.as_str()) {
        Some(t) => t,
        None => return None,
    };
    let resolved = resolve_link_parts("/sys/class/drm", target.as_str());
    let drm_dir = match parent_of(&resolved) {
        Some(d) => d,
        None => return None,
    };
    let pci = match parent_of(&drm_dir) {
        Some(d) => d,
        None => return None,
    };
    assert(card_pci_dir(sys, card@) == Some(vecs_view(pci@)));
    let bdf = match bdf_from_path(&pci) {
        Some(b) => b,
        None => return None,
    };
    let dir = render_parts(&pci);
    let ven = read_hex(sys, &join_str(dir.as_slice(), "vendor"), 0xffff);
    let dev = read_hex(sys, &join_str(dir.as_slice(), "device"), 0xffff);
    let class = read_hex(sys, &join_str(dir.as_slice(), "class"), 0xffff_ffff);
    if let Some(value) = class {
        if !is_display_class(value as u32) {
            return None;
        }
    }
    let driver = match sys.symlink_target(join_str(dir.as_slice(), "driver").as_str()) {
        Some(p) => match last_component_of(p.as_str()) {
            Some(c) => c,
            None => Vec::new(),
        },
        None => Vec::new(),
    };
    let vendor = vendor_for(&driver, ven);
    let render_node = render_node_for(renders, &pci);
    let g = DiscoveredGpu {
        card: string_of(card.as_slice()),
        device_id: DeviceId::new(Some(bdf), None),
        vendor,
        pci_vendor_id: match ven {
            Some(v) => v as u16,
            None => 0,
        },
        pci_device_id: match dev {
            Some(v) => v as u16,
            None => 0,
        },
        pci_class_code: match class {
            Some(c) => c as u32,
            None => 0,
        },
        driver: string_of(driver.as_slice()),
        render_node,
        outputs: Vec::new(),
    };
    assert(strings_view(g.outputs@) =~= Seq::<Seq<char>>::empty());
    Some(g)
}


fn contains_chars(v: &Vec<Vec<char>>, k: &Vec<char>) -> (r: bool)
    ensures
        r == vecs_view(v@).contains(k@),
{
    for i in 0..v.len()
        invariant
            forall|j: int| 0 <= j < i ==> #[trigger] v@[j]@ != k@,
    {
        if eq_chars(v[i].as_slice(), k.as_slice()) {
            assert(vecs_view(v@)[i as int] == k@);
            return true;
        }
    }
    assert forall|j: int| 0 <= j < vecs_view(v@).len() implies #[trigger] vecs_view(v@)[j] != k@ by {
        assert(vecs_view(v@)[j] == v@[j]@);
    }
    false
}

/// Sort devices by their stable key, keeping card order among equal keys.
fn sort_gpus(found: Vec<DiscoveredGpu>) -> (r: Vec<DiscoveredGpu>)
    ensures
        gpus_view(r@) == sort_models(gpus_view(found@)),
{
    let ghost fv = found@;
    let ghost s_exec = fv.map_values(|g: DiscoveredGpu| (model_key(g@), g));
    let n = found.len();
    let mut input = found;
    let mut pairs: Vec<(Vec<char>, DiscoveredGpu)> = Vec::new();
    let mut k: usize = 0;
    while input.len() > 0
        invariant
            n == fv.len() == k + input@.len(),
            s_exec == fv.map_values(|g: DiscoveredGpu| (model_key(g@), g)),
            input@ == fv.skip(k as int),
            keyed_view(pairs@) == s_exec.take(k as int),
        decreases input@.len(),
    {
        let ghost rest = input@;
        let g = input.remove(0);
        assert(rest[0] == fv[k as int]);
        assert(input@ =~= fv.skip(k + 1));
        let key = chars_of(g.device_id.key());
        assert(key@ == model_key(g@));
        let ghost before = keyed_view(pairs@);
        let ghost item = (key@, g);
        assert(s_exec[k as int] == item);
        pairs.push((key, g));
        assert(keyed_view(pairs@) =~= before.push(item));
        assert(keyed_view(pairs@) =~= s_exec.take(k + 1));
        k = k + 1;
    }
    assert(s_exec.take(k as int) =~= s_exec);
    let mut sorted = sort_by_key(pairs);
    let ghost sv = keyed_view(sorted@);
    let m = sorted.len();
    let mut out: Vec<DiscoveredGpu> = Vec::new();
    let mut j: usize = 0;
    while sorted.len() > 0
        invariant
            m == sv.len() == j + sorted@.len(),
            keyed_view(sorted@) == sv.skip(j as int),
            out@ == sv.take(j as int).map_values(|p: (Seq<char>, DiscoveredGpu)| p.1),
        decreases sorted@.len(),
    {
        let ghost rest = sorted@;
        let (_, g) = sorted.remove(0);
        assert(keyed_view(rest)[0] == sv[j as int]);
        assert(keyed_view(sorted@) =~= sv.skip(j + 1)) by {
            assert(sorted@ =~= rest.drop_first());
            assert(keyed_view(sorted@) =~= keyed_view(rest).drop_first());
            assert(sv.skip(j as int).drop_first() =~= sv.skip(j + 1));
        }
        out.push(g);
        assert(out@ =~= sv.take(j + 1).map_values(|p: (Seq<char>, DiscoveredGpu)| p.1));
        j = j + 1;
    }
    assert(sv.take(j as int) =~= sv);
    proof {
        let f = |g: DiscoveredGpu| g@;
        lemma_sort_map(s_exec, f);
        assert(map_items(s_exec, f) =~= gpus_view(fv).map_values(|mm: GpuModel| (model_key(mm), mm)));
        assert(gpus_view(out@) =~= sort_models(gpus_view(fv)));
    }
    out
}

/// Discover every DRM card of `sys`, sorted by PCI BDF.
pub fn discover_gpus<S: Sys>(sys: &S) -> (r: Vec<DiscoveredGpu>)
    ensures
        gpus_view(r@) == discover_spec(sys),
{
    let entries = match sys.read_dir("/sys/class/drm") {
        Some(es) => es,
        None => {
            proof {
                reveal_strlit("/sys/class/drm");
            }
            return Vec::new();
        },
    };
    proof {
        reveal_strlit("/sys/class/drm");
    }
    let (cards, outs, renders) = scan_drm(sys, &entries);
    let ghost st = (vecs_view(cards@), pairs_vv(outs@), pairs_vv(renders@));
    let mut found: Vec<DiscoveredGpu> = Vec::new();
    let mut claimed: Vec<Vec<char>> = Vec::new();
    for i in 0..cards.len()
        invariant
            st == (vecs_view(cards@), pairs_vv(outs@), pairs_vv(renders@)),
            (gpus_view(found@), vecs_view(claimed@)) == collect_cards(sys, st.0.take(i as int), st),
    {
        let ghost pre = st.0.take(i as int);
        let ghost nxt = st.0.take(i + 1);
        assert(nxt.drop_last() =~= pre);
        assert(nxt.last() == cards@[i as int]@);
        let ghost f0 = gpus_view(found@);
        let ghost c0 = vecs_view(claimed@);
        match card_gpu(sys, &cards[i], &renders) {
            None => {},
            Some(g) => {
                let mut g = g;
                let taken = contains_chars(&claimed, &cards[i]);
                g.outputs = if taken {
                    Vec::new()
                } else {
                    outputs_for(&outs, &cards[i])
                };
                proof {
                    if taken {
                        assert(strings_view(g.outputs@) =~= Seq::<Seq<char>>::empty());
                    }
                }
                let ghost gm = g@;
                found.push(g);
                claimed.push(lit_clone(&cards[i]));
                assert(gpus_view(found@) =~= f0.push(gm));
                assert(vecs_view(claimed@) =~= c0.push(cards@[i as int]@));
            },
        }
    }
    assert(st.0.take(cards@.len() as int) =~= st.0);
    sort_gpus(found)
}


/// Discovered devices come out ordered by their stable key (the PCI BDF),
/// never by enumeration order.
pub proof fn law_discovered_sorted_by_key(ms: Seq<GpuModel>)
    ensures
        forall|i: int, j: int|
            0 <= i < j < sort_models(ms).len() ==> lex_le(
                model_key(#[trigger] sort_models(ms)[i]),
                model_key(#[trigger] sort_models(ms)[j]),
            ),
        sort_models(ms).len() == ms.len(),
{
    broadcast use vstd::seq_lib::group_to_multiset_ensures;

    let ps = ms.map_values(|m: GpuModel| (model_key(m), m));
    let sp = sort_by_key_spec(ps);
    lemma_sort_by_key_sorted(ps);
    lemma_sort_by_key_permutes(ps);
    assert forall|i: int| 0 <= i < sp.len() implies (#[trigger] sp[i]).0 == model_key(sp[i].1) by {
        assert(sp.to_multiset().count(sp[i]) > 0);
        assert(ps.contains(sp[i]));
        let k = choose|k: int| 0 <= k < ps.len() && ps[k] == sp[i];
        assert(ps[k] == (model_key(ms[k]), ms[k]));
    }
    assert forall|i: int, j: int| 0 <= i < j < sort_models(ms).len() implies lex_le(
        model_key(#[trigger] sort_models(ms)[i]),
        model_key(#[trigger] sort_models(ms)[j]),
    ) by {
        assert(sort_models(ms)[i] == sp[i].1);
        assert(sort_models(ms)[j] == sp[j].1);
        assert(sp[i].0 == model_key(sp[i].1));
        assert(sp[j].0 == model_key(sp[j].1));
    }
}

/// What [`discover_gpus`] reports is in key order.
pub proof fn law_discover_gpus_sorted<S: Sys>(sys: &S)
    ensures
        forall|i: int, j: int|
            0 <= i < j < discover_spec(sys).len() ==> lex_le(
                model_key(#[trigger] discover_spec(sys)[i]),
                model_key(#[trigger] discover_spec(sys)[j]),
            ),
{
    match sys.spec_dir(drm_root()) {
        None => {},
        Some(es) => {
            let st = scan_entries(sys, es);
            law_discovered_sorted_by_key(collect_cards(sys, st.0, st).0);
        },
    }
}

/// A PCI address as reported: a valid BDF with no upper-case letters.
pub open spec fn is_lower_bdf(b: Seq<char>) -> bool {
    &&& is_bdf_spec(b)
    &&& forall|i: int| 0 <= i < b.len() ==> lower_char(#[trigger] b[i]) == b[i]
}

/// A DRM card node name: `card…` with no connector suffix.
pub open spec fn is_card_name(c: Seq<char>) -> bool {
    starts_with(c, "card"@) && first_index(c, '-') is None
}

/// What every discovered device looks like: keyed by a lower-case BDF and
/// never by a UUID, named after its card node, of display class (or of
/// unknown class), and classified by its driver where the driver names a
/// vendor, else by its PCI vendor ID.
pub open spec fn discovered_shape(m: GpuModel) -> bool {
    &&& m.bdf is Some && is_lower_bdf(m.bdf->0)
    &&& m.uuid is None
    &&& is_card_name(m.card)
    &&& (m.pci_class_code == 0 || is_display_class_spec(m.pci_class_code))
    &&& (m.driver == "nvidia"@ ==> m.vendor == GpuVendor::Nvidia)
    &&& (m.driver == "amdgpu"@ ==> m.vendor == GpuVendor::Amd)
    &&& (m.driver == "i915"@ || m.driver == "xe"@ ==> m.vendor == GpuVendor::Intel)
    &&& (m.driver != "nvidia"@ && m.driver != "amdgpu"@ && m.driver != "i915"@ && m.driver
        != "xe"@ ==> m.vendor == if m.pci_vendor_id == 0x10de {
        GpuVendor::Nvidia
    } else if m.pci_vendor_id == 0x1002 {
        GpuVendor::Amd
    } else if m.pci_vendor_id == 0x8086 {
        GpuVendor::Intel
    } else if m.pci_vendor_id == 0 {
        GpuVendor::Unknown
    } else {
        GpuVendor::Other
    })
}

proof fn lemma_lower_bdf(s: Seq<char>)
    requires
        is_bdf_spec(s),
    ensures
        is_lower_bdf(to_lower(s)),
        normalize_bdf_spec(to_lower(s)) == to_lower(s),
{
    let b = to_lower(s);
    assert forall|i: int| 0 <= i < b.len() implies lower_char(#[trigger] b[i]) == b[i] by {
        assert(b[i] == lower_char(s[i]));
    }
    assert forall|i: int| 0 <= i < 4 implies is_hex_digit(#[trigger] b.take(4)[i]) by {
        assert(s.take(4)[i] == s[i]);
        assert(b.take(4)[i] == lower_char(s[i]));
    }
    assert forall|i: int| 0 <= i < 2 implies is_hex_digit(#[trigger] b.subrange(5, 7)[i]) by {
        assert(s.subrange(5, 7)[i] == s[i + 5]);
        assert(b.subrange(5, 7)[i] == lower_char(s[i + 5]));
    }
    assert forall|i: int| 0 <= i < 2 implies is_hex_digit(#[trigger] b.subrange(8, 10)[i]) by {
        assert(s.subrange(8, 10)[i] == s[i + 8]);
        assert(b.subrange(8, 10)[i] == lower_char(s[i + 8]));
    }
    assert(b[4] == lower_char(s[4]));
    assert(b[7] == lower_char(s[7]));
    assert(b[10] == lower_char(s[10]));
    assert(b[11] == lower_char(s[11]));
}

proof fn lemma_bdf_from_parts_lower(parts: Seq<Seq<char>>)
    requires
        bdf_from_parts(parts) is Some,
    ensures
        exists|s: Seq<char>| is_bdf_spec(s) && bdf_from_parts(parts) == Some(#[trigger] to_lower(s)),
    decreases parts.len(),
{
    match parse_bdf_spec(parts.last()) {
        Some(b) => {
            assert(is_bdf_spec(parts.last()) && b == to_lower(parts.last()));
        },
        None => lemma_bdf_from_parts_lower(parts.drop_last()),
    }
}

proof fn lemma_scan_cards<S: Sys>(sys: &S, es: Seq<EntryModel>)
    ensures
        forall|i: int|
            0 <= i < scan_entries(sys, es).0.len() ==> is_card_name(#[trigger] scan_entries(sys, es).0[i]),
    decreases es.len(),
{
    if es.len() > 0 {
        lemma_scan_cards(sys, es.drop_last());
        let e = es.last();
        let st = scan_entries(sys, es.drop_last());
        if e.1 && sys.spec_link(path_join(drm_root(), e.0)) is Some && output_card(e.0) is None
            && !starts_with(e.0, "renderD"@) && starts_with(e.0, "card"@) {
            assert(first_index(e.0, '-') is None);
            assert forall|i: int| 0 <= i < st.0.push(e.0).len() implies is_card_name(
                #[trigger] st.0.push(e.0)[i],
            ) by {
                if i < st.0.len() {
                    assert(st.0.push(e.0)[i] == st.0[i]);
                }
            }
        }
    }
}

proof fn lemma_card_model_shape<S: Sys>(sys: &S, card: Seq<char>, renders: Seq<(Seq<char>, Seq<char>)>)
    requires
        is_card_name(card),
        card_model(sys, card, renders) is Some,
    ensures
        discovered_shape(card_model(sys, card, renders)->0),
{
    let pci = card_pci_dir(sys, card)->0;
    let bdf = bdf_from_parts(pci)->0;
    lemma_bdf_from_parts_lower(pci);
    let s = choose|s: Seq<char>| is_bdf_spec(s) && bdf_from_parts(pci) == Some(#[trigger] to_lower(s));
    lemma_lower_bdf(s);
    reveal_strlit("nvidia");
    reveal_strlit("amdgpu");
    reveal_strlit("i915");
    reveal_strlit("xe");
    assert("amdgpu"@ != "nvidia"@) by {
        assert("amdgpu"@[0] != "nvidia"@[0]);
    }
    assert("i915"@.len() != "nvidia"@.len() && "i915"@.len() != "amdgpu"@.len());
    assert("xe"@.len() != "nvidia"@.len() && "xe"@.len() != "amdgpu"@.len());
    let m = card_model(sys, card, renders)->0;
    let dir = render_path(pci);
    let ven = hex_file(sys, path_join(dir, "vendor"@), 0xffff);
    let class = hex_file(sys, path_join(dir, "class"@), 0xffff_ffff);
    let driver = driver_spec(sys.spec_link(path_join(dir, "driver"@)));
    assert(m.bdf == Some(to_lower(s)));
    assert(m.card == card);
    assert(m.uuid is None);
    assert(m.driver == driver);
    assert(m.vendor == gpu_vendor_spec(driver, ven));
    match ven {
        Some(v) => {
            assert(v <= 0xffff);
            assert(m.pci_vendor_id == v as u16);
        },
        None => {
            assert(m.pci_vendor_id == 0);
        },
    }
    match class {
        Some(c) => {
            assert(c <= 0xffff_ffff);
            assert(m.pci_class_code == c as u32);
            assert(is_display_class_spec(c as u32));
        },
        None => {
            assert(m.pci_class_code == 0);
        },
    }
}

proof fn lemma_collect_shape<S: Sys>(sys: &S, cards: Seq<Seq<char>>, st: ScanModel)
    requires
        forall|i: int| 0 <= i < cards.len() ==> is_card_name(#[trigger] cards[i]),
    ensures
        forall|i: int|
            0 <= i < collect_cards(sys, cards, st).0.len() ==> discovered_shape(
                #[trigger] collect_cards(sys, cards, st).0[i],
            ),
    decreases cards.len(),
{
    if cards.len() > 0 {
        let init = cards.drop_last();
        assert forall|i: int| 0 <= i < init.len() implies is_card_name(#[trigger] init[i]) by {
            assert(init[i] == cards[i]);
        }
        lemma_collect_shape(sys, init, st);
        let acc = collect_cards(sys, init, st);
        let card = cards.last();
        assert(is_card_name(cards[cards.len() - 1]));
        match card_model(sys, card, st.2) {
            None => {},
            Some(m) => {
                lemma_card_model_shape(sys, card, st.2);
                let outputs = if acc.1.contains(card) {
                    seq![]
                } else {
                    outputs_of(st.1, card)
                };
                let r = acc.0.push(with_outputs(m, outputs));
                assert forall|i: int| 0 <= i < r.len() implies discovered_shape(#[trigger] r[i]) by {
                    if i < acc.0.len() {
                        assert(r[i] == acc.0[i]);
                    }
                }
            },
        }
    }
}

/// Every device [`discover_gpus`] reports has the shape of a discovered DRM
/// card ([`discovered_shape`]), and nothing is reported when
/// `/sys/class/drm` cannot be read.
pub proof fn law_discovered_gpu_shape<S: Sys>(sys: &S)
    ensures
        sys.spec_dir(drm_root()) is None ==> discover_spec(sys).len() == 0,
        forall|i: int| 0 <= i < discover_spec(sys).len() ==> discovered_shape(#[trigger] discover_spec(sys)[i]),
{
    match sys.spec_dir(drm_root()) {
        None => {},
        Some(es) => {
            let st = scan_entries(sys, es);
            lemma_scan_cards(sys, es);
            let ms = collect_cards(sys, st.0, st).0;
            lemma_collect_shape(sys, st.0, st);
            let ps = ms.map_values(|m: GpuModel| (model_key(m), m));
            assert forall|i: int| 0 <= i < discover_spec(sys).len() implies discovered_shape(
                #[trigger] discover_spec(sys)[i],
            ) by {
                lemma_sort_members(ps, i);
                let k = choose|k: int| 0 <= k < ps.len() && ps[k] == sort_by_key_spec(ps)[i];
                assert(ps[k] == (model_key(ms[k]), ms[k]));
            }
        },
    }
}

/// PCI vendor IDs name the GPU vendors: `0x10de` NVIDIA, `0x1002` AMD,
/// `0x8086` Intel; any other non-zero ID is another vendor and `0` (no ID)
/// an unknown one.
pub proof fn law_pci_vendor_ids(id: u16)
    ensures
        (vendor_from_pci_id_spec(id) == GpuVendor::Nvidia) == (id == 0x10de),
        (vendor_from_pci_id_spec(id) == GpuVendor::Amd) == (id == 0x1002),
        (vendor_from_pci_id_spec(id) == GpuVendor::Intel) == (id == 0x8086),
        (vendor_from_pci_id_spec(id) == GpuVendor::Unknown) == (id == 0),
        (vendor_from_pci_id_spec(id) == GpuVendor::Other) == (id != 0 && id != 0x10de && id
            != 0x1002 && id != 0x8086),
{
}

} // verus!
