//! Normalized telemetry domain shared by the workers, the app snapshot and
//! the UI: stable device identities, GPU selections, server→GPU mappings and
//! explicit metric availability.

use vstd::prelude::*;

use crate::text::{
    all_digits, all_hex, dec_value, append_chars, chars_of, dec_repr, dec_string, digit_char, eq_chars,
    find_last_char, hex_value, is_digit, is_digit_exec, is_hex_digit, is_hex_digit_exec,
    last_index, lemma_hex_value_prefix, lemma_last_index_props, occurs_at, occurs_at_exec,
    parse_hex_vec, parse_uint, parse_uint_vec, slice_vec, starts_with, starts_with_vec, string_of,
    trim, trim_str, unsigned_digits,
};

pub use crate::ui_state::ProcessStats;

verus! {

/// Minimum UI/worker refresh interval.
pub const MIN_REFRESH_MS: u64 = 100;

/// Maximum UI/worker refresh interval.
pub const MAX_REFRESH_MS: u64 = 10_000;

/// Step used by the +/- refresh controls.
pub const REFRESH_STEP_MS: u64 = 100;

/// Floor for the LLM worker's /metrics poll.
pub const MIN_LLM_POLL_MS: u64 = 250;

pub open spec fn opt_view(o: Option<String>) -> Option<Seq<char>> {
    match o {
        Some(s) => Some(s@),
        None => None,
    }
}

pub fn clone_opt_string(o: &Option<String>) -> (r: Option<String>)
    ensures
        opt_view(r) == opt_view(*o),
{
    match o {
        Some(s) => Some(s.clone()),
        None => None,
    }
}

/// Robust identity for a running process: the kernel recycles PIDs, the
/// start time tells two processes with the same PID apart.
#[derive(Copy, Clone, Debug, Default, PartialEq, Eq, Hash)]
pub struct ProcessIdentity {
    pub pid: u32,
    pub start_time: u64,
}

impl ProcessIdentity {
    pub fn new(pid: u32, start_time: u64) -> (r: Self)
        ensures
            r.pid == pid,
            r.start_time == start_time,
    {
        Self { pid, start_time }
    }
}

// ---------------------------------------------------------------------------
// PCI BDF normalization and MIG UUIDs
// ---------------------------------------------------------------------------

pub open spec fn hex_char(d: nat) -> char {
    if d < 10 {
        digit_char(d)
    } else {
        (('a' as u32) + (d - 10)) as char
    }
}

/// Four lowercase hex digits of `n` (`format!("{n:04x}")` for `n < 0x10000`).
pub open spec fn hex4(n: nat) -> Seq<char> {
    seq![
        hex_char((n / 4096) % 16),
        hex_char((n / 256) % 16),
        hex_char((n / 16) % 16),
        hex_char(n % 16),
    ]
}

/// A BDF written with an eight-digit domain: `dddddddd:bb:dd.f`.
pub open spec fn is_long_bdf(s: Seq<char>) -> bool {
    &&& s.len() == 16
    &&& s[8] == ':'
    &&& s[11] == ':'
    &&& s[14] == '.'
    &&& all_hex(s.take(8))
    &&& all_hex(s.subrange(9, 11))
    &&& all_hex(s.subrange(12, 14))
    &&& is_hex_digit(s[15])
}

/// Canonical four-digit-domain form of a PCI BDF. Eight-digit domains below
/// `0x10000` are shortened; everything else is returned unchanged.
pub open spec fn normalize_bdf_spec(s: Seq<char>) -> Seq<char> {
    if is_long_bdf(s) && hex_value(s.take(8)) < 0x10000 {
        hex4(hex_value(s.take(8))) + s.skip(8)
    } else {
        s
    }
}

fn hex_char_exec(d: u32) -> (c: char)
    requires
        d < 16,
    ensures
        c == hex_char(d as nat),
{
    if d < 10 {
        ((d + 48) as u8) as char
    } else {
        ((d + 87) as u8) as char
    }
}

/// Normalize a PCI BDF string to the canonical 4-digit domain form
/// (`0000:01:00.0`). NVML reports an 8-digit domain (`00000000:01:00.0`) for
/// the same device; normalizing at the ingress point keeps identity matching
/// consistent across providers.
pub fn normalize_pci_bdf(value: &str) -> (r: String)
    ensures
        r@ == normalize_bdf_spec(value@),
{
    let v = chars_of(value);
    if v.len() == 16 && v[8] == ':' && v[11] == ':' && v[14] == '.' && is_hex_digit_exec(v[15])
        && all_hex_range(&v, 0, 8) && all_hex_range(&v, 9, 11) && all_hex_range(&v, 12, 14) {
        let dom = slice_vec(&v, 0, 8);
        proof {
            assert(dom@ =~= v@.take(8));
            assert(v@.subrange(0, 8) =~= v@.take(8));
            assert(!is_hex_digit('+'));
            assert(unsigned_digits(dom@) == dom@);
        }
        match parse_hex_vec(dom.as_slice(), 0xffff) {
            Some(n) => {
                let mut out: Vec<char> = Vec::new();
                let n32 = n as u32;
                out.push(hex_char_exec((n32 / 4096) % 16));
                out.push(hex_char_exec((n32 / 256) % 16));
                out.push(hex_char_exec((n32 / 16) % 16));
                out.push(hex_char_exec(n32 % 16));
                let tail = slice_vec(&v, 8, 16);
                append_chars(&mut out, tail.as_slice());
                assert(tail@ =~= v@.skip(8));
                assert(out@ =~= hex4(n as nat) + v@.skip(8));
                return string_of(out.as_slice());
            },
            None => {},
        }
    }
    value.to_string()
}

fn all_hex_range(v: &Vec<char>, lo: usize, hi: usize) -> (r: bool)
    requires
        lo <= hi <= v@.len(),
    ensures
        r == all_hex(v@.subrange(lo as int, hi as int)),
{
    let mut i = lo;
    while i < hi
        invariant
            lo <= i <= hi <= v@.len(),
            forall|j: int| lo <= j < i ==> is_hex_digit(#[trigger] v@[j]),
        decreases hi - i,
    {
        if !is_hex_digit_exec(v[i]) {
            assert(v@.subrange(lo as int, hi as int)[i - lo] == v@[i as int]);
            return false;
        }
        i = i + 1;
    }
    assert forall|j: int| 0 <= j < hi - lo implies is_hex_digit(
        #[trigger] v@.subrange(lo as int, hi as int)[j],
    ) by {
        assert(v@.subrange(lo as int, hi as int)[j] == v@[lo + j]);
    }
    true
}

/// Text after the last `c` (the whole text when there is none).
pub open spec fn after_last(s: Seq<char>, c: char) -> Seq<char> {
    match last_index(s, c) {
        Some(i) => s.skip(i + 1),
        None => s,
    }
}

/// Text before the last `c` (empty when there is none).
pub open spec fn before_last(s: Seq<char>, c: char) -> Seq<char> {
    match last_index(s, c) {
        Some(i) => s.take(i),
        None => seq![],
    }
}

pub open spec fn mig_prefix() -> Seq<char> {
    seq!['M', 'I', 'G', '-']
}

/// The compute-instance id of a `MIG-…-<gi>-<ci>` string.
pub open spec fn mig_ci(s: Seq<char>) -> Seq<char> {
    after_last(s, '-')
}

/// The GPU-instance id of a `MIG-…-<gi>-<ci>` string.
pub open spec fn mig_gi(s: Seq<char>) -> Seq<char> {
    after_last(before_last(s, '-'), '-')
}

/// An NVIDIA MIG device UUID: `MIG-` followed by anything, then `-<gi>-<ci>`
/// with both ids made of ASCII digits.
pub open spec fn is_mig_uuid_spec(s: Seq<char>) -> bool {
    &&& starts_with(s, mig_prefix())
    &&& mig_ci(s).len() > 0
    &&& all_digits(mig_ci(s))
    &&& mig_gi(s).len() > 0
    &&& all_digits(mig_gi(s))
}

fn after_last_vec(v: &Vec<char>, c: char) -> (r: Vec<char>)
    ensures
        r@ == after_last(v@, c),
{
    proof {
        lemma_last_index_props(v@, c);
    }
    let n = v.len();
    match find_last_char(v.as_slice(), c) {
        Some(i) => slice_vec(v, i + 1, n),
        None => {
            let r = slice_vec(v, 0, n);
            assert(r@ =~= v@);
            r
        },
    }
}

fn before_last_vec(v: &Vec<char>, c: char) -> (r: Vec<char>)
    ensures
        r@ == before_last(v@, c),
{
    proof {
        lemma_last_index_props(v@, c);
    }
    let n = v.len();
    assert(n == v@.len());
    match find_last_char(v.as_slice(), c) {
        Some(i) => {
            let r = slice_vec(v, 0, i);
            assert(last_index(v@, c) == Some(i as int));
            assert(r@ =~= v@.take(i as int));
            r
        },
        None => {
            let r: Vec<char> = Vec::new();
            assert(r@ =~= before_last(v@, c));
            r
        },
    }
}

fn all_digits_vec(v: &Vec<char>) -> (r: bool)
    ensures
        r == all_digits(v@),
{
    for i in 0..v.len()
        invariant
            forall|j: int| 0 <= j < i ==> is_digit(#[trigger] v@[j]),
    {
        if !is_digit_exec(v[i]) {
            return false;
        }
    }
    true
}

pub fn is_mig_uuid_vec(v: &Vec<char>) -> (r: bool)
    ensures
        r == is_mig_uuid_spec(v@),
{
    let prefix = vec!['M', 'I', 'G', '-'];
    assert(prefix@ =~= mig_prefix());
    if !starts_with_vec(v.as_slice(), prefix.as_slice()) {
        return false;
    }
    let ci = after_last_vec(v, '-');
    let rest = before_last_vec(v, '-');
    let gi = after_last_vec(&rest, '-');
    ci.len() > 0 && all_digits_vec(&ci) && gi.len() > 0 && all_digits_vec(&gi)
}

/// True when `value` is an NVIDIA MIG device UUID
/// (`MIG-GPU-<parent>-<gi>-<ci>`). Physical GPU UUIDs are never MIG.
pub fn is_mig_uuid(value: &str) -> (r: bool)
    ensures
        r == is_mig_uuid_spec(value@),
{
    let v = chars_of(value);
    is_mig_uuid_vec(&v)
}

// ---------------------------------------------------------------------------
// Device identity
// ---------------------------------------------------------------------------

/// Stable identity for a GPU device, independent of enumeration order: the
/// PCI BDF when known, else a vendor UUID.
#[derive(Clone, Debug, Default, PartialEq, Eq, Hash)]
pub struct DeviceId {
    /// PCI bus:device.function (e.g. `0000:01:00.0`), when known.
    pub pci_bdf: Option<String>,
    /// Vendor-provided UUID, when the driver exposes one.
    pub uuid: Option<String>,
}

/// Primary key of an identity: BDF, then UUID, then the empty string.
pub open spec fn key_of(bdf: Option<Seq<char>>, uuid: Option<Seq<char>>) -> Seq<char> {
    match bdf {
        Some(b) => b,
        None => match uuid {
            Some(u) => u,
            None => seq![],
        },
    }
}

pub open spec fn hash_mig() -> Seq<char> {
    seq!['#', 'm', 'i', 'g', '-']
}

/// Start of the last occurrence of `p` in `s`.
pub open spec fn last_occurrence(s: Seq<char>, p: Seq<char>) -> Option<int>
    decreases s.len(),
{
    if s.len() < p.len() {
        None
    } else if occurs_at(s, p, s.len() - p.len()) {
        Some(s.len() - p.len())
    } else if s.len() == 0 {
        None
    } else {
        last_occurrence(s.drop_last(), p)
    }
}

/// Parent UUID of a MIG identity: a real MIG UUID loses its `MIG-` prefix
/// and its two trailing ids; a synthetic `<parent>#mig-<slot>` key loses its
/// suffix. `None` when nothing non-empty is left or the UUID is neither.
pub open spec fn mig_parent_spec(u: Seq<char>) -> Option<Seq<char>> {
    if starts_with(u, mig_prefix()) {
        let stripped = u.skip(4);
        match last_index(stripped, '-') {
            Some(i) => {
                let r1 = stripped.take(i);
                match last_index(r1, '-') {
                    Some(j) => {
                        if j > 0 {
                            Some(r1.take(j))
                        } else {
                            None
                        }
                    },
                    None => None,
                }
            },
            None => None,
        }
    } else {
        match last_occurrence(u, hash_mig()) {
            Some(p) => {
                if p > 0 {
                    Some(u.take(p))
                } else {
                    None
                }
            },
            None => None,
        }
    }
}

/// Abstract value of a [`DeviceId`]: its BDF and its UUID.
pub type DeviceModel = (Option<Seq<char>>, Option<Seq<char>>);

impl View for DeviceId {
    type V = DeviceModel;

    open spec fn view(&self) -> DeviceModel {
        (opt_view(self.pci_bdf), opt_view(self.uuid))
    }
}

/// Instance ids `(gi, ci)` of a MIG UUID whose ids fit in `u32`.
pub open spec fn mig_instance_of(u: Seq<char>) -> Option<(u32, u32)> {
    if is_mig_uuid_spec(u) {
        match (parse_uint(mig_gi(u), u32::MAX as nat), parse_uint(mig_ci(u), u32::MAX as nat)) {
            (Some(gi), Some(ci)) => Some((gi as u32, ci as u32)),
            _ => None,
        }
    } else {
        None
    }
}

impl DeviceId {
    pub open spec fn key_spec(&self) -> Seq<char> {
        key_of(opt_view(self.pci_bdf), opt_view(self.uuid))
    }

    pub fn new(pci_bdf: Option<String>, uuid: Option<String>) -> (r: Self)
        ensures
            opt_view(r.pci_bdf) == (match pci_bdf {
                Some(b) => Some(normalize_bdf_spec(b@)),
                None => None::<Seq<char>>,
            }),
            opt_view(r.uuid) == opt_view(uuid),
    {
        let pci_bdf = match pci_bdf {
            Some(value) => Some(normalize_pci_bdf(value.as_str())),
            None => None,
        };
        Self { pci_bdf, uuid }
    }

    /// A copy with the same BDF and UUID.
    pub fn duplicate(&self) -> (r: Self)
        ensures
            r@ == self@,
    {
        DeviceId { pci_bdf: clone_opt_string(&self.pci_bdf), uuid: clone_opt_string(&self.uuid) }
    }

    /// Primary stable key for maps and equality: BDF, then UUID, then the
    /// empty string.
    pub fn key(&self) -> (r: &str)
        ensures
            r@ == self.key_spec(),
    {
        match &self.pci_bdf {
            Some(b) => b.as_str(),
            None => match &self.uuid {
                Some(u) => u.as_str(),
                None => {
                    let e = "";
                    proof {
                        reveal_strlit("");
                    }
                    e
                },
            },
        }
    }

    /// `(gpu_instance_id, compute_instance_id)` when the UUID is a MIG UUID
    /// whose ids fit in `u32`.
    pub fn mig_instance(&self) -> (r: Option<(u32, u32)>)
        ensures
            r == (match opt_view(self.uuid) {
                Some(u) => mig_instance_of(u),
                None => None::<(u32, u32)>,
            }),
    {
        let u = match &self.uuid {
            Some(u) => u,
            None => return None,
        };
        let v = chars_of(u.as_str());
        if !is_mig_uuid_vec(&v) {
            return None;
        }
        let ci = after_last_vec(&v, '-');
        let rest = before_last_vec(&v, '-');
        let gi = after_last_vec(&rest, '-');
        let ci_n = parse_uint_vec(ci.as_slice(), 0xffff_ffff);
        let gi_n = parse_uint_vec(gi.as_slice(), 0xffff_ffff);
        match (gi_n, ci_n) {
            (Some(g), Some(c)) => Some((g as u32, c as u32)),
            _ => None,
        }
    }

    /// The physical parent's GPU UUID when this identity is a MIG child.
    pub fn mig_parent_uuid(&self) -> (r: Option<String>)
        ensures
            opt_view(r) == (match opt_view(self.uuid) {
                Some(u) => mig_parent_spec(u),
                None => None::<Seq<char>>,
            }),
    {
        let u = match &self.uuid {
            Some(u) => u,
            None => return None,
        };
        let v = chars_of(u.as_str());
        let nv = v.len();
        assert(nv == v@.len());
        let prefix = vec!['M', 'I', 'G', '-'];
        assert(prefix@ =~= mig_prefix());
        if starts_with_vec(v.as_slice(), prefix.as_slice()) {
            let stripped = slice_vec(&v, 4, v.len());
            assert(stripped@ =~= v@.skip(4));
            proof {
                lemma_last_index_props(stripped@, '-');
            }
            let ns = stripped.len();
            assert(ns == stripped@.len());
            match find_last_char(stripped.as_slice(), '-') {
                Some(i) => {
                    let r1 = slice_vec(&stripped, 0, i);
                    assert(r1@ =~= stripped@.take(i as int));
                    proof {
                        lemma_last_index_props(r1@, '-');
                    }
                    let n1 = r1.len();
                    assert(n1 == r1@.len());
                    match find_last_char(r1.as_slice(), '-') {
                        Some(j) => {
                            if j > 0 {
                                let parent = slice_vec(&r1, 0, j);
                                assert(last_index(stripped@, '-') == Some(i as int));
                                assert(last_index(r1@, '-') == Some(j as int));
                                assert(mig_parent_spec(v@) == Some(r1@.take(j as int)));
                                assert(parent@ =~= r1@.take(j as int));
                                Some(string_of(parent.as_slice()))
                            } else {
                                None
                            }
                        },
                        None => None,
                    }
                },
                None => None,
            }
        } else {
            let pat = vec!['#', 'm', 'i', 'g', '-'];
            assert(pat@ =~= hash_mig());
            match last_occurrence_exec(&v, &pat) {
                Some(p) => {
                    if p > 0 {
                        let parent = slice_vec(&v, 0, p);
                        assert(parent@ =~= v@.take(p as int));
                        Some(string_of(parent.as_slice()))
                    } else {
                        None
                    }
                },
                None => None,
            }
        }
    }
}

pub fn last_occurrence_exec(v: &Vec<char>, p: &Vec<char>) -> (r: Option<usize>)
    ensures
        r == (match last_occurrence(v@, p@) {
            Some(i) => Some(i as usize),
            None => None::<usize>,
        }),
        match r {
            Some(i) => i + p@.len() <= v@.len(),
            None => true,
        },
        match last_occurrence(v@, p@) {
            Some(i) => 0 <= i && i + p@.len() <= v@.len(),
            None => true,
        },
{
    let mut n = v.len();
    assert(v@.take(n as int) =~= v@);
    loop
        invariant
            n <= v@.len(),
            last_occurrence(v@, p@) == last_occurrence(v@.take(n as int), p@),
        decreases n,
    {
        let ghost t = v@.take(n as int);
        if n < p.len() {
            return None;
        }
        let start = n - p.len();
        let hit = occurs_at_exec(v.as_slice(), p.as_slice(), start);
        assert(occurs_at(t, p@, start as int) == occurs_at(v@, p@, start as int)) by {
            if start + p@.len() <= n {
                assert(t.subrange(start as int, start + p@.len()) =~= v@.subrange(
                    start as int,
                    start + p@.len(),
                ));
            }
        }
        if hit {
            return Some(start);
        }
        if n == 0 {
            return None;
        }
        assert(t.drop_last() =~= v@.take(n - 1));
        n = n - 1;
    }
}

// ---------------------------------------------------------------------------
// Vendors, evidence, mappings
// ---------------------------------------------------------------------------

/// Vendor family of a discovered GPU, independent of the provider backend.
#[derive(Clone, Copy, Debug, PartialEq, Eq)]
pub enum GpuVendor {
    Nvidia,
    Amd,
    Intel,
    Other,
    Unknown,
}

/// Evidence used to attribute a GPU to the inference server process.
#[derive(Clone, Copy, Debug, PartialEq, Eq)]
pub enum GpuEvidence {
    /// NVIDIA NVML reported the PID among the device's compute processes.
    NvmlCompute,
    /// The process opened a DRM render node that maps to the device BDF.
    RenderNodeFd,
}

/// One GPU attributed to the inference server process. `device` is the
/// identity; `name` and `vendor` are for display only.
#[derive(Clone, Debug, PartialEq, Eq)]
pub struct MappedGpu {
    pub device: DeviceId,
    /// Human-readable card name (e.g. `card0`), for display only.
    pub name: String,
    pub vendor: GpuVendor,
    pub evidence: GpuEvidence,
}

pub open spec fn unkeyed_marker() -> Seq<char> {
    seq!['<', 'u', 'n', 'k', 'e', 'y', 'e', 'd', '>']
}

impl MappedGpu {
    pub open spec fn display_key(&self) -> Seq<char> {
        if self.device.key_spec().len() == 0 {
            unkeyed_marker()
        } else {
            self.device.key_spec()
        }
    }

    /// Stable display key: PCI BDF, else vendor UUID, else `<unkeyed>`.
    pub fn key(&self) -> (r: &str)
        ensures
            r@ == self.display_key(),
    {
        let k = self.device.key();
        if k.is_empty() {
            let m = "<unkeyed>";
            proof {
                reveal_strlit("<unkeyed>");
            }
            assert(m@ =~= unkeyed_marker());
            return m;
        }
        k
    }
}

/// The result of mapping the inference server process to the GPU(s) it
/// uses: not computed yet, one device, several devices, or unknown.
#[derive(Clone, Debug, Default, PartialEq, Eq)]
pub enum GpuMapping {
    /// No mapping has been computed yet.
    #[default]
    NotComputed,
    /// The server uses exactly one GPU.
    Single(MappedGpu),
    /// The server uses more than one GPU.
    Multi(Vec<MappedGpu>),
    /// Evidence is insufficient to determine which GPU(s) the server uses.
    Unknown,
}

impl GpuMapping {
    /// True when no GPU is attributed (either not computed or unknown).
    pub fn is_empty(&self) -> (r: bool)
        ensures
            r == (self is NotComputed || self is Unknown),
    {
        match self {
            GpuMapping::NotComputed | GpuMapping::Unknown => true,
            _ => false,
        }
    }

    /// Number of GPUs attributed, or `None` when unknown.
    pub fn len(&self) -> (r: Option<usize>)
        ensures
            r == (match self {
                GpuMapping::NotComputed => Some(0usize),
                GpuMapping::Single(_) => Some(1usize),
                GpuMapping::Multi(devices) => Some(devices@.len() as usize),
                GpuMapping::Unknown => None::<usize>,
            }),
    {
        match self {
            GpuMapping::NotComputed => Some(0),
            GpuMapping::Single(_) => Some(1),
            GpuMapping::Multi(devices) => Some(devices.len()),
            GpuMapping::Unknown => None,
        }
    }
}

// ---------------------------------------------------------------------------
// GPU selection
// ---------------------------------------------------------------------------

/// A user-facing GPU selection, independent of enumeration order.
#[derive(Clone, Debug, Default, PartialEq, Eq)]
pub enum GpuSelector {
    /// No explicit selection.
    #[default]
    Auto,
    /// Select by vendor UUID (e.g. `GPU-…`).
    Uuid(String),
    /// Select by PCI bus ID (e.g. `0000:01:00.0`).
    PciBusId(String),
    /// Legacy NVML enumeration index (0-based).
    Index(u32),
}

/// Abstract value of a [`GpuSelector`].
pub enum SelectorModel {
    Auto,
    Uuid(Seq<char>),
    PciBusId(Seq<char>),
    Index(u32),
}

impl View for GpuSelector {
    type V = SelectorModel;

    open spec fn view(&self) -> SelectorModel {
        match self {
            GpuSelector::Auto => SelectorModel::Auto,
            GpuSelector::Uuid(u) => SelectorModel::Uuid(u@),
            GpuSelector::PciBusId(b) => SelectorModel::PciBusId(b@),
            GpuSelector::Index(i) => SelectorModel::Index(*i),
        }
    }
}

pub open spec fn gpu_dash_upper() -> Seq<char> {
    seq!['G', 'P', 'U', '-']
}

pub open spec fn gpu_dash_lower() -> Seq<char> {
    seq!['g', 'p', 'u', '-']
}

/// A legacy NVML index: a non-empty run of ASCII digits (no sign) whose
/// value fits in a `u32`.
pub open spec fn legacy_index(value: Seq<char>) -> Option<u32> {
    if value.len() > 0 && all_digits(value) && dec_value(value) <= u32::MAX {
        Some(dec_value(value) as u32)
    } else {
        None
    }
}

/// What [`GpuSelector::parse`] makes of `raw`: blank is `Auto`, a purely
/// numeric value is a legacy index, anything else a UUID or a PCI bus ID.
pub open spec fn parse_selector(raw: Seq<char>) -> SelectorModel {
    let value = trim(raw);
    if value.len() == 0 {
        SelectorModel::Auto
    } else if legacy_index(value) is Some {
        SelectorModel::Index(legacy_index(value)->0)
    } else if starts_with(value, gpu_dash_upper()) || starts_with(value, gpu_dash_lower())
        || is_mig_uuid_spec(value) {
        SelectorModel::Uuid(value)
    } else {
        SelectorModel::PciBusId(value)
    }
}

/// Canonical string form of a selector (`Auto` is empty).
pub open spec fn selector_string(s: SelectorModel) -> Seq<char> {
    match s {
        SelectorModel::Auto => seq![],
        SelectorModel::Index(i) => dec_repr(i as nat),
        SelectorModel::Uuid(u) => u,
        SelectorModel::PciBusId(b) => b,
    }
}

/// Saving a selector and reading it back gives the same selector: parsing
/// the canonical string of a parsed selector parses to that selector again.
pub proof fn law_selector_round_trip(raw: Seq<char>)
    ensures
        parse_selector(selector_string(parse_selector(raw))) == parse_selector(raw),
{
    let value = trim(raw);
    crate::text::lemma_trim_idempotent(raw);
    if value.len() == 0 {
        assert(selector_string(parse_selector(raw)) =~= Seq::<char>::empty());
    } else if legacy_index(value) is Some {
        let n = (legacy_index(value)->0) as nat;
        crate::text::lemma_trim_dec_repr(n);
        crate::text::lemma_parse_dec_repr(n, u32::MAX as nat);
        crate::text::lemma_dec_repr_digits(n);
        assert(is_digit(dec_repr(n)[0]));
        assert(unsigned_digits(dec_repr(n)) == dec_repr(n));
    }
}

/// What [`GpuSelector::sanitized`] makes of a selector.
pub open spec fn sanitize_selector(s: SelectorModel) -> SelectorModel {
    match s {
        SelectorModel::Uuid(u) => if trim(u).len() == 0 {
            SelectorModel::Auto
        } else {
            SelectorModel::Uuid(trim(u))
        },
        SelectorModel::PciBusId(b) => if trim(b).len() == 0 {
            SelectorModel::Auto
        } else {
            SelectorModel::PciBusId(normalize_bdf_spec(trim(b)))
        },
        other => other,
    }
}

/// A discovered NVIDIA device as the selector sees it: NVML index, UUID,
/// PCI bus ID.
pub type DeviceTriple = (u32, Option<String>, Option<String>);

/// First position in `devices` that `sel` selects.
pub open spec fn selector_matches(sel: SelectorModel, d: DeviceTriple) -> bool {
    match sel {
        SelectorModel::Auto => true,
        SelectorModel::Index(i) => d.0 == i,
        SelectorModel::Uuid(u) => opt_view(d.1) == Some(u),
        SelectorModel::PciBusId(b) => opt_view(d.2) == Some(b),
    }
}

impl GpuSelector {
    /// Parse a raw selector string. Blank → `Auto`; a `u32` → `Index`;
    /// `GPU-…`/`gpu-…`/MIG UUIDs → `Uuid`; anything else → `PciBusId`.
    pub fn parse(raw: &str) -> (r: Self)
        ensures
            r@ == parse_selector(raw@),
    {
        let value = trim_str(raw);
        if value.len() == 0 {
            return Self::Auto;
        }
        if all_digits_vec(&value) {
            proof {
                assert(is_digit(value@[0]));
                assert(unsigned_digits(value@) == value@);
            }
            if let Some(index) = parse_uint_vec(value.as_slice(), 0xffff_ffff) {
                return Self::Index(index as u32);
            }
        }
        let upper = vec!['G', 'P', 'U', '-'];
        let lower = vec!['g', 'p', 'u', '-'];
        assert(upper@ =~= gpu_dash_upper());
        assert(lower@ =~= gpu_dash_lower());
        if starts_with_vec(value.as_slice(), upper.as_slice()) || starts_with_vec(
            value.as_slice(),
            lower.as_slice(),
        ) || is_mig_uuid_vec(&value) {
            return Self::Uuid(string_of(value.as_slice()));
        }
        Self::PciBusId(string_of(value.as_slice()))
    }

    /// Resolve the selector against the discovered NVIDIA devices. Returns
    /// the NVML index of the first matching device (`Auto` takes the first
    /// device), or `None` when nothing matches.
    pub fn resolve(&self, devices: &[DeviceTriple]) -> (r: Option<u32>)
        ensures
            match r {
                Some(i) => exists|k: int|
                    0 <= k < devices@.len() && selector_matches(self@, #[trigger] devices@[k])
                        && devices@[k].0 == i && forall|j: int|
                        0 <= j < k ==> !selector_matches(self@, #[trigger] devices@[j]),
                None => forall|k: int|
                    0 <= k < devices@.len() ==> !selector_matches(self@, #[trigger] devices@[k]),
            },
    {
        let key: Option<Vec<char>> = match self {
            Self::Uuid(u) => Some(chars_of(u.as_str())),
            Self::PciBusId(b) => Some(chars_of(b.as_str())),
            _ => None,
        };
        for k in 0..devices.len()
            invariant
                forall|j: int| 0 <= j < k ==> !selector_matches(self@, #[trigger] devices@[j]),
                match self {
                    GpuSelector::Uuid(u) => key is Some && key->0@ == u@,
                    GpuSelector::PciBusId(b) => key is Some && key->0@ == b@,
                    _ => true,
                },
        {
            let d = &devices[k];
            let hit = match self {
                Self::Auto => true,
                Self::Index(i) => d.0 == *i,
                Self::Uuid(_) => match (&d.1, &key) {
                    (Some(u), Some(kv)) => {
                        let uv = chars_of(u.as_str());
                        eq_chars(uv.as_slice(), kv.as_slice())
                    },
                    _ => false,
                },
                Self::PciBusId(_) => match (&d.2, &key) {
                    (Some(b), Some(kv)) => {
                        let bv = chars_of(b.as_str());
                        eq_chars(bv.as_slice(), kv.as_slice())
                    },
                    _ => false,
                },
            };
            assert(hit == selector_matches(self@, devices@[k as int]));
            if hit {
                return Some(d.0);
            }
        }
        None
    }

    /// A copy with the same abstract value.
    pub fn duplicate(&self) -> (r: Self)
        ensures
            r@ == self@,
    {
        match self {
            Self::Auto => Self::Auto,
            Self::Uuid(u) => Self::Uuid(u.clone()),
            Self::PciBusId(b) => Self::PciBusId(b.clone()),
            Self::Index(i) => Self::Index(*i),
        }
    }

    /// Canonical string form for config/CLI/UI. `Auto` is the empty string.
    pub fn as_string(&self) -> (r: String)
        ensures
            r@ == selector_string(self@),
    {
        match self {
            Self::Auto => String::new(),
            Self::Index(index) => dec_string(*index as u64),
            Self::Uuid(uuid) => uuid.clone(),
            Self::PciBusId(bdf) => bdf.clone(),
        }
    }

    /// Trim and normalize: blank strings become `Auto`; PCI bus IDs are
    /// brought to the canonical four-digit-domain form.
    pub fn sanitized(&self) -> (r: Self)
        ensures
            r@ == sanitize_selector(self@),
    {
        match self {
            Self::Uuid(uuid) => {
                let value = trim_str(uuid.as_str());
                if value.len() == 0 {
                    Self::Auto
                } else {
                    Self::Uuid(string_of(value.as_slice()))
                }
            },
            Self::PciBusId(bdf) => {
                let value = trim_str(bdf.as_str());
                if value.len() == 0 {
                    Self::Auto
                } else {
                    let s = string_of(value.as_slice());
                    Self::PciBusId(normalize_pci_bdf(s.as_str()))
                }
            },
            Self::Auto => Self::Auto,
            Self::Index(i) => Self::Index(*i),
        }
    }
}

// ---------------------------------------------------------------------------
// Metric availability
// ---------------------------------------------------------------------------

/// Explicit availability of a single metric value, so the UI can tell a real
/// zero from a sensor that does not exist.
#[derive(Clone, Debug, PartialEq, Default)]
pub enum Metric<T> {
    Available(T),
    /// The device/driver does not expose this metric at all.
    #[default]
    Unsupported,
    /// Exposed, but not readable right now.
    Unavailable,
    /// Not readable with the current user's permissions.
    PermissionDenied,
    /// Last known value, kept after the source started failing.
    Stale(T),
    /// The source returned an explicit error.
    Error(String),
}

impl<T> Metric<T> {
    pub fn available(value: T) -> (r: Self)
        ensures
            r == Metric::Available(value),
    {
        Self::Available(value)
    }

    pub fn unsupported() -> (r: Self)
        ensures
            r is Unsupported,
    {
        Self::Unsupported
    }

    pub fn unavailable() -> (r: Self)
        ensures
            r is Unavailable,
    {
        Self::Unavailable
    }

    pub fn permission_denied() -> (r: Self)
        ensures
            r is PermissionDenied,
    {
        Self::PermissionDenied
    }

    pub fn stale(value: T) -> (r: Self)
        ensures
            r == Metric::Stale(value),
    {
        Self::Stale(value)
    }

    pub fn error(message: String) -> (r: Self)
        ensures
            r == Metric::<T>::Error(message),
    {
        Self::Error(message)
    }

    /// The value when the metric carries one (available or stale).
    pub fn value(&self) -> (r: Option<&T>)
        ensures
            r == (match self {
                Metric::Available(v) => Some(v),
                Metric::Stale(v) => Some(v),
                _ => None::<&T>,
            }),
    {
        match self {
            Self::Available(value) | Self::Stale(value) => Some(value),
            _ => None,
        }
    }

    /// True when the metric has a usable value right now (not stale/error).
    pub fn is_live(&self) -> (r: bool)
        ensures
            r == (self is Available),
    {
        match self {
            Self::Available(_) => true,
            _ => false,
        }
    }

    pub fn is_unavailable(&self) -> (r: bool)
        ensures
            r == !(self is Available),
    {
        match self {
            Self::Available(_) => false,
            _ => true,
        }
    }
}

} // verus!
