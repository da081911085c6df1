//! Vendor-specific GPU telemetry: the parts of the AMD, Intel and NVIDIA
//! backends that locate devices and interpret what the driver reports.
//! Missing metrics stay `None` (explicit "unavailable"), never fake zeroes.

pub mod amd;
pub mod intel;
pub mod nvidia;

use vstd::prelude::*;

use crate::domain::opt_view;
use crate::paths::{components, components_of, join_str, path_join};
use crate::system::{entries_view, EntryModel, Sys};
use crate::text::{
    chars_of, eq_chars, parse_i64_spec, parse_i64_vec, parse_uint, parse_uint_vec, starts_with,
    starts_with_str, string_of, trim, trim_str, vecs_view,
};

verus! {

/// Trimmed text of the file at `path`, `None` when missing or blank.
pub open spec fn read_text_spec<S: Sys>(sys: &S, path: Seq<char>) -> Option<Seq<char>> {
    match sys.spec_file(path) {
        Some(t) => if trim(t).len() > 0 {
            Some(trim(t))
        } else {
            None
        },
        None => None,
    }
}

pub fn read_text<S: Sys>(sys: &S, path: &str) -> (r: Option<String>)
    ensures
        opt_view(r) == read_text_spec(sys, path@),
{
    match sys.read_to_string(path) {
        Some(t) => {
            let v = trim_str(t.as_str());
            if v.len() > 0 {
                Some(string_of(v.as_slice()))
            } else {
                None
            }
        },
        None => None,
    }
}

pub open spec fn read_u64_spec<S: Sys>(sys: &S, path: Seq<char>) -> Option<u64> {
    match read_text_spec(sys, path) {
        Some(t) => match parse_uint(t, u64::MAX as nat) {
            Some(n) => Some(n as u64),
            None => None,
        },
        None => None,
    }
}

pub fn read_u64<S: Sys>(sys: &S, path: &str) -> (r: Option<u64>)
    ensures
        r == read_u64_spec(sys, path@),
{
    match read_text(sys, path) {
        Some(t) => {
            let v = chars_of(t.as_str());
            parse_uint_vec(v.as_slice(), u64::MAX)
        },
        None => None,
    }
}

pub open spec fn read_i64_spec<S: Sys>(sys: &S, path: Seq<char>) -> Option<i64> {
    match read_text_spec(sys, path) {
        Some(t) => parse_i64_spec(t),
        None => None,
    }
}

pub fn read_i64<S: Sys>(sys: &S, path: &str) -> (r: Option<i64>)
    ensures
        r == read_i64_spec(sys, path@),
{
    match read_text(sys, path) {
        Some(t) => {
            let v = chars_of(t.as_str());
            parse_i64_vec(v.as_slice())
        },
        None => None,
    }
}

/// Some component of `target` is exactly `bdf`.
pub open spec fn has_component(target: Seq<char>, bdf: Seq<char>) -> bool {
    components(target).contains(bdf)
}

/// True when any path component of `target` equals `bdf`.
pub fn path_component_is_bdf(target: &str, bdf: &str) -> (r: bool)
    ensures
        r == has_component(target@, bdf@),
{
    let cs = components_of(target);
    let b = chars_of(bdf);
    let ghost cv = vecs_view(cs@);
    for i in 0..cs.len()
        invariant
            cv == vecs_view(cs@),
            cv == components(target@),
            b@ == bdf@,
            forall|j: int| 0 <= j < i ==> #[trigger] cv[j] != bdf@,
    {
        assert(cv[i as int] == cs@[i as int]@);
        if eq_chars(cs[i].as_slice(), b.as_slice()) {
            assert(cv[i as int] == bdf@);
            return true;
        }
    }
    false
}

pub open spec fn hwmon_root() -> Seq<char> {
    "/sys/class/hwmon"@
}

/// An `hwmonN` entry whose `device` link runs through the PCI device `bdf`.
pub open spec fn hwmon_matches<S: Sys>(sys: &S, e: EntryModel, bdf: Seq<char>) -> bool {
    &&& starts_with(e.0, "hwmon"@)
    &&& match sys.spec_link(path_join(path_join(hwmon_root(), e.0), "device"@)) {
        Some(t) => has_component(t, bdf),
        None => false,
    }
}

/// The first matching hwmon entry.
pub open spec fn first_hwmon<S: Sys>(sys: &S, es: Seq<EntryModel>, bdf: Seq<char>) -> Option<Seq<char>>
    decreases es.len(),
{
    if es.len() == 0 {
        None
    } else if hwmon_matches(sys, es[0], bdf) {
        Some(es[0].0)
    } else {
        first_hwmon(sys, es.drop_first(), bdf)
    }
}

/// The hwmon device (`hwmonN`) registered on the PCI device `bdf`.
pub open spec fn find_hwmon_spec<S: Sys>(sys: &S, bdf: Seq<char>) -> Option<Seq<char>> {
    match sys.spec_dir(hwmon_root()) {
        Some(es) => first_hwmon(sys, es, bdf),
        None => None,
    }
}

/// Find the `hwmonN` whose parent is the PCI device with `bdf`: its `device`
/// symlink resolves to that device, so the BDF is one of its path
/// components. `None` when no hwmon matches.
pub fn find_hwmon_for_bdf<S: Sys>(sys: &S, bdf: &str) -> (r: Option<String>)
    ensures
        opt_view(r) == find_hwmon_spec(sys, bdf@),
{
    proof {
        reveal_strlit("/sys/class/hwmon");
        reveal_strlit("hwmon");
    }
    let entries = match sys.read_dir("/sys/class/hwmon") {
        Some(es) => es,
        None => return None,
    };
    let root = chars_of("/sys/class/hwmon");
    let ghost ev = entries_view(entries@);
    let mut i: usize = 0;
    assert(ev.skip(0) =~= ev);
    while i < entries.len()
        invariant
            i <= entries@.len(),
            root@ == hwmon_root(),
            ev == entries_view(entries@),
            find_hwmon_spec(sys, bdf@) == first_hwmon(sys, ev.skip(i as int), bdf@),
        decreases entries@.len() - i,
    {
        let ghost rest = ev.skip(i as int);
        assert(rest[0] == entries@[i as int]@);
        assert(rest.drop_first() =~= ev.skip(i + 1));
        let name = chars_of(entries[i].name.as_str());
        if starts_with_str(name.as_slice(), "hwmon") {
            let dir = join_str(root.as_slice(), entries[i].name.as_str());
            let dv = chars_of(dir.as_str());
            let link = join_str(dv.as_slice(), "device");
            if let Some(target) = sys.symlink_target(link.as_str()) {
                if path_component_is_bdf(target.as_str(), bdf) {
                    return Some(entries[i].name.clone());
                }
            }
        }
        i = i + 1;
    }
    None
}

/// `/sys/bus/pci/devices/<bdf>`.
pub fn pci_device_dir(bdf: &str) -> (r: String)
    ensures
        r@ == path_join("/sys/bus/pci/devices"@, bdf@),
{
    let root = chars_of("/sys/bus/pci/devices");
    join_str(root.as_slice(), bdf)
}

} // verus!
