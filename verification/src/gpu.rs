//! Choosing the GPU to monitor: a vendor-neutral [`GpuSelector`] resolved
//! against the BDF-sorted discovery list, and the telemetry backend that
//! samples it.

use vstd::prelude::*;

use crate::discovery::{gpus_view, model_key, DiscoveredGpu, GpuModel};
use crate::domain::{GpuSelector, GpuVendor, SelectorModel};
use crate::text::{chars_of, eq_chars};

verus! {

/// Position of the first device of vendor `v`.
pub open spec fn first_of_vendor(gs: Seq<GpuModel>, v: GpuVendor) -> Option<int>
    decreases gs.len(),
{
    if gs.len() == 0 {
        None
    } else if gs[0].vendor == v {
        Some(0)
    } else {
        match first_of_vendor(gs.drop_first(), v) {
            Some(k) => Some(k + 1),
            None => None,
        }
    }
}

/// Position of the `n`-th (0-based) device of vendor `v`.
pub open spec fn nth_of_vendor(gs: Seq<GpuModel>, v: GpuVendor, n: nat) -> Option<int>
    decreases gs.len(),
{
    if gs.len() == 0 {
        None
    } else if gs[0].vendor == v {
        if n == 0 {
            Some(0)
        } else {
            match nth_of_vendor(gs.drop_first(), v, (n - 1) as nat) {
                Some(k) => Some(k + 1),
                None => None,
            }
        }
    } else {
        match nth_of_vendor(gs.drop_first(), v, n) {
            Some(k) => Some(k + 1),
            None => None,
        }
    }
}

/// Position of the first device whose key is `key`.
pub open spec fn first_with_key(gs: Seq<GpuModel>, key: Seq<char>) -> Option<int>
    decreases gs.len(),
{
    if gs.len() == 0 {
        None
    } else if model_key(gs[0]) == key {
        Some(0)
    } else {
        match first_with_key(gs.drop_first(), key) {
            Some(k) => Some(k + 1),
            None => None,
        }
    }
}

/// Which position a selector picks. `Auto`: the first NVIDIA device, else
/// the first device. `Index(n)`: the n-th NVIDIA device, or the n-th device
/// overall when there is no NVIDIA device. `PciBusId`: the device with that
/// key. `Uuid`: nothing (resolved by the NVIDIA backend instead).
pub open spec fn resolve_discovered_spec(sel: SelectorModel, gs: Seq<GpuModel>) -> Option<int> {
    match sel {
        SelectorModel::Auto => match first_of_vendor(gs, GpuVendor::Nvidia) {
            Some(k) => Some(k),
            None => if gs.len() > 0 {
                Some(0)
            } else {
                None
            },
        },
        SelectorModel::Index(n) => if first_of_vendor(gs, GpuVendor::Nvidia) is Some {
            nth_of_vendor(gs, GpuVendor::Nvidia, n as nat)
        } else if (n as int) < gs.len() {
            Some(n as int)
        } else {
            None
        },
        SelectorModel::PciBusId(b) => first_with_key(gs, b),
        SelectorModel::Uuid(_) => None,
    }
}

proof fn lemma_first_of_vendor_props(gs: Seq<GpuModel>, v: GpuVendor)
    ensures
        match first_of_vendor(gs, v) {
            Some(k) => 0 <= k < gs.len() && gs[k].vendor == v && forall|j: int|
                0 <= j < k ==> (#[trigger] gs[j]).vendor != v,
            None => forall|j: int| 0 <= j < gs.len() ==> (#[trigger] gs[j]).vendor != v,
        },
    decreases gs.len(),
{
    if gs.len() > 0 {
        lemma_first_of_vendor_props(gs.drop_first(), v);
        assert forall|j: int| 0 < j < gs.len() implies gs[j] == gs.drop_first()[j - 1] by {}
    }
}

pub proof fn lemma_first_with_key_props(gs: Seq<GpuModel>, key: Seq<char>)
    ensures
        match first_with_key(gs, key) {
            Some(k) => 0 <= k < gs.len() && model_key(gs[k]) == key && forall|j: int|
                0 <= j < k ==> model_key(#[trigger] gs[j]) != key,
            None => forall|j: int| 0 <= j < gs.len() ==> model_key(#[trigger] gs[j]) != key,
        },
    decreases gs.len(),
{
    if gs.len() > 0 {
        lemma_first_with_key_props(gs.drop_first(), key);
        assert forall|j: int| 0 < j < gs.len() implies gs[j] == gs.drop_first()[j - 1] by {}
    }
}

proof fn lemma_nth_bounds(gs: Seq<GpuModel>, v: GpuVendor, n: nat)
    ensures
        match nth_of_vendor(gs, v, n) {
            Some(k) => 0 <= k < gs.len(),
            None => true,
        },
    decreases gs.len(),
{
    if gs.len() > 0 {
        if gs[0].vendor == v && n > 0 {
            lemma_nth_bounds(gs.drop_first(), v, (n - 1) as nat);
        } else {
            lemma_nth_bounds(gs.drop_first(), v, n);
        }
    }
}

/// `nth_of_vendor` over a suffix, counting the matches already passed.
proof fn lemma_nth_step(gs: Seq<GpuModel>, v: GpuVendor, n: nat, i: int, seen: nat)
    requires
        0 <= i < gs.len(),
        seen <= n,
    ensures
        ({
            let rest = gs.skip(i);
            let next = gs.skip(i + 1);
            if gs[i].vendor == v {
                if seen == n {
                    nth_of_vendor(rest, v, (n - seen) as nat) == Some(0int)
                } else {
                    nth_of_vendor(rest, v, (n - seen) as nat) == (match nth_of_vendor(next, v, (n - seen - 1) as nat) {
                        Some(k) => Some(k + 1),
                        None => None::<int>,
                    })
                }
            } else {
                nth_of_vendor(rest, v, (n - seen) as nat) == (match nth_of_vendor(next, v, (n - seen) as nat) {
                    Some(k) => Some(k + 1),
                    None => None::<int>,
                })
            }
        }),
{
    let rest = gs.skip(i);
    assert(rest[0] == gs[i]);
    assert(rest.drop_first() =~= gs.skip(i + 1));
}

fn vendor_eq(a: GpuVendor, b: GpuVendor) -> (r: bool)
    ensures
        r == (a == b),
{
    match (a, b) {
        (GpuVendor::Nvidia, GpuVendor::Nvidia) => true,
        (GpuVendor::Amd, GpuVendor::Amd) => true,
        (GpuVendor::Intel, GpuVendor::Intel) => true,
        (GpuVendor::Other, GpuVendor::Other) => true,
        (GpuVendor::Unknown, GpuVendor::Unknown) => true,
        _ => false,
    }
}

fn first_nvidia(gpus: &[DiscoveredGpu]) -> (r: Option<usize>)
    ensures
        r == (match first_of_vendor(gpus_view(gpus@), GpuVendor::Nvidia) {
            Some(k) => Some(k as usize),
            None => None::<usize>,
        }),
        r is Some ==> r->0 < gpus@.len() && first_of_vendor(gpus_view(gpus@), GpuVendor::Nvidia)
            == Some(r->0 as int),
{
    let ghost gv = gpus_view(gpus@);
    proof {
        lemma_first_of_vendor_props(gv, GpuVendor::Nvidia);
    }
    for i in 0..gpus.len()
        invariant
            gv == gpus_view(gpus@),
            forall|j: int| 0 <= j < i ==> (#[trigger] gv[j]).vendor != GpuVendor::Nvidia,
    {
        assert(gv[i as int] == gpus@[i as int]@);
        if vendor_eq(gpus[i].vendor, GpuVendor::Nvidia) {
            proof {
                lemma_first_of_vendor_props(gv, GpuVendor::Nvidia);
            }
            return Some(i);
        }
    }
    proof {
        lemma_first_of_vendor_props(gv, GpuVendor::Nvidia);
    }
    None
}

fn nth_nvidia(gpus: &[DiscoveredGpu], n: u32) -> (r: Option<usize>)
    ensures
        r == (match nth_of_vendor(gpus_view(gpus@), GpuVendor::Nvidia, n as nat) {
            Some(k) => Some(k as usize),
            None => None::<usize>,
        }),
        r is Some ==> r->0 < gpus@.len(),
{
    let ghost gv = gpus_view(gpus@);
    let _n = gpus.len();
    let mut seen: u32 = 0;
    let mut i: usize = 0;
    assert(gv.skip(0) =~= gv);
    while i < gpus.len()
        invariant
            gv == gpus_view(gpus@),
            i <= gpus@.len(),
            seen <= n,
            nth_of_vendor(gv, GpuVendor::Nvidia, n as nat) == (match nth_of_vendor(
                gv.skip(i as int),
                GpuVendor::Nvidia,
                (n - seen) as nat,
            ) {
                Some(k) => Some(k + i),
                None => None::<int>,
            }),
        decreases gpus@.len() - i,
    {
        proof {
            lemma_nth_step(gv, GpuVendor::Nvidia, n as nat, i as int, seen as nat);
        }
        assert(gv[i as int] == gpus@[i as int]@);
        if vendor_eq(gpus[i].vendor, GpuVendor::Nvidia) {
            if seen == n {
                return Some(i);
            }
            seen = seen + 1;
        }
        i = i + 1;
    }
    assert(gv.skip(i as int).len() == 0);
    None
}

fn first_key(gpus: &[DiscoveredGpu], key: &str) -> (r: Option<usize>)
    ensures
        r == (match first_with_key(gpus_view(gpus@), key@) {
            Some(k) => Some(k as usize),
            None => None::<usize>,
        }),
{
    let ghost gv = gpus_view(gpus@);
    proof {
        lemma_first_with_key_props(gv, key@);
    }
    let kv = chars_of(key);
    for i in 0..gpus.len()
        invariant
            gv == gpus_view(gpus@),
            kv@ == key@,
            forall|j: int| 0 <= j < i ==> model_key(#[trigger] gv[j]) != key@,
    {
        assert(gv[i as int] == gpus@[i as int]@);
        let gk = chars_of(gpus[i].device_id.key());
        if eq_chars(gk.as_slice(), kv.as_slice()) {
            proof {
                lemma_first_with_key_props(gv, key@);
            }
            return Some(i);
        }
    }
    proof {
        lemma_first_with_key_props(gv, key@);
    }
    None
}

/// Resolve a vendor-neutral [`GpuSelector`] against the BDF-sorted discovery
/// list: the position (as the `u32` the providers take) and the device.
pub fn resolve_discovered<'a>(selector: &GpuSelector, gpus: &'a [DiscoveredGpu]) -> (r: Option<
    (u32, &'a DiscoveredGpu),
>)
    ensures
        match resolve_discovered_spec(selector@, gpus_view(gpus@)) {
            Some(k) => match r {
                Some(p) => 0 <= k < gpus@.len() && p.0 == k as u32 && *p.1 == gpus@[k],
                None => false,
            },
            None => r is None,
        },
{
    let _n = gpus.len();
    proof {
        lemma_first_of_vendor_props(gpus_view(gpus@), GpuVendor::Nvidia);
        match selector@ {
            SelectorModel::PciBusId(b) => lemma_first_with_key_props(gpus_view(gpus@), b),
            _ => {},
        }
    }
    match selector {
        GpuSelector::Auto => match first_nvidia(gpus) {
            Some(k) => Some((k as u32, &gpus[k])),
            None => if gpus.len() > 0 {
                Some((0, &gpus[0]))
            } else {
                None
            },
        },
        GpuSelector::Index(index) => {
            proof {
                lemma_nth_bounds(gpus_view(gpus@), GpuVendor::Nvidia, *index as nat);
            }
            if first_nvidia(gpus).is_some() {
                match nth_nvidia(gpus, *index) {
                    Some(k) => Some((k as u32, &gpus[k])),
                    None => None,
                }
            } else {
                let i = *index as usize;
                if i < gpus.len() {
                    Some((*index, &gpus[i]))
                } else {
                    None
                }
            }
        },
        GpuSelector::PciBusId(bdf) => match first_key(gpus, bdf.as_str()) {
            Some(k) => Some((k as u32, &gpus[k])),
            None => None,
        },
        GpuSelector::Uuid(_) => None,
    }
}

/// The telemetry backend for the selected device.
#[derive(Clone, Copy, Debug, PartialEq, Eq)]
pub enum Backend {
    /// NVML: an NVIDIA device, or a vendor UUID (which only NVML resolves).
    Nvidia,
    /// amdgpu sysfs + hwmon for the device at this position.
    Amd(usize),
    /// i915/xe sysfs + hwmon for the device at this position.
    Intel(usize),
    /// The selection matches no discovered device.
    NoMatch,
    /// The device at this position has a vendor without a backend.
    Unbacked(usize),
}

pub open spec fn backend_spec(sel: SelectorModel, gs: Seq<GpuModel>) -> Backend {
    if sel is Uuid {
        Backend::Nvidia
    } else {
        match resolve_discovered_spec(sel, gs) {
            None => Backend::NoMatch,
            Some(k) => match gs[k].vendor {
                GpuVendor::Nvidia => Backend::Nvidia,
                GpuVendor::Amd => Backend::Amd(k as usize),
                GpuVendor::Intel => Backend::Intel(k as usize),
                _ => Backend::Unbacked(k as usize),
            },
        }
    }
}

/// Pick the backend for `selector`: vendor UUIDs go to NVML; otherwise the
/// selector is resolved against the discovery list and the device's vendor
/// decides. Vendors without a backend get an explicit "no backend" result,
/// never another vendor's reading.
pub fn choose_backend(selector: &GpuSelector, gpus: &[DiscoveredGpu]) -> (r: Backend)
    requires
        gpus@.len() <= u32::MAX,
    ensures
        r == backend_spec(selector@, gpus_view(gpus@)),
        match r {
            Backend::Amd(k) | Backend::Intel(k) | Backend::Unbacked(k) => k < gpus@.len(),
            _ => true,
        },
{
    if let GpuSelector::Uuid(_) = selector {
        return Backend::Nvidia;
    }
    match resolve_discovered(selector, gpus) {
        None => Backend::NoMatch,
        Some((position, gpu)) => {
            let k = position as usize;
            match gpu.vendor {
                GpuVendor::Nvidia => Backend::Nvidia,
                GpuVendor::Amd => Backend::Amd(k),
                GpuVendor::Intel => Backend::Intel(k),
                _ => Backend::Unbacked(k),
            }
        },
    }
}

} // verus!
