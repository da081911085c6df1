//! Intel GPU/APU telemetry (i915/xe sysfs + hwmon): where the GT attributes
//! live, the display name of known devices, the throttle reason, and one
//! sample of what the driver reports.
//!
//! xe keeps `cur_freq` (MHz) and `throttle/reasons` under
//! `tile0/gt0/freq0` of the PCI device; i915 keeps `rps_cur_freq_mhz` and the
//! `throttle_reason_*` flags on the DRM card (or its `gt/gt0`). The hwmon,
//! present on discrete devices only, gives `temp1_input` (millidegrees) and
//! `power1_max` (the PL1 limit, microwatts). Neither driver reports a busy
//! counter, VRAM or a power draw.

use vstd::prelude::*;

pub use super::{find_hwmon_for_bdf, path_component_is_bdf, pci_device_dir};

use super::amd::hwmon_i64;
use super::{read_text, read_text_spec, read_u64, read_u64_spec};
use crate::discovery::{model_key, DiscoveredGpu, GpuModel};
use crate::domain::opt_view;
use crate::paths::{join_str, path_join};
use crate::system::Sys;
use crate::text::{chars_of, join_tokens, join_with, str_eq, string_of};

verus! {

/// Device IDs with a known product name.
pub open spec fn known_name(device_id: u16) -> Option<Seq<char>> {
    if device_id == 0x64a0 {
        Some("Intel Arc (Core Ultra 200V iGPU)"@)
    } else {
        None
    }
}

/// A short, stable display name: the product name of a well-known device ID,
/// else the card name.
pub fn display_name(gpu: &DiscoveredGpu) -> (r: String)
    ensures
        r@ == (match known_name(gpu.pci_device_id) {
            Some(n) => n,
            None => gpu.card@,
        }),
{
    if gpu.pci_device_id == 0x64a0 {
        "Intel Arc (Core Ultra 200V iGPU)".to_string()
    } else {
        gpu.card.clone()
    }
}

/// Where the driver's GT attributes are: under the PCI device for xe, on
/// the DRM card for i915.
pub open spec fn gt_dir_spec(g: GpuModel) -> Seq<char> {
    if g.driver == "xe"@ {
        path_join(path_join("/sys/bus/pci/devices"@, model_key(g)), "tile0/gt0/freq0"@)
    } else {
        path_join("/sys/class/drm"@, g.card)
    }
}

/// The directory the driver's GT sysfs attributes are read from.
pub fn gt_sysfs_dir(gpu: &DiscoveredGpu) -> (r: String)
    ensures
        r@ == gt_dir_spec(gpu@),
{
    if str_eq(gpu.driver.as_str(), "xe") {
        let pci = super::pci_device_dir(gpu.device_id.key());
        let pv = chars_of(pci.as_str());
        join_str(pv.as_slice(), "tile0/gt0/freq0")
    } else {
        let root = chars_of("/sys/class/drm");
        join_str(root.as_slice(), gpu.card.as_str())
    }
}

/// A missing or empty reading is `none`; anything else passes through.
pub fn read_throttle_reason(raw: Option<String>) -> (r: String)
    ensures
        r@ == (match opt_view(raw) {
            Some(t) => if t.len() > 0 {
                t
            } else {
                "none"@
            },
            None => "none"@,
        }),
{
    match raw {
        Some(text) => {
            if text.as_str().is_empty() {
                "none".to_string()
            } else {
                text
            }
        },
        None => "none".to_string(),
    }
}

/// One sample of an Intel GPU as the driver reports it.
#[derive(Clone, Debug, PartialEq, Eq)]
pub struct IntelReadings {
    /// The GT attribute directory could be listed.
    pub available: bool,
    pub name: String,
    pub graphics_clock_mhz: Option<u64>,
    /// Throttle reasons, `none` when not throttled; empty when unavailable.
    pub limit_reason: String,
    pub temperature_millic: Option<i64>,
    /// The PL1 package power limit, only when positive.
    pub power_limit_uw: Option<i64>,
}

/// The i915 throttle flags and the reason each one stands for.
pub open spec fn throttle_attrs() -> Seq<(Seq<char>, Seq<char>)> {
    seq![
        ("throttle_reason_pl1"@, "power"@),
        ("throttle_reason_pl2"@, "power"@),
        ("throttle_reason_pl4"@, "power"@),
        ("throttle_reason_thermal"@, "thermal"@),
        ("throttle_reason_prochot"@, "prochot"@),
        ("throttle_reason_ratl"@, "ratl"@),
        ("throttle_reason_vr_thermalert"@, "vr-thermalert"@),
        ("throttle_reason_vr_tdc"@, "vr-tdc"@),
    ]
}

/// The reasons whose flag file under `base` reads exactly 1, in order.
pub open spec fn raised_reasons<S: Sys>(sys: &S, base: Seq<char>, attrs: Seq<(Seq<char>, Seq<char>)>) -> Seq<
    Seq<char>,
>
    decreases attrs.len(),
{
    if attrs.len() == 0 {
        seq![]
    } else {
        let rest = raised_reasons(sys, base, attrs.drop_last());
        if read_u64_spec(sys, path_join(base, attrs.last().0)) == Some(1u64) {
            rest.push(attrs.last().1)
        } else {
            rest
        }
    }
}

/// The i915 clock, and the directory that holds the throttle flags: the card,
/// or its `gt/gt0` when only that reports the clock.
pub open spec fn i915_clock<S: Sys>(sys: &S, card: Seq<char>) -> (Option<u64>, Seq<char>) {
    let a = read_u64_spec(sys, path_join(card, "rps_cur_freq_mhz"@));
    let b = read_u64_spec(sys, path_join(card, "gt/gt0/rps_cur_freq_mhz"@));
    if a is Some {
        (a, card)
    } else if b is Some {
        (b, path_join(card, "gt/gt0"@))
    } else {
        (None, card)
    }
}

pub open spec fn reason_text(labels: Seq<Seq<char>>) -> Seq<char> {
    if labels.len() == 0 {
        "none"@
    } else {
        join_with(labels, "+"@)
    }
}

fn i915_sample<S: Sys>(sys: &S, card: &str) -> (r: (Option<u64>, String))
    ensures
        ({
            let (clock, base) = i915_clock(sys, card@);
            r.0 == clock && r.1@ == reason_text(raised_reasons(sys, base, throttle_attrs()))
        }),
{
    let cv = chars_of(card);
    let direct = join_str(cv.as_slice(), "rps_cur_freq_mhz");
    let nested = join_str(cv.as_slice(), "gt/gt0/rps_cur_freq_mhz");
    let (clock, base) = match read_u64(sys, direct.as_str()) {
        Some(v) => (Some(v), card.to_string()),
        None => match read_u64(sys, nested.as_str()) {
            Some(v) => (Some(v), join_str(cv.as_slice(), "gt/gt0")),
            None => (None, card.to_string()),
        },
    };
    let attrs: Vec<(&str, &str)> = vec![
        ("throttle_reason_pl1", "power"),
        ("throttle_reason_pl2", "power"),
        ("throttle_reason_pl4", "power"),
        ("throttle_reason_thermal", "thermal"),
        ("throttle_reason_prochot", "prochot"),
        ("throttle_reason_ratl", "ratl"),
        ("throttle_reason_vr_thermalert", "vr-thermalert"),
        ("throttle_reason_vr_tdc", "vr-tdc"),
    ];
    let ghost av = attrs@.map_values(|p: (&str, &str)| (p.0@, p.1@));
    assert(av =~= throttle_attrs());
    let bv = chars_of(base.as_str());
    let mut labels: Vec<Vec<char>> = Vec::new();
    assert(av.take(0) =~= seq![]);
    for i in 0..attrs.len()
        invariant
            av == attrs@.map_values(|p: (&str, &str)| (p.0@, p.1@)),
            bv@ == base@,
            labels@.map_values(|t: Vec<char>| t@) == raised_reasons(sys, base@, av.take(i as int)),
    {
        assert(av.take(i + 1).drop_last() =~= av.take(i as int));
        assert(av.take(i + 1).last() == av[i as int]);
        let path = join_str(bv.as_slice(), attrs[i].0);
        if read_u64(sys, path.as_str()) == Some(1u64) {
            let ghost before = labels@.map_values(|t: Vec<char>| t@);
            labels.push(chars_of(attrs[i].1));
            assert(labels@.map_values(|t: Vec<char>| t@) =~= before.push(av[i as int].1));
        }
    }
    assert(av.take(8) =~= av);
    let reason = if labels.len() == 0 {
        "none".to_string()
    } else {
        let j = join_tokens(&labels, "+");
        string_of(j.as_slice())
    };
    (clock, reason)
}

/// Sample an Intel GPU whose hwmon is `hwmon` (see [`find_hwmon_for_bdf`]).
/// When the GT attribute directory cannot be listed the device is
/// unavailable: only its display name is reported.
pub fn read_intel<S: Sys>(sys: &S, gpu: &DiscoveredGpu, hwmon: Option<&str>) -> (r: IntelReadings)
    ensures
        ({
            let g = gpu@;
            let gt = gt_dir_spec(g);
            let h = match hwmon {
                Some(h) => Some(h@),
                None => None,
            };
            &&& r.available == (sys.spec_dir(gt) is Some)
            &&& r.name@ == (match known_name(gpu.pci_device_id) {
                Some(n) => n,
                None => gpu.card@,
            })
            &&& r.available ==> {
                &&& g.driver == "xe"@ ==> r.graphics_clock_mhz == read_u64_spec(
                    sys,
                    path_join(gt, "cur_freq"@),
                ) && r.limit_reason@ == (match read_text_spec(sys, path_join(gt, "throttle/reasons"@)) {
                    Some(t) => t,
                    None => "none"@,
                })
                &&& g.driver != "xe"@ ==> ({
                    let (clock, base) = i915_clock(sys, gt);
                    r.graphics_clock_mhz == clock && r.limit_reason@ == reason_text(
                        raised_reasons(sys, base, throttle_attrs()),
                    )
                })
                &&& r.temperature_millic == hwmon_i64(sys, h, "temp1_input"@)
                &&& r.power_limit_uw == (match hwmon_i64(sys, h, "power1_max"@) {
                    Some(v) => if v > 0 {
                        Some(v)
                    } else {
                        None
                    },
                    None => None,
                })
            }
            &&& !r.available ==> r.graphics_clock_mhz is None && r.limit_reason@ == Seq::<char>::empty()
                && r.temperature_millic is None && r.power_limit_uw is None
        }),
{
    let gt = gt_sysfs_dir(gpu);
    let name = display_name(gpu);
    if sys.read_dir(gt.as_str()).is_none() {
        return IntelReadings {
            available: false,
            name,
            graphics_clock_mhz: None,
            limit_reason: String::new(),
            temperature_millic: None,
            power_limit_uw: None,
        };
    }
    let gv = chars_of(gt.as_str());
    let (clock, reason) = if str_eq(gpu.driver.as_str(), "xe") {
        let freq = join_str(gv.as_slice(), "cur_freq");
        let reasons = join_str(gv.as_slice(), "throttle/reasons");
        let raw = read_text(sys, reasons.as_str());
        proof {
            reveal_strlit("none");
        }
        (read_u64(sys, freq.as_str()), read_throttle_reason(raw))
    } else {
        i915_sample(sys, gt.as_str())
    };
    let temperature = super::amd::hwmon_reading(sys, hwmon, "temp1_input");
    let limit = match super::amd::hwmon_reading(sys, hwmon, "power1_max") {
        Some(v) => if v > 0 {
            Some(v)
        } else {
            None
        },
        None => None,
    };
    IntelReadings {
        available: true,
        name,
        graphics_clock_mhz: clock,
        limit_reason: reason,
        temperature_millic: temperature,
        power_limit_uw: limit,
    }
}

} // verus!
