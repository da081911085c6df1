//! AMD GPU/APU telemetry (amdgpu sysfs + hwmon): locating the device's
//! hwmon and reading what the driver reports, in the driver's own units.
//!
//! The PCI device directory (`/sys/bus/pci/devices/<BDF>/`) holds
//! `gpu_busy_percent`, `mem_busy_percent`, `mem_info_vram_total`/`_used`
//! (bytes) and `product_name`; the amdgpu hwmon holds `temp1_input`
//! (millidegrees), `power1_input` (microwatts), `freq1_input`/`freq2_input`
//! (Hz) and `fan1_input`/`fan1_max` (RPM). A missing attribute stays `None`.

use vstd::prelude::*;

pub use super::{find_hwmon_for_bdf, path_component_is_bdf, pci_device_dir};

use super::{read_i64, read_i64_spec, read_text, read_text_spec, read_u64, read_u64_spec};
use crate::discovery::DiscoveredGpu;
use crate::paths::{join_str, path_join};
use crate::system::Sys;
use crate::text::chars_of;

verus! {

/// One sample of an AMD GPU as the driver reports it.
#[derive(Clone, Debug, PartialEq, Eq)]
pub struct AmdReadings {
    /// The PCI device directory could be listed.
    pub available: bool,
    /// `product_name`, else the card name.
    pub name: String,
    pub busy_percent: Option<u64>,
    pub memory_busy_percent: Option<u64>,
    pub vram_total_bytes: Option<u64>,
    pub vram_used_bytes: Option<u64>,
    pub temperature_millic: Option<i64>,
    pub power_uw: Option<i64>,
    pub graphics_clock_hz: Option<i64>,
    pub memory_clock_hz: Option<i64>,
    /// Fan speed and its maximum (RPM), when both are reported and the
    /// maximum is positive.
    pub fan_rpm: Option<(i64, i64)>,
}

/// The PCI device directory of a device keyed `key`.
pub open spec fn amd_pci_dir(key: Seq<char>) -> Seq<char> {
    path_join("/sys/bus/pci/devices"@, key)
}

pub open spec fn hwmon_dir(name: Seq<char>) -> Seq<char> {
    path_join("/sys/class/hwmon"@, name)
}

/// A hwmon value under `hwmon`, `None` without a hwmon.
pub open spec fn hwmon_i64<S: Sys>(sys: &S, hwmon: Option<Seq<char>>, file: Seq<char>) -> Option<i64> {
    match hwmon {
        Some(h) => read_i64_spec(sys, path_join(hwmon_dir(h), file)),
        None => None,
    }
}

pub open spec fn fan_spec(rpm: Option<i64>, max: Option<i64>) -> Option<(i64, i64)> {
    match (rpm, max) {
        (Some(r), Some(m)) => if m > 0 {
            Some((r, m))
        } else {
            None
        },
        _ => None,
    }
}

pub(crate) fn hwmon_reading<S: Sys>(sys: &S, hwmon: Option<&str>, file: &str) -> (r: Option<i64>)
    ensures
        r == hwmon_i64(sys, match hwmon {
            Some(h) => Some(h@),
            None => None,
        }, file@),
{
    match hwmon {
        Some(h) => {
            let root = chars_of("/sys/class/hwmon");
            let dir = join_str(root.as_slice(), h);
            let dv = chars_of(dir.as_str());
            let path = join_str(dv.as_slice(), file);
            read_i64(sys, path.as_str())
        },
        None => None,
    }
}

fn pci_u64<S: Sys>(sys: &S, pci: &[char], file: &str) -> (r: Option<u64>)
    ensures
        r == read_u64_spec(sys, path_join(pci@, file@)),
{
    let path = join_str(pci, file);
    read_u64(sys, path.as_str())
}

/// Sample an AMD GPU whose amdgpu hwmon is `hwmon` (see
/// [`find_hwmon_for_bdf`]). When the PCI device directory cannot be listed
/// the device is unavailable: only the card name is reported.
pub fn read_amd<S: Sys>(sys: &S, gpu: &DiscoveredGpu, hwmon: Option<&str>) -> (r: AmdReadings)
    ensures
        ({
            let pci = amd_pci_dir(gpu.device_id.key_spec());
            let h = match hwmon {
                Some(h) => Some(h@),
                None => None,
            };
            &&& r.available == (sys.spec_dir(pci) is Some)
            &&& r.available ==> {
                &&& r.name@ == (match read_text_spec(sys, path_join(pci, "product_name"@)) {
                    Some(t) => t,
                    None => gpu.card@,
                })
                &&& r.busy_percent == read_u64_spec(sys, path_join(pci, "gpu_busy_percent"@))
                &&& r.memory_busy_percent == read_u64_spec(
                    sys,
                    path_join(pci, "mem_busy_percent"@),
                )
                &&& r.vram_total_bytes == read_u64_spec(
                    sys,
                    path_join(pci, "mem_info_vram_total"@),
                )
                &&& r.vram_used_bytes == read_u64_spec(sys, path_join(pci, "mem_info_vram_used"@))
                &&& r.temperature_millic == hwmon_i64(sys, h, "temp1_input"@)
                &&& r.power_uw == hwmon_i64(sys, h, "power1_input"@)
                &&& r.graphics_clock_hz == hwmon_i64(sys, h, "freq1_input"@)
                &&& r.memory_clock_hz == hwmon_i64(sys, h, "freq2_input"@)
                &&& r.fan_rpm == fan_spec(
                    hwmon_i64(sys, h, "fan1_input"@),
                    hwmon_i64(sys, h, "fan1_max"@),
                )
            }
            &&& !r.available ==> r == AmdReadings {
                available: false,
                name: gpu.card,
                busy_percent: None,
                memory_busy_percent: None,
                vram_total_bytes: None,
                vram_used_bytes: None,
                temperature_millic: None,
                power_uw: None,
                graphics_clock_hz: None,
                memory_clock_hz: None,
                fan_rpm: None,
            }
        }),
{
    let pci = pci_device_dir(gpu.device_id.key());
    if sys.read_dir(pci.as_str()).is_none() {
        return AmdReadings {
            available: false,
            name: gpu.card.clone(),
            busy_percent: None,
            memory_busy_percent: None,
            vram_total_bytes: None,
            vram_used_bytes: None,
            temperature_millic: None,
            power_uw: None,
            graphics_clock_hz: None,
            memory_clock_hz: None,
            fan_rpm: None,
        };
    }
    let pv = chars_of(pci.as_str());
    let name_path = join_str(pv.as_slice(), "product_name");
    let name = match read_text(sys, name_path.as_str()) {
        Some(t) => t,
        None => gpu.card.clone(),
    };
    let fan = match (hwmon_reading(sys, hwmon, "fan1_input"), hwmon_reading(sys, hwmon, "fan1_max")) {
        (Some(rpm), Some(max)) => if max > 0 {
            Some((rpm, max))
        } else {
            None
        },
        _ => None,
    };
    AmdReadings {
        available: true,
        name,
        busy_percent: pci_u64(sys, pv.as_slice(), "gpu_busy_percent"),
        memory_busy_percent: pci_u64(sys, pv.as_slice(), "mem_busy_percent"),
        vram_total_bytes: pci_u64(sys, pv.as_slice(), "mem_info_vram_total"),
        vram_used_bytes: pci_u64(sys, pv.as_slice(), "mem_info_vram_used"),
        temperature_millic: hwmon_reading(sys, hwmon, "temp1_input"),
        power_uw: hwmon_reading(sys, hwmon, "power1_input"),
        graphics_clock_hz: hwmon_reading(sys, hwmon, "freq1_input"),
        memory_clock_hz: hwmon_reading(sys, hwmon, "freq2_input"),
        fan_rpm: fan,
    }
}

} // verus!
