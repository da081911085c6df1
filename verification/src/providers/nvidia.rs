//! NVIDIA (NVML) telemetry: MIG child identities, performance-state names
//! and the refresh cadence of slowly changing device properties.

use vstd::prelude::*;

use crate::domain::{is_mig_uuid, is_mig_uuid_spec, mig_instance_of, opt_view, DeviceId};
use crate::text::{append_str, chars_of, dec_repr, push_dec, str_eq, string_of};

verus! {

/// One MIG child of a physical device.
pub struct MigChild {
    /// NVML index of the physical parent.
    pub parent_index: u32,
    /// MIG device slot within the parent.
    pub slot: u32,
    /// Stable key: the MIG UUID the driver reports for the child handle, or
    /// the synthetic `<parent>#mig-<slot>` fallback.
    pub key: String,
}

impl MigChild {
    /// `(gpu_instance_id, compute_instance_id)` when the key is a real MIG
    /// UUID; `None` for synthetic fallback keys, which carry no instance ids.
    pub fn instance(&self) -> (r: Option<(u32, u32)>)
        ensures
            r == mig_instance_of(self.key@),
    {
        DeviceId::new(None, Some(self.key.clone())).mig_instance()
    }
}

/// The key of a MIG child: the driver's MIG UUID when it is one, else
/// `<parent uuid or bdf or "nvidia">#mig-<slot>`.
pub open spec fn mig_child_key_spec(mig_uuid: Option<Seq<char>>, parent: (Option<Seq<char>>, Option<Seq<char>>), slot: u32) -> Seq<char> {
    match mig_uuid {
        Some(u) if u.len() > 0 && is_mig_uuid_spec(u) => u,
        _ => {
            let parent_key = match parent.1 {
                Some(u) => u,
                None => match parent.0 {
                    Some(b) => b,
                    None => "nvidia"@,
                },
            };
            parent_key + "#mig-"@ + dec_repr(slot as nat)
        },
    }
}

pub fn mig_child_key(mig_uuid: Option<&str>, parent: &DeviceId, slot: u32) -> (r: String)
    ensures
        r@ == mig_child_key_spec(
            match mig_uuid {
                Some(u) => Some(u@),
                None => None::<Seq<char>>,
            },
            parent@,
            slot,
        ),
{
    if let Some(uuid) = mig_uuid {
        if !uuid.is_empty() && is_mig_uuid(uuid) {
            return uuid.to_string();
        }
    }
    let mut out = match &parent.uuid {
        Some(u) => chars_of(u.as_str()),
        None => match &parent.pci_bdf {
            Some(b) => chars_of(b.as_str()),
            None => chars_of("nvidia"),
        },
    };
    append_str(&mut out, "#mig-");
    push_dec(&mut out, slot as u64);
    string_of(out.as_slice())
}

/// NVML performance-state names (`Zero` … `Fifteen`) as numbers.
pub open spec fn pstate_number(raw: Seq<char>) -> Option<nat> {
    if raw == "Zero"@ {
        Some(0)
    } else if raw == "One"@ {
        Some(1)
    } else if raw == "Two"@ {
        Some(2)
    } else if raw == "Three"@ {
        Some(3)
    } else if raw == "Four"@ {
        Some(4)
    } else if raw == "Five"@ {
        Some(5)
    } else if raw == "Six"@ {
        Some(6)
    } else if raw == "Seven"@ {
        Some(7)
    } else if raw == "Eight"@ {
        Some(8)
    } else if raw == "Nine"@ {
        Some(9)
    } else if raw == "Ten"@ {
        Some(10)
    } else if raw == "Eleven"@ {
        Some(11)
    } else if raw == "Twelve"@ {
        Some(12)
    } else if raw == "Thirteen"@ {
        Some(13)
    } else if raw == "Fourteen"@ {
        Some(14)
    } else if raw == "Fifteen"@ {
        Some(15)
    } else {
        None
    }
}

/// `P<n>` for a named performance state; anything else unchanged.
pub fn normalize_pstate(raw: &str) -> (r: String)
    ensures
        r@ == (match pstate_number(raw@) {
            Some(n) => "P"@ + dec_repr(n),
            None => raw@,
        }),
{
    let number: Option<u64> = if str_eq(raw, "Zero") {
        Some(0)
    } else if str_eq(raw, "One") {
        Some(1)
    } else if str_eq(raw, "Two") {
        Some(2)
    } else if str_eq(raw, "Three") {
        Some(3)
    } else if str_eq(raw, "Four") {
        Some(4)
    } else if str_eq(raw, "Five") {
        Some(5)
    } else if str_eq(raw, "Six") {
        Some(6)
    } else if str_eq(raw, "Seven") {
        Some(7)
    } else if str_eq(raw, "Eight") {
        Some(8)
    } else if str_eq(raw, "Nine") {
        Some(9)
    } else if str_eq(raw, "Ten") {
        Some(10)
    } else if str_eq(raw, "Eleven") {
        Some(11)
    } else if str_eq(raw, "Twelve") {
        Some(12)
    } else if str_eq(raw, "Thirteen") {
        Some(13)
    } else if str_eq(raw, "Fourteen") {
        Some(14)
    } else if str_eq(raw, "Fifteen") {
        Some(15)
    } else {
        None
    };
    match number {
        Some(n) => {
            let mut out = chars_of("P");
            push_dec(&mut out, n);
            string_of(out.as_slice())
        },
        None => raw.to_string(),
    }
}

/// How often slowly changing properties are re-read, in milliseconds.
pub const REFRESH_INTERVAL_MS: u64 = 1000;

/// Whether the slow properties are due: never fetched, or fetched at least
/// the refresh interval ago (a clock that went backwards counts as no time).
pub fn due_to_refresh(fetched_at_ms: Option<u64>, now_ms: u64) -> (r: bool)
    ensures
        r == (match fetched_at_ms {
            None => true,
            Some(f) => (if now_ms >= f {
                now_ms - f
            } else {
                0
            }) >= REFRESH_INTERVAL_MS,
        }),
{
    match fetched_at_ms {
        None => true,
        Some(fetched) => now_ms.saturating_sub(fetched) >= REFRESH_INTERVAL_MS,
    }
}


// ---------------------------------------------------------------------------
// Clock throttle reasons
// ---------------------------------------------------------------------------

/// Which NVML clock-throttle reasons are active, as read from the driver.
#[derive(Clone, Copy, Debug, Default, PartialEq, Eq)]
pub struct ThrottleFlags {
    /// Some reason bit is set (known to this list or not).
    pub any: bool,
    pub sw_power_cap: bool,
    pub sw_thermal_slowdown: bool,
    pub hw_thermal_slowdown: bool,
    pub hw_power_brake_slowdown: bool,
    pub hw_slowdown: bool,
    pub sync_boost: bool,
    pub applications_clocks_setting: bool,
    pub display_clock_setting: bool,
    pub gpu_idle: bool,
}

pub open spec fn label_if(on: bool, label: Seq<char>) -> Seq<Seq<char>> {
    if on {
        seq![label]
    } else {
        seq![]
    }
}

/// Labels of the active reasons, in a fixed order; thermal covers both the
/// software and the hardware thermal slowdown.
pub open spec fn throttle_labels(r: ThrottleFlags) -> Seq<Seq<char>> {
    label_if(r.sw_power_cap, "power"@) + label_if(
        r.sw_thermal_slowdown || r.hw_thermal_slowdown,
        "thermal"@,
    ) + label_if(r.hw_power_brake_slowdown, "power-brake"@) + label_if(r.hw_slowdown, "hw"@)
        + label_if(r.sync_boost, "sync"@) + label_if(r.applications_clocks_setting, "app-clock"@)
        + label_if(r.display_clock_setting, "display"@) + label_if(r.gpu_idle, "idle"@)
}

/// `none` without any reason, the labels joined by `+`, or `other` when
/// only unlisted reasons are set.
pub open spec fn throttle_text(r: ThrottleFlags) -> Seq<char> {
    if !r.any {
        "none"@
    } else if throttle_labels(r).len() == 0 {
        "other"@
    } else {
        crate::text::join_with(throttle_labels(r), "+"@)
    }
}

fn push_label(labels: &mut Vec<Vec<char>>, on: bool, label: &str)
    ensures
        crate::text::vecs_view(final(labels)@) == crate::text::vecs_view(old(labels)@) + label_if(on, label@),
{
    let ghost before = crate::text::vecs_view(labels@);
    if on {
        labels.push(chars_of(label));
    }
    assert(crate::text::vecs_view(labels@) =~= before + label_if(on, label@));
}

/// Human-readable active throttle reasons (see [`throttle_text`]).
pub fn format_throttle_reasons(reasons: &ThrottleFlags) -> (r: String)
    ensures
        r@ == throttle_text(*reasons),
{
    if !reasons.any {
        return "none".to_string();
    }
    let mut labels: Vec<Vec<char>> = Vec::new();
    assert(crate::text::vecs_view(labels@) =~= seq![]);
    push_label(&mut labels, reasons.sw_power_cap, "power");
    assert(crate::text::vecs_view(labels@) =~= label_if(reasons.sw_power_cap, "power"@));
    push_label(&mut labels, reasons.sw_thermal_slowdown || reasons.hw_thermal_slowdown, "thermal");
    push_label(&mut labels, reasons.hw_power_brake_slowdown, "power-brake");
    push_label(&mut labels, reasons.hw_slowdown, "hw");
    push_label(&mut labels, reasons.sync_boost, "sync");
    push_label(&mut labels, reasons.applications_clocks_setting, "app-clock");
    push_label(&mut labels, reasons.display_clock_setting, "display");
    push_label(&mut labels, reasons.gpu_idle, "idle");
    if labels.len() == 0 {
        return "other".to_string();
    }
    let joined = crate::text::join_tokens(&labels, "+");
    assert(crate::text::vecs_view(labels@) =~= labels@.map_values(|t: Vec<char>| t@));
    string_of(joined.as_slice())
}

} // verus!
