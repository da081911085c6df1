//! Capability-based CPU sensor telemetry: frequency, temperature, power.
//!
//! Sensor *discovery* (which files exist) is done once and cached; each sample
//! only re-reads the dynamic counter values. A sensor that is absent or
//! unreadable yields `None` (an honest "unavailable"), never a fake zero.
//!
//! Sources, preferred first:
//! - Frequency: cpufreq policy `scaling_cur_freq` (kHz, per policy), weighted
//!   by each policy's CPU count.
//! - Temperature: hwmon `temp*_input` (millidegrees) from CPU thermal drivers
//!   (`coretemp`, `k10temp`, `zenpower`, `x86_pkg`, ...), preferring
//!   package/Tctl sensors over per-core readings.
//! - Power: the RAPL `intel-rapl` package zone, from two `energy_uj` reads a
//!   short bounded window apart; a counter that reads lower (kernel reset)
//!   clamps to 0 W.
//!
//! Everything here is integer arithmetic on what the [`Sys`] holds; turning
//! kHz, millidegrees and microjoules into floating-point units is left to the
//! caller.

use vstd::prelude::*;

use crate::cpu::{list_file_spec, read_cpu_list_file, read_u64, u64_file_spec};
use crate::paths::{join_str, path_join};
use crate::system::{entries_view, EntryModel, Sys, SysEntry};
use crate::text::{
    append_chars, append_str, chars_of, contains, contains_str, ends_with, ends_with_str,
    slice_vec, starts_with, starts_with_str, string_of, to_lower, to_lower_vec, trim, trim_str,
};

verus! {

/// Upper bound for the RAPL two-read measurement window (µs). Well below any
/// realistic `energy_uj` wrap window; also the cap for the legacy `udelay`
/// derived window.
pub const RAPL_SAMPLE_US: u64 = 50_000;

/// One cpufreq policy discovered at init.
pub struct FreqPolicy {
    pub dir: String,
    /// CPUs this policy covers: weights the policy's frequency by its share
    /// of the logical CPU count.
    pub cpus: Vec<usize>,
}

/// Directory and covered CPUs.
pub type PolicyModel = (Seq<char>, Seq<usize>);

impl View for FreqPolicy {
    type V = PolicyModel;

    open spec fn view(&self) -> PolicyModel {
        (self.dir@, self.cpus@)
    }
}

/// One hwmon temperature input discovered at init.
pub struct TempSensor {
    pub path: String,
    /// Package/Tctl-style sensor (preferred over per-core readings).
    pub preferred: bool,
}

/// Input path and whether it is a package-level sensor.
pub type TempModel = (Seq<char>, bool);

impl View for TempSensor {
    type V = TempModel;

    open spec fn view(&self) -> TempModel {
        (self.path@, self.preferred)
    }
}

/// One RAPL power zone discovered at init.
pub struct PowerZone {
    pub dir: String,
    /// Bounded measurement window (µs).
    pub window_us: u64,
}

/// Zone directory and measurement window.
pub type ZoneModel = (Seq<char>, u64);

impl View for PowerZone {
    type V = ZoneModel;

    open spec fn view(&self) -> ZoneModel {
        (self.dir@, self.window_us)
    }
}

/// Discovered CPU sensor layout, built once by [`CpuSensors::discover`].
pub struct SensorLayout {
    pub freq_policies: Vec<FreqPolicy>,
    pub temp_sensors: Vec<TempSensor>,
    pub power_zones: Vec<PowerZone>,
}

pub type LayoutModel = (Seq<PolicyModel>, Seq<TempModel>, Seq<ZoneModel>);

pub open spec fn policies_view(v: Seq<FreqPolicy>) -> Seq<PolicyModel> {
    v.map_values(|p: FreqPolicy| p@)
}

pub open spec fn sensors_view(v: Seq<TempSensor>) -> Seq<TempModel> {
    v.map_values(|t: TempSensor| t@)
}

pub open spec fn zones_view(v: Seq<PowerZone>) -> Seq<ZoneModel> {
    v.map_values(|z: PowerZone| z@)
}

impl View for SensorLayout {
    type V = LayoutModel;

    open spec fn view(&self) -> LayoutModel {
        (
            policies_view(self.freq_policies@),
            sensors_view(self.temp_sensors@),
            zones_view(self.power_zones@),
        )
    }
}

/// Cached CPU sensor state: `discover` runs the directory walks once, the
/// samplers re-read only the dynamic counter values.
pub struct CpuSensors {
    layout: Option<SensorLayout>,
}

impl View for CpuSensors {
    type V = Option<LayoutModel>;

    closed spec fn view(&self) -> Option<LayoutModel> {
        match self.layout {
            Some(l) => Some(l@),
            None => None,
        }
    }
}

impl Default for CpuSensors {
    fn default() -> (r: Self)
        ensures
            r@ is None,
    {
        CpuSensors { layout: None }
    }
}

// ---------------------------------------------------------------------------
// What discovery finds
// ---------------------------------------------------------------------------

/// An entry we can walk into: a real directory or a symlink (class entries
/// such as `/sys/class/hwmon/*` are symlinks to device directories).
pub open spec fn is_dir_entry(e: EntryModel) -> bool {
    e.1 || e.2
}

/// The whitespace-trimmed text of `path`, empty when unreadable.
pub open spec fn read_trimmed_spec<S: Sys>(sys: &S, path: Seq<char>) -> Seq<char> {
    match sys.spec_file(path) {
        Some(t) => trim(t),
        None => seq![],
    }
}

pub open spec fn cpufreq_root() -> Seq<char> {
    "/sys/devices/system/cpu/cpufreq"@
}

pub open spec fn policy_dir(name: Seq<char>) -> Seq<char> {
    cpufreq_root() + "/"@ + name
}

pub open spec fn is_policy_entry(e: EntryModel) -> bool {
    is_dir_entry(e) && starts_with(e.0, "policy"@)
}

/// `affected_cpus` of the policy, or a single CPU 0 when unreadable.
pub open spec fn policy_cpus<S: Sys>(sys: &S, dir: Seq<char>) -> Seq<usize> {
    match list_file_spec(sys, path_join(dir, "affected_cpus"@)) {
        Some(v) => v,
        None => seq![0usize],
    }
}

/// Policies among the listed entries, in listing order.
pub open spec fn policies_from<S: Sys>(sys: &S, es: Seq<EntryModel>) -> Seq<PolicyModel>
    decreases es.len(),
{
    if es.len() == 0 {
        seq![]
    } else {
        let rest = policies_from(sys, es.drop_last());
        let e = es.last();
        if is_policy_entry(e) {
            rest.push((policy_dir(e.0), policy_cpus(sys, policy_dir(e.0))))
        } else {
            rest
        }
    }
}

pub open spec fn freq_policies_spec<S: Sys>(sys: &S) -> Seq<PolicyModel> {
    match sys.spec_dir(cpufreq_root()) {
        Some(es) => policies_from(sys, es),
        None => seq![],
    }
}


/// `/sys/devices/system/cpu/cpufreq/<name>`.
fn policy_dir_exec(name: &str) -> (r: String)
    ensures
        r@ == policy_dir(name@),
{
    let mut v = chars_of("/sys/devices/system/cpu/cpufreq");
    append_str(&mut v, "/");
    append_str(&mut v, name);
    string_of(v.as_slice())
}

fn is_dir_entry_exec(e: &SysEntry) -> (r: bool)
    ensures
        r == is_dir_entry(e@),
{
    e.is_dir || e.is_symlink
}

fn discover_freq_policies<S: Sys>(sys: &S) -> (r: Vec<FreqPolicy>)
    ensures
        policies_view(r@) == freq_policies_spec(sys),
{
    let entries = match sys.read_dir("/sys/devices/system/cpu/cpufreq") {
        Some(es) => es,
        None => {
            let out: Vec<FreqPolicy> = Vec::new();
            assert(policies_view(out@) =~= seq![]);
            return out;
        },
    };
    let ghost ev = entries_view(entries@);
    let mut out: Vec<FreqPolicy> = Vec::new();
    let mut i: usize = 0;
    assert(ev.take(0) =~= seq![]);
    assert(policies_view(out@) =~= seq![]);
    while i < entries.len()
        invariant
            i <= entries@.len(),
            ev == entries_view(entries@),
            sys.spec_dir(cpufreq_root()) == Some(ev),
            policies_view(out@) == policies_from(sys, ev.take(i as int)),
        decreases entries@.len() - i,
    {
        assert(ev.take(i + 1).drop_last() =~= ev.take(i as int));
        assert(ev.take(i + 1).last() == entries@[i as int]@);
        let name = chars_of(entries[i].name.as_str());
        if is_dir_entry_exec(&entries[i]) && starts_with_str(name.as_slice(), "policy") {
            let dir = policy_dir_exec(entries[i].name.as_str());
            let dv = chars_of(dir.as_str());
            let cpus_path = join_str(dv.as_slice(), "affected_cpus");
            let cpus = match read_cpu_list_file(sys, cpus_path.as_str()) {
                Some(v) => v,
                None => {
                    let mut v: Vec<usize> = Vec::new();
                    v.push(0);
                    v
                },
            };
            let ghost before = policies_view(out@);
            out.push(FreqPolicy { dir, cpus });
            assert(policies_view(out@) =~= before.push(out@[out@.len() - 1]@));
        }
        i = i + 1;
    }
    assert(ev.take(i as int) =~= ev);
    out
}


pub open spec fn hwmon_class_root() -> Seq<char> {
    "/sys/class/hwmon"@
}

/// `/sys/class/hwmon/<hwmon>`.
pub open spec fn hwmon_dir(hwmon: Seq<char>) -> Seq<char> {
    hwmon_class_root() + "/"@ + hwmon
}

/// `/sys/class/hwmon/<hwmon>/<file>`.
pub open spec fn hwmon_file(hwmon: Seq<char>, file: Seq<char>) -> Seq<char> {
    hwmon_dir(hwmon) + "/"@ + file
}

/// A `hwmonN` class entry (the bare name `hwmon` is not one).
pub open spec fn is_hwmon_entry(e: EntryModel) -> bool {
    is_dir_entry(e) && starts_with(e.0, "hwmon"@) && e.0 != "hwmon"@
}

/// True for hwmon drivers that report CPU (not GPU/disk/USB) temperatures.
pub open spec fn is_cpu_thermal_driver(name: Seq<char>) -> bool {
    contains(name, "coretemp"@) || contains(name, "k10temp"@) || contains(name, "zenpower"@)
        || contains(name, "x86_pkg"@) || name == "cpu"@ || (contains(name, "cpu"@) && !contains(
        name,
        "gpu"@,
    ))
}

/// Package-level sensor labels are preferred over per-core readings.
pub open spec fn is_package_label(label: Seq<char>) -> bool {
    let l = to_lower(label);
    contains(l, "package"@) || contains(l, "tctl"@) || contains(l, "cpu"@)
}

/// `str::trim_end_matches`: every trailing repetition of `p` removed.
pub open spec fn trim_suffix_all(s: Seq<char>, p: Seq<char>) -> Seq<char>
    decreases s.len(),
{
    if p.len() > 0 && ends_with(s, p) {
        trim_suffix_all(s.take(s.len() - p.len()), p)
    } else {
        s
    }
}

pub open spec fn is_temp_input(name: Seq<char>) -> bool {
    starts_with(name, "temp"@) && ends_with(name, "_input"@)
}

/// The sensor an entry of `hwmon`'s directory names, with its preference
/// read from the matching `_label` file.
pub open spec fn temp_sensor_of<S: Sys>(sys: &S, hwmon: Seq<char>, name: Seq<char>) -> TempModel {
    let stem = trim_suffix_all(name, "_input"@);
    (
        hwmon_file(hwmon, name),
        is_package_label(read_trimmed_spec(sys, hwmon_file(hwmon, stem + "_label"@))),
    )
}

/// Temperature inputs among the entries of `hwmon`'s directory.
pub open spec fn sensors_in<S: Sys>(sys: &S, hwmon: Seq<char>, es: Seq<EntryModel>) -> Seq<
    TempModel,
>
    decreases es.len(),
{
    if es.len() == 0 {
        seq![]
    } else {
        let rest = sensors_in(sys, hwmon, es.drop_last());
        if is_temp_input(es.last().0) {
            rest.push(temp_sensor_of(sys, hwmon, es.last().0))
        } else {
            rest
        }
    }
}

/// The driver name of `hwmon`, lower-cased.
pub open spec fn hwmon_driver<S: Sys>(sys: &S, hwmon: Seq<char>) -> Seq<char> {
    to_lower(read_trimmed_spec(sys, hwmon_file(hwmon, "name"@)))
}

/// Sensors contributed by one class entry.
pub open spec fn hwmon_sensors<S: Sys>(sys: &S, e: EntryModel) -> Seq<TempModel> {
    if is_hwmon_entry(e) && is_cpu_thermal_driver(hwmon_driver(sys, e.0)) {
        match sys.spec_dir(hwmon_dir(e.0)) {
            Some(es) => sensors_in(sys, e.0, es),
            None => seq![],
        }
    } else {
        seq![]
    }
}

pub open spec fn sensors_from<S: Sys>(sys: &S, hws: Seq<EntryModel>) -> Seq<TempModel>
    decreases hws.len(),
{
    if hws.len() == 0 {
        seq![]
    } else {
        sensors_from(sys, hws.drop_last()) + hwmon_sensors(sys, hws.last())
    }
}

pub open spec fn temp_sensors_spec<S: Sys>(sys: &S) -> Seq<TempModel> {
    match sys.spec_dir(hwmon_class_root()) {
        Some(hws) => sensors_from(sys, hws),
        None => seq![],
    }
}

fn read_trimmed<S: Sys>(sys: &S, path: &str) -> (r: Vec<char>)
    ensures
        r@ == read_trimmed_spec(sys, path@),
{
    match sys.read_to_string(path) {
        Some(t) => trim_str(t.as_str()),
        None => Vec::new(),
    }
}

fn hwmon_file_exec(hwmon: &str, file: &[char]) -> (r: String)
    ensures
        r@ == hwmon_file(hwmon@, file@),
{
    let mut v = chars_of("/sys/class/hwmon/");
    append_str(&mut v, hwmon);
    append_str(&mut v, "/");
    append_chars(&mut v, file);
    proof {
        reveal_strlit("/sys/class/hwmon/");
        reveal_strlit("/sys/class/hwmon");
        reveal_strlit("/");
    }
    assert(v@ =~= hwmon_file(hwmon@, file@));
    string_of(v.as_slice())
}

fn hwmon_dir_exec(hwmon: &str) -> (r: String)
    ensures
        r@ == hwmon_dir(hwmon@),
{
    let mut v = chars_of("/sys/class/hwmon");
    append_str(&mut v, "/");
    append_str(&mut v, hwmon);
    string_of(v.as_slice())
}

fn is_cpu_thermal_driver_exec(name: &[char]) -> (r: bool)
    ensures
        r == is_cpu_thermal_driver(name@),
{
    let cpu = chars_of("cpu");
    contains_str(name, "coretemp") || contains_str(name, "k10temp") || contains_str(
        name,
        "zenpower",
    ) || contains_str(name, "x86_pkg") || crate::text::eq_chars(name, cpu.as_slice()) || (
    contains_str(name, "cpu") && !contains_str(name, "gpu"))
}

fn is_package_label_exec(label: &[char]) -> (r: bool)
    ensures
        r == is_package_label(label@),
{
    let l = to_lower_vec(label);
    contains_str(l.as_slice(), "package") || contains_str(l.as_slice(), "tctl") || contains_str(
        l.as_slice(),
        "cpu",
    )
}

fn trim_input_suffix(name: &Vec<char>) -> (r: Vec<char>)
    ensures
        r@ == trim_suffix_all(name@, "_input"@),
{
    proof {
        reveal_strlit("_input");
    }
    let mut cur = slice_vec(name, 0, name.len());
    assert(cur@ =~= name@);
    while ends_with_str(cur.as_slice(), "_input")
        invariant
            trim_suffix_all(cur@, "_input"@) == trim_suffix_all(name@, "_input"@),
            "_input"@.len() == 6,
        decreases cur@.len(),
    {
        let n = cur.len();
        assert(n >= 6) by {
            assert(ends_with(cur@, "_input"@));
        }
        cur = slice_vec(&cur, 0, n - 6);
    }
    cur
}

/// Sensors of one `hwmonN` directory listing.
fn sensors_of_hwmon<S: Sys>(sys: &S, hwmon: &str, entries: &Vec<SysEntry>, out: &mut Vec<TempSensor>)
    ensures
        sensors_view(final(out)@) == sensors_view(old(out)@) + sensors_in(
            sys,
            hwmon@,
            entries_view(entries@),
        ),
{
    let ghost ev = entries_view(entries@);
    let ghost start = sensors_view(out@);
    let mut i: usize = 0;
    assert(ev.take(0) =~= seq![]);
    assert(sensors_view(out@) =~= start + seq![]);
    while i < entries.len()
        invariant
            i <= entries@.len(),
            ev == entries_view(entries@),
            sensors_view(out@) == start + sensors_in(sys, hwmon@, ev.take(i as int)),
        decreases entries@.len() - i,
    {
        assert(ev.take(i + 1).drop_last() =~= ev.take(i as int));
        assert(ev.take(i + 1).last() == entries@[i as int]@);
        let name = chars_of(entries[i].name.as_str());
        if starts_with_str(name.as_slice(), "temp") && ends_with_str(name.as_slice(), "_input") {
            let mut label_leaf = trim_input_suffix(&name);
            append_str(&mut label_leaf, "_label");
            let label_path = hwmon_file_exec(hwmon, label_leaf.as_slice());
            let label = read_trimmed(sys, label_path.as_str());
            let preferred = is_package_label_exec(label.as_slice());
            let path = hwmon_file_exec(hwmon, name.as_slice());
            let ghost before = sensors_view(out@);
            out.push(TempSensor { path, preferred });
            assert(sensors_view(out@) =~= before.push(out@[out@.len() - 1]@));
        }
        i = i + 1;
    }
    assert(ev.take(i as int) =~= ev);
}

fn discover_temp_sensors<S: Sys>(sys: &S) -> (r: Vec<TempSensor>)
    ensures
        sensors_view(r@) == temp_sensors_spec(sys),
{
    let mut out: Vec<TempSensor> = Vec::new();
    assert(sensors_view(out@) =~= seq![]);
    let hwmons = match sys.read_dir("/sys/class/hwmon") {
        Some(es) => es,
        None => return out,
    };
    let ghost hv = entries_view(hwmons@);
    let mut i: usize = 0;
    assert(hv.take(0) =~= seq![]);
    while i < hwmons.len()
        invariant
            i <= hwmons@.len(),
            hv == entries_view(hwmons@),
            sys.spec_dir(hwmon_class_root()) == Some(hv),
            sensors_view(out@) == sensors_from(sys, hv.take(i as int)),
        decreases hwmons@.len() - i,
    {
        assert(hv.take(i + 1).drop_last() =~= hv.take(i as int));
        assert(hv.take(i + 1).last() == hwmons@[i as int]@);
        let ghost before = sensors_view(out@);
        let name = chars_of(hwmons[i].name.as_str());
        let hw = chars_of("hwmon");
        if is_dir_entry_exec(&hwmons[i]) && starts_with_str(name.as_slice(), "hwmon")
            && !crate::text::eq_chars(name.as_slice(), hw.as_slice()) {
            let leaf = chars_of("name");
            let name_path = hwmon_file_exec(hwmons[i].name.as_str(), leaf.as_slice());
            let driver_raw = read_trimmed(sys, name_path.as_str());
            let driver = to_lower_vec(driver_raw.as_slice());
            if is_cpu_thermal_driver_exec(driver.as_slice()) {
                let dir = hwmon_dir_exec(hwmons[i].name.as_str());
                if let Some(entries) = sys.read_dir(dir.as_str()) {
                    sensors_of_hwmon(sys, hwmons[i].name.as_str(), &entries, &mut out);
                } else {
                    assert(sensors_view(out@) =~= before + seq![]);
                }
            } else {
                assert(sensors_view(out@) =~= before + seq![]);
            }
        } else {
            assert(sensors_view(out@) =~= before + seq![]);
        }
        i = i + 1;
    }
    assert(hv.take(i as int) =~= hv);
    out
}


pub open spec fn powercap_root() -> Seq<char> {
    "/sys/class/powercap"@
}

/// `/sys/class/powercap/<zone>`.
pub open spec fn powercap_dir(zone: Seq<char>) -> Seq<char> {
    powercap_root() + "/"@ + zone
}

/// A plain `intel-rapl` zone entry; the MMIO variant mirrors the package
/// zone and is skipped so the same package is not counted twice.
pub open spec fn is_rapl_entry(e: EntryModel) -> bool {
    is_dir_entry(e) && starts_with(e.0, "intel-rapl"@) && !starts_with(e.0, "intel-rapl-mmio"@)
}

/// Measurement window: half the legacy `udelay` no-wrap window (after one
/// µs of margin) when that file is present, capped at [`RAPL_SAMPLE_US`].
pub open spec fn zone_window(udelay: Option<u64>) -> u64 {
    match udelay {
        Some(u) => {
            let w = (if u >= 1 { (u - 1) as u64 } else { 0u64 }) / 2;
            if w <= RAPL_SAMPLE_US { w } else { RAPL_SAMPLE_US }
        },
        None => RAPL_SAMPLE_US,
    }
}

/// The package zone an entry names, if any. A bounded window is required:
/// either the legacy `udelay` or `max_energy_range_uj` must be readable.
pub open spec fn zone_of<S: Sys>(sys: &S, e: EntryModel) -> Option<ZoneModel> {
    let dir = powercap_dir(e.0);
    let udelay = u64_file_spec(sys, path_join(dir, "udelay"@));
    let max_range = u64_file_spec(sys, path_join(dir, "max_energy_range_uj"@));
    if !is_rapl_entry(e) {
        None
    } else if !starts_with(read_trimmed_spec(sys, path_join(dir, "name"@)), "package"@) {
        None
    } else if udelay is None && max_range is None {
        None
    } else {
        Some((dir, zone_window(udelay)))
    }
}

pub open spec fn zones_from<S: Sys>(sys: &S, es: Seq<EntryModel>) -> Seq<ZoneModel>
    decreases es.len(),
{
    if es.len() == 0 {
        seq![]
    } else {
        let rest = zones_from(sys, es.drop_last());
        match zone_of(sys, es.last()) {
            Some(z) => rest.push(z),
            None => rest,
        }
    }
}

pub open spec fn power_zones_spec<S: Sys>(sys: &S) -> Seq<ZoneModel> {
    match sys.spec_dir(powercap_root()) {
        Some(es) => zones_from(sys, es),
        None => seq![],
    }
}

fn zone_window_exec(udelay: Option<u64>) -> (r: u64)
    ensures
        r == zone_window(udelay),
{
    match udelay {
        Some(u) => {
            let w = u.saturating_sub(1) / 2;
            if w <= RAPL_SAMPLE_US {
                w
            } else {
                RAPL_SAMPLE_US
            }
        },
        None => RAPL_SAMPLE_US,
    }
}

fn zone_of_exec<S: Sys>(sys: &S, e: &SysEntry) -> (r: Option<PowerZone>)
    ensures
        match r {
            Some(z) => zone_of(sys, e@) == Some(z@),
            None => zone_of(sys, e@) is None,
        },
{
    let name = chars_of(e.name.as_str());
    if !(is_dir_entry_exec(e) && starts_with_str(name.as_slice(), "intel-rapl")
        && !starts_with_str(name.as_slice(), "intel-rapl-mmio")) {
        return None;
    }
    let mut dv = chars_of("/sys/class/powercap");
    append_str(&mut dv, "/");
    append_chars(&mut dv, name.as_slice());
    let name_path = join_str(dv.as_slice(), "name");
    let zone_name = read_trimmed(sys, name_path.as_str());
    if !starts_with_str(zone_name.as_slice(), "package") {
        return None;
    }
    let udelay_path = join_str(dv.as_slice(), "udelay");
    let range_path = join_str(dv.as_slice(), "max_energy_range_uj");
    let udelay = read_u64(sys, udelay_path.as_str());
    let max_range = read_u64(sys, range_path.as_str());
    if udelay.is_none() && max_range.is_none() {
        return None;
    }
    let window_us = zone_window_exec(udelay);
    Some(PowerZone { dir: string_of(dv.as_slice()), window_us })
}

fn discover_power_zones<S: Sys>(sys: &S) -> (r: Vec<PowerZone>)
    ensures
        zones_view(r@) == power_zones_spec(sys),
{
    let mut out: Vec<PowerZone> = Vec::new();
    assert(zones_view(out@) =~= seq![]);
    let zones = match sys.read_dir("/sys/class/powercap") {
        Some(es) => es,
        None => return out,
    };
    let ghost zv = entries_view(zones@);
    let mut i: usize = 0;
    assert(zv.take(0) =~= seq![]);
    while i < zones.len()
        invariant
            i <= zones@.len(),
            zv == entries_view(zones@),
            sys.spec_dir(powercap_root()) == Some(zv),
            zones_view(out@) == zones_from(sys, zv.take(i as int)),
        decreases zones@.len() - i,
    {
        assert(zv.take(i + 1).drop_last() =~= zv.take(i as int));
        assert(zv.take(i + 1).last() == zones@[i as int]@);
        if let Some(z) = zone_of_exec(sys, &zones[i]) {
            let ghost before = zones_view(out@);
            out.push(z);
            assert(zones_view(out@) =~= before.push(out@[out@.len() - 1]@));
        }
        i = i + 1;
    }
    assert(zv.take(i as int) =~= zv);
    out
}

impl CpuSensors {
    /// Discovers cpufreq policies, CPU temperature sensors and RAPL power
    /// zones. Call once at worker start; the layout is stable for the life
    /// of the process.
    pub fn discover<S: Sys>(&mut self, sys: &S)
        ensures
            final(self)@ == Some(
                (freq_policies_spec(sys), temp_sensors_spec(sys), power_zones_spec(sys)),
            ),
    {
        let freq_policies = discover_freq_policies(sys);
        let temp_sensors = discover_temp_sensors(sys);
        let power_zones = discover_power_zones(sys);
        self.layout = Some(SensorLayout { freq_policies, temp_sensors, power_zones });
    }

    /// The discovered layout, `None` before [`CpuSensors::discover`].
    pub fn layout(&self) -> (r: Option<&SensorLayout>)
        ensures
            match r {
                Some(l) => self@ == Some(l@),
                None => self@ is None,
            },
    {
        match &self.layout {
            Some(l) => Some(l),
            None => None,
        }
    }
}


// ---------------------------------------------------------------------------
// Samples
// ---------------------------------------------------------------------------

/// Current frequency (kHz) of a policy and its weight (CPU count, at least
/// one); `None` when the policy reports no current frequency or zero.
pub open spec fn freq_sample_of<S: Sys>(sys: &S, p: PolicyModel) -> Option<(u64, u64)> {
    match u64_file_spec(sys, path_join(p.0, "scaling_cur_freq"@)) {
        Some(khz) => if khz > 0 {
            Some((khz, if p.1.len() >= 1 { p.1.len() as u64 } else { 1u64 }))
        } else {
            None
        },
        None => None,
    }
}

pub open spec fn freq_samples_from<S: Sys>(sys: &S, ps: Seq<PolicyModel>) -> Seq<(u64, u64)>
    decreases ps.len(),
{
    if ps.len() == 0 {
        seq![]
    } else {
        let rest = freq_samples_from(sys, ps.drop_last());
        match freq_sample_of(sys, ps.last()) {
            Some(x) => rest.push(x),
            None => rest,
        }
    }
}

/// Largest in-range reading (millidegrees, at most 150 °C) among the sensors
/// with the given preference.
pub open spec fn best_temp<S: Sys>(sys: &S, ts: Seq<TempModel>, preferred: bool) -> Option<u64>
    decreases ts.len(),
{
    if ts.len() == 0 {
        None
    } else {
        let rest = best_temp(sys, ts.drop_last(), preferred);
        let t = ts.last();
        match u64_file_spec(sys, t.0) {
            Some(raw) => if t.1 == preferred && raw <= 150_000 {
                match rest {
                    Some(m) => Some(if m >= raw { m } else { raw }),
                    None => Some(raw),
                }
            } else {
                rest
            },
            None => rest,
        }
    }
}

/// Package-level sensors win; per-core readings are the fallback.
pub open spec fn temperature_spec<S: Sys>(sys: &S, ts: Seq<TempModel>) -> Option<u64> {
    match best_temp(sys, ts, true) {
        Some(m) => Some(m),
        None => best_temp(sys, ts, false),
    }
}

/// RAPL power as the fraction `delta_uj / window_us` (µJ and µs cancel to
/// watts). A zero window or a counter that went backwards gives 0 W.
pub open spec fn rapl_power_spec(previous_uj: u64, energy_uj: u64, window_us: u64) -> (u64, u64) {
    if window_us == 0 || energy_uj < previous_uj {
        (0, 1)
    } else {
        ((energy_uj - previous_uj) as u64, window_us)
    }
}

pub fn rapl_power(previous_uj: u64, energy_uj: u64, window_us: u64) -> (r: (u64, u64))
    ensures
        r == rapl_power_spec(previous_uj, energy_uj, window_us),
{
    if window_us == 0 || energy_uj < previous_uj {
        (0, 1)
    } else {
        (energy_uj - previous_uj, window_us)
    }
}

impl PowerZone {
    /// The zone's `energy_uj` counter.
    pub fn energy_path(&self) -> (r: String)
        ensures
            r@ == path_join(self.dir@, "energy_uj"@),
    {
        let dv = chars_of(self.dir.as_str());
        join_str(dv.as_slice(), "energy_uj")
    }

    /// One read of the zone's energy counter (µJ); `None` when it is
    /// missing, unreadable (root-only on current kernels) or not a number.
    pub fn read_energy_uj<S: Sys>(&self, sys: &S) -> (r: Option<u64>)
        ensures
            r == u64_file_spec(sys, path_join(self.dir@, "energy_uj"@)),
    {
        let path = self.energy_path();
        read_u64(sys, path.as_str())
    }
}

fn temp_pass<S: Sys>(sys: &S, sensors: &Vec<TempSensor>, preferred: bool) -> (r: Option<u64>)
    ensures
        r == best_temp(sys, sensors_view(sensors@), preferred),
{
    let ghost tv = sensors_view(sensors@);
    let mut best: Option<u64> = None;
    let mut i: usize = 0;
    assert(tv.take(0) =~= seq![]);
    while i < sensors.len()
        invariant
            i <= sensors@.len(),
            tv == sensors_view(sensors@),
            best == best_temp(sys, tv.take(i as int), preferred),
        decreases sensors@.len() - i,
    {
        assert(tv.take(i + 1).drop_last() =~= tv.take(i as int));
        assert(tv.take(i + 1).last() == sensors@[i as int]@);
        if let Some(raw) = read_u64(sys, sensors[i].path.as_str()) {
            if sensors[i].preferred == preferred && raw <= 150_000 {
                best = match best {
                    Some(m) => Some(if m >= raw { m } else { raw }),
                    None => Some(raw),
                };
            }
        }
        i = i + 1;
    }
    assert(tv.take(i as int) =~= tv);
    best
}

impl CpuSensors {
    /// Current frequency (kHz) and weight of every policy that reports one,
    /// in discovery order; empty before discovery. The average frequency is
    /// `Σ khz·w / Σ w`, and there is none when this is empty.
    pub fn frequency_samples<S: Sys>(&self, sys: &S) -> (r: Vec<(u64, u64)>)
        ensures
            r@ == (match self@ {
                Some(l) => freq_samples_from(sys, l.0),
                None => seq![],
            }),
    {
        let mut out: Vec<(u64, u64)> = Vec::new();
        let layout = match &self.layout {
            Some(l) => l,
            None => return out,
        };
        let ghost pv = policies_view(layout.freq_policies@);
        let mut i: usize = 0;
        assert(pv.take(0) =~= seq![]);
        while i < layout.freq_policies.len()
            invariant
                i <= layout.freq_policies@.len(),
                pv == policies_view(layout.freq_policies@),
                self@ == Some(layout@),
                out@ == freq_samples_from(sys, pv.take(i as int)),
            decreases layout.freq_policies@.len() - i,
        {
            assert(pv.take(i + 1).drop_last() =~= pv.take(i as int));
            assert(pv.take(i + 1).last() == layout.freq_policies@[i as int]@);
            let policy = &layout.freq_policies[i];
            let dv = chars_of(policy.dir.as_str());
            let path = join_str(dv.as_slice(), "scaling_cur_freq");
            if let Some(khz) = read_u64(sys, path.as_str()) {
                if khz > 0 {
                    let n = policy.cpus.len();
                    let w: u64 = if n >= 1 {
                        n as u64
                    } else {
                        1
                    };
                    out.push((khz, w));
                }
            }
            i = i + 1;
        }
        assert(pv.take(i as int) =~= pv);
        out
    }

    /// Hottest CPU reading in millidegrees Celsius, preferring package/Tctl
    /// sensors over per-core readings; readings above 150 °C are ignored.
    /// `None` when no CPU sensor is readable, or before discovery.
    pub fn temperature_millic<S: Sys>(&self, sys: &S) -> (r: Option<u64>)
        ensures
            r == (match self@ {
                Some(l) => temperature_spec(sys, l.1),
                None => None,
            }),
    {
        match &self.layout {
            Some(l) => match temp_pass(sys, &l.temp_sensors, true) {
                Some(m) => Some(m),
                None => temp_pass(sys, &l.temp_sensors, false),
            },
            None => None,
        }
    }
}

} // verus!
