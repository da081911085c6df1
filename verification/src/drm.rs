//! Process-level GPU telemetry from the DRM **fdinfo** interface.
//!
//! For each process the fds it holds open that point at `/dev/dri/*` are
//! inspected and the matching `/proc/<pid>/fdinfo/<fd>` file is read. The DRM
//! core and each driver emit a stable set of `key: value` lines:
//!
//! * Identification — `drm-driver`, `drm-pdev` (PCI BDF), `drm-client-id`.
//! * Engine usage — two driver families, both parsed generically:
//!     - i915 / amdgpu: `drm-engine-<name>: <ns>` (cumulative busy ns).
//!     - xe: `drm-cycles-<name>: <busy>` + `drm-total-cycles-<name>: <total>`.
//! * Memory — `drm-resident-<region>:` / `drm-total-<region>:` (default bytes,
//!   optional `KiB`/`MiB` suffix). The deprecated amdgpu `drm-memory-*` aliases
//!   of `drm-resident-*` are skipped to avoid double counting.
//!
//! Utilization is derived from the delta between samples kept in
//! [`DrmSamplerState`]; the first sample has no baseline and reports no
//! utilization (explicit, never faked).

use vstd::prelude::*;

use crate::domain::{opt_view, ProcessIdentity};
use crate::gpu_map::{fd_dir, fd_dir_exec};
use crate::order::{
    find_keyed, first_index, get_keyed, keyed_view, lemma_first_index_at, lemma_first_index_none,
    lemma_first_index_props, set_keyed, sort_by_key, sort_by_key_spec,
};
use crate::paths::{join_str, path_join};
use crate::system::{entries_view, EntryModel, Sys, SysEntry};
use crate::text::{
    dec_repr, is_digit, lemma_dec_repr_digits, lemma_parse_dec_repr, lemma_trim_dec_repr,
    lemma_trim_unchanged, trim_end, trim_start,
    chars_of, ends_with, ends_with_str, eq_chars, lines, lines_of, parse_uint, parse_uint_vec,
    slice_vec, split_once, split_once_vec, starts_with, starts_with_str, string_of, tokens,
    tokens_of, trim, trim_str, trim_vec,
};

verus! {

// ---------------------------------------------------------------------------
// Numbers
// ---------------------------------------------------------------------------

/// A base-10 integer followed by an optional unit token (`12345 ns`).
pub open spec fn parse_u64_spec(text: Seq<char>) -> Option<u64> {
    let ts = tokens(text);
    if ts.len() == 0 {
        None
    } else {
        match parse_uint(ts[0], u64::MAX as nat) {
            Some(n) => Some(n as u64),
            None => None,
        }
    }
}

/// Parse a base-10 integer, ignoring any trailing unit token (e.g. `12345 ns`).
pub fn parse_u64(text: &str) -> (r: Option<u64>)
    ensures
        r == parse_u64_spec(text@),
{
    let v = chars_of(text);
    let ts = tokens_of(&v);
    if ts.len() == 0 {
        return None;
    }
    assert(ts@[0]@ == tokens(text@)[0]);
    parse_uint_vec(ts[0].as_slice(), u64::MAX)
}

/// Bytes of a value in `unit` multiples: `None` unless the number parses and
/// the byte count fits in `u64`.
pub open spec fn scaled(number: Seq<char>, unit: nat) -> Option<u64> {
    match parse_uint(trim(number), (u64::MAX as nat) / unit) {
        Some(n) => Some((n * unit) as u64),
        None => None,
    }
}

/// A byte value with an optional `KiB`/`MiB` suffix (bytes by default).
pub open spec fn value_to_bytes_spec(text: Seq<char>) -> Option<u64> {
    let t = trim(text);
    if ends_with(t, "KiB"@) {
        scaled(t.take(t.len() - 3), 1024)
    } else if ends_with(t, "MiB"@) {
        scaled(t.take(t.len() - 3), 1024 * 1024)
    } else {
        match parse_uint(t, u64::MAX as nat) {
            Some(n) => Some(n as u64),
            None => None,
        }
    }
}

fn scaled_exec(number: &Vec<char>, unit: u64) -> (r: Option<u64>)
    requires
        unit > 0,
    ensures
        r == scaled(number@, unit as nat),
{
    let t = trim_vec(number);
    match parse_uint_vec(t.as_slice(), u64::MAX / unit) {
        Some(n) => {
            assert(n * unit <= u64::MAX) by (nonlinear_arith)
                requires
                    n <= u64::MAX / unit,
                    unit > 0,
            ;
            Some(n * unit)
        },
        None => None,
    }
}

/// Parse a byte value with an optional `KiB`/`MiB` suffix. The DRM ABI default
/// is bytes; the suffix (when present) selects the unit.
pub fn value_to_bytes(text: &str) -> (r: Option<u64>)
    ensures
        r == value_to_bytes_spec(text@),
{
    let t = trim_str(text);
    proof {
        reveal_strlit("KiB");
        reveal_strlit("MiB");
    }
    if ends_with_str(t.as_slice(), "KiB") {
        let pre = slice_vec(&t, 0, t.len() - 3);
        assert(pre@ =~= t@.take(t@.len() - 3));
        return scaled_exec(&pre, 1024);
    }
    if ends_with_str(t.as_slice(), "MiB") {
        let pre = slice_vec(&t, 0, t.len() - 3);
        assert(pre@ =~= t@.take(t@.len() - 3));
        return scaled_exec(&pre, 1024 * 1024);
    }
    parse_uint_vec(t.as_slice(), u64::MAX)
}

proof fn lemma_unit_value(n: nat, unit: Seq<char>, factor: nat)
    requires
        unit == "KiB"@ || unit == "MiB"@,
        factor == 1024 || factor == 1024 * 1024,
        n * factor <= u64::MAX,
    ensures
        ({
            let t = dec_repr(n) + " "@ + unit;
            &&& trim(t) == t
            &&& ends_with(t, unit)
            &&& scaled(t.take(t.len() - 3), factor) == Some((n * factor) as u64)
        }),
{
    reveal_strlit("KiB");
    reveal_strlit("MiB");
    reveal_strlit(" ");
    lemma_dec_repr_digits(n);
    let d = dec_repr(n);
    let t = d + " "@ + unit;
    assert(t[0] == d[0]);
    assert(is_digit(d[0]));
    assert(t.last() == 'B');
    lemma_trim_unchanged(t);
    assert(t.skip(t.len() - 3) =~= unit);
    let pre = t.take(t.len() - 3);
    assert(pre =~= d.push(' '));
    assert(pre.drop_last() =~= d);
    assert(trim_start(pre) == pre);
    assert(trim_end(pre) == trim_end(d));
    lemma_trim_dec_repr(n);
    assert(trim_start(d) == d);
    assert(trim(pre) == d);
    assert(n <= (u64::MAX as nat) / factor) by (nonlinear_arith)
        requires
            n * factor <= u64::MAX,
            factor > 0,
    ;
    lemma_parse_dec_repr(n, (u64::MAX as nat) / factor);
}

/// Memory values are bytes unless suffixed: `N` is `N` bytes, `N KiB` is
/// `N * 1024` and `N MiB` is `N * 1024 * 1024`, for every `N` whose byte
/// count fits in a `u64`.
pub proof fn law_memory_units(n: nat)
    ensures
        n <= u64::MAX ==> value_to_bytes_spec(dec_repr(n)) == Some(n as u64),
        n * 1024 <= u64::MAX ==> value_to_bytes_spec(dec_repr(n) + " KiB"@) == Some((n * 1024) as u64),
        n * 1048576 <= u64::MAX ==> value_to_bytes_spec(dec_repr(n) + " MiB"@) == Some(
            (n * 1048576) as u64,
        ),
{
    reveal_strlit("KiB");
    reveal_strlit("MiB");
    lemma_dec_repr_digits(n);
    if n <= u64::MAX {
        let d = dec_repr(n);
        lemma_trim_dec_repr(n);
        assert(!ends_with(d, "KiB"@)) by {
            assert(is_digit(d.last()));
            if ends_with(d, "KiB"@) {
                assert(d.skip(d.len() - 3)[2] == d.last());
            }
        }
        assert(!ends_with(d, "MiB"@)) by {
            assert(is_digit(d.last()));
            if ends_with(d, "MiB"@) {
                assert(d.skip(d.len() - 3)[2] == d.last());
            }
        }
        lemma_parse_dec_repr(n, u64::MAX as nat);
    }
    if n * 1024 <= u64::MAX {
        lemma_unit_value(n, "KiB"@, 1024);
    }
    if n * 1048576 <= u64::MAX {
        lemma_unit_value(n, "MiB"@, 1024 * 1024);
        let t = dec_repr(n) + " "@ + "MiB"@;
        assert(!ends_with(t, "KiB"@)) by {
            if ends_with(t, "KiB"@) {
                assert(t.skip(t.len() - 3)[0] == t[t.len() - 3]);
                assert(t.skip(t.len() - 3) =~= "MiB"@);
            }
        }
        assert(dec_repr(n) + " MiB"@ =~= t) by {
            reveal_strlit(" MiB");
            reveal_strlit(" ");
        }
    }
    if n * 1024 <= u64::MAX {
        assert(dec_repr(n) + " KiB"@ =~= dec_repr(n) + " "@ + "KiB"@) by {
            reveal_strlit(" KiB");
            reveal_strlit(" ");
        }
    }
}

// ---------------------------------------------------------------------------
// fdinfo files
// ---------------------------------------------------------------------------

/// Engine counters parsed from one fdinfo file.
#[derive(Clone, Copy, Debug, Default, PartialEq, Eq)]
pub struct ParsedEngine {
    pub busy_ns: Option<u64>,
    pub cycles_busy: Option<u64>,
    pub cycles_total: Option<u64>,
    pub capacity: Option<u32>,
}

/// A fully parsed DRM fdinfo file.
#[derive(Clone, Debug, PartialEq, Eq)]
pub struct ParsedFd {
    pub bdf: String,
    pub driver: String,
    /// Engines by name, in order of first mention.
    pub engines: Vec<(String, ParsedEngine)>,
    pub resident: u64,
    pub total: u64,
}

pub open spec fn no_engine() -> ParsedEngine {
    ParsedEngine { busy_ns: None, cycles_busy: None, cycles_total: None, capacity: None }
}

/// Which counter of an engine a line sets.
pub enum EngineField {
    Capacity,
    CyclesTotal,
    CyclesBusy,
    BusyNs,
}

pub open spec fn set_field(e: ParsedEngine, f: EngineField, v: u64) -> ParsedEngine {
    match f {
        EngineField::Capacity => ParsedEngine { capacity: Some(v as u32), ..e },
        EngineField::CyclesTotal => ParsedEngine { cycles_total: Some(v), ..e },
        EngineField::CyclesBusy => ParsedEngine { cycles_busy: Some(v), ..e },
        EngineField::BusyNs => ParsedEngine { busy_ns: Some(v), ..e },
    }
}

/// Set one counter of the engine `name`, adding the engine if new.
pub open spec fn set_engine(
    es: Seq<(Seq<char>, ParsedEngine)>,
    name: Seq<char>,
    f: EngineField,
    v: u64,
) -> Seq<(Seq<char>, ParsedEngine)>
    decreases es.len(),
{
    if es.len() == 0 {
        seq![(name, set_field(no_engine(), f, v))]
    } else if es[0].0 == name {
        es.update(0, (name, set_field(es[0].1, f, v)))
    } else {
        seq![es[0]] + set_engine(es.drop_first(), name, f, v)
    }
}

/// Parsing state: BDF, driver, engines, resident and total bytes.
pub type FdState = (Option<Seq<char>>, Option<Seq<char>>, Seq<(Seq<char>, ParsedEngine)>, u64, u64);

pub open spec fn sat_add(a: u64, b: u64) -> u64 {
    if a + b > u64::MAX {
        u64::MAX
    } else {
        (a + b) as u64
    }
}

/// An engine counter line: the prefixes are tried longest first.
pub open spec fn engine_line(key: Seq<char>) -> Option<(Seq<char>, EngineField)> {
    if starts_with(key, "drm-engine-capacity-"@) {
        Some((key.skip(20), EngineField::Capacity))
    } else if starts_with(key, "drm-total-cycles-"@) {
        Some((key.skip(17), EngineField::CyclesTotal))
    } else if starts_with(key, "drm-cycles-"@) {
        Some((key.skip(11), EngineField::CyclesBusy))
    } else if starts_with(key, "drm-engine-"@) {
        Some((key.skip(11), EngineField::BusyNs))
    } else {
        None
    }
}

/// Effect of one `key: value` line.
pub open spec fn fd_line(st: FdState, line: Seq<char>) -> FdState {
    match split_once(line, ':') {
        None => st,
        Some((k, v)) => {
            let key = trim(k);
            let value = trim(v);
            if key == "drm-pdev"@ {
                (Some(value), st.1, st.2, st.3, st.4)
            } else if key == "drm-driver"@ {
                (st.0, Some(value), st.2, st.3, st.4)
            } else {
                match engine_line(key) {
                    Some((name, field)) => match parse_u64_spec(value) {
                        Some(n) => if field is Capacity && n > u32::MAX {
                            st
                        } else {
                            (st.0, st.1, set_engine(st.2, name, field, n), st.3, st.4)
                        },
                        None => st,
                    },
                    None => if starts_with(key, "drm-resident-"@) {
                        match value_to_bytes_spec(value) {
                            Some(b) => (st.0, st.1, st.2, sat_add(st.3, b), st.4),
                            None => st,
                        }
                    } else if starts_with(key, "drm-total-"@) {
                        match value_to_bytes_spec(value) {
                            Some(b) => (st.0, st.1, st.2, st.3, sat_add(st.4, b)),
                            None => st,
                        }
                    } else {
                        st
                    },
                }
            }
        },
    }
}

pub open spec fn fd_lines(ls: Seq<Seq<char>>) -> FdState
    decreases ls.len(),
{
    if ls.len() == 0 {
        (None, None, seq![], 0, 0)
    } else {
        fd_line(fd_lines(ls.drop_last()), ls.last())
    }
}

/// The trimmed key and value of a `key: value` line, split at its first
/// colon.
pub open spec fn line_kv(line: Seq<char>) -> Option<(Seq<char>, Seq<char>)> {
    match split_once(line, ':') {
        Some((k, v)) => Some((trim(k), trim(v))),
        None => None,
    }
}

/// The value of the last line whose key is `key`.
pub open spec fn last_value(ls: Seq<Seq<char>>, key: Seq<char>) -> Option<Seq<char>>
    decreases ls.len(),
{
    if ls.len() == 0 {
        None
    } else {
        match line_kv(ls.last()) {
            Some((k, v)) => if k == key {
                Some(v)
            } else {
                last_value(ls.drop_last(), key)
            },
            None => last_value(ls.drop_last(), key),
        }
    }
}

/// A memory line counted as resident bytes.
pub open spec fn is_resident_key(k: Seq<char>) -> bool {
    starts_with(k, "drm-resident-"@)
}

/// A memory line counted as total bytes (cycle counters excluded).
pub open spec fn is_total_key(k: Seq<char>) -> bool {
    starts_with(k, "drm-total-"@) && !starts_with(k, "drm-total-cycles-"@)
}

/// Saturating sum of the byte values of the lines whose key is of the
/// resident (`total == false`) or total (`total == true`) kind; values
/// that are not byte counts add nothing.
pub open spec fn byte_sum(ls: Seq<Seq<char>>, total: bool) -> u64
    decreases ls.len(),
{
    if ls.len() == 0 {
        0
    } else {
        let r = byte_sum(ls.drop_last(), total);
        match line_kv(ls.last()) {
            Some((k, v)) => if (if total {
                is_total_key(k)
            } else {
                is_resident_key(k)
            }) {
                match value_to_bytes_spec(v) {
                    Some(b) => sat_add(r, b),
                    None => r,
                }
            } else {
                r
            },
            None => r,
        }
    }
}

/// Memory keys are no other kind of line.
proof fn lemma_memory_keys(k: Seq<char>)
    ensures
        is_resident_key(k) ==> k != "drm-pdev"@ && k != "drm-driver"@ && engine_line(k) is None,
        is_total_key(k) ==> k != "drm-pdev"@ && k != "drm-driver"@ && engine_line(k) is None
            && !is_resident_key(k),
{
    reveal_strlit("drm-resident-");
    reveal_strlit("drm-total-");
    reveal_strlit("drm-total-cycles-");
    reveal_strlit("drm-pdev");
    reveal_strlit("drm-driver");
    reveal_strlit("drm-engine-capacity-");
    reveal_strlit("drm-cycles-");
    reveal_strlit("drm-engine-");
    if is_resident_key(k) {
        assert(k[4] == "drm-resident-"@[4]);
        assert(k.len() >= 13);
        if starts_with(k, "drm-engine-capacity-"@) {
            assert(k[4] == "drm-engine-capacity-"@[4]);
        }
        if starts_with(k, "drm-total-cycles-"@) {
            assert(k[4] == "drm-total-cycles-"@[4]);
        }
        if starts_with(k, "drm-cycles-"@) {
            assert(k[4] == "drm-cycles-"@[4]);
        }
        if starts_with(k, "drm-engine-"@) {
            assert(k[4] == "drm-engine-"@[4]);
        }
    }
    if is_total_key(k) {
        assert(k[4] == "drm-total-"@[4]);
        assert(k.len() >= 10);
        if starts_with(k, "drm-engine-capacity-"@) {
            assert(k[4] == "drm-engine-capacity-"@[4]);
        }
        if starts_with(k, "drm-cycles-"@) {
            assert(k[4] == "drm-cycles-"@[4]);
        }
        if starts_with(k, "drm-engine-"@) {
            assert(k[4] == "drm-engine-"@[4]);
        }
        if is_resident_key(k) {
            assert(k[4] == "drm-resident-"@[4]);
        }
    }
}

/// What reading the lines gives for the device, driver and memory.
proof fn lemma_fd_lines_fields(ls: Seq<Seq<char>>)
    ensures
        fd_lines(ls).0 == last_value(ls, "drm-pdev"@),
        fd_lines(ls).1 == last_value(ls, "drm-driver"@),
        fd_lines(ls).3 == byte_sum(ls, false),
        fd_lines(ls).4 == byte_sum(ls, true),
    decreases ls.len(),
{
    if ls.len() > 0 {
        lemma_fd_lines_fields(ls.drop_last());
        match line_kv(ls.last()) {
            Some((k, v)) => {
                lemma_memory_keys(k);
                reveal_strlit("drm-pdev");
                reveal_strlit("drm-driver");
            },
            None => {},
        }
    }
}

/// An fdinfo file describes a DRM client exactly when some line's key is
/// `drm-pdev`. Its device is the value of the last such line, its driver
/// that of the last `drm-driver` line (empty when there is none), and its
/// resident and total memory the saturating sums of the `drm-resident-*`
/// and `drm-total-*` lines (cycle counters excluded); no other key adds to
/// them.
pub proof fn law_fdinfo_fields(content: Seq<char>)
    ensures
        ({
            let ls = lines(content);
            &&& (parse_fdinfo_spec(content) is Some) == (last_value(ls, "drm-pdev"@) is Some)
            &&& parse_fdinfo_spec(content) is Some ==> {
                let p = parse_fdinfo_spec(content)->0;
                &&& p.0 == last_value(ls, "drm-pdev"@)->0
                &&& p.1 == (match last_value(ls, "drm-driver"@) {
                    Some(d) => d,
                    None => seq![],
                })
                &&& p.3 == byte_sum(ls, false)
                &&& p.4 == byte_sum(ls, true)
            }
        }),
{
    lemma_fd_lines_fields(lines(content));
}

/// Abstract value of a [`ParsedFd`].
pub type ParsedFdModel = (Seq<char>, Seq<char>, Seq<(Seq<char>, ParsedEngine)>, u64, u64);

pub open spec fn parsed_fd_view(p: ParsedFd) -> ParsedFdModel {
    (p.bdf@, p.driver@, p.engines@.map_values(|e: (String, ParsedEngine)| (e.0@, e.1)), p.resident, p.total)
}

/// What an fdinfo file says: `None` without a `drm-pdev` line (not a DRM fd).
pub open spec fn parse_fdinfo_spec(content: Seq<char>) -> Option<ParsedFdModel> {
    let st = fd_lines(lines(content));
    match st.0 {
        None => None,
        Some(bdf) => Some(
            (
                bdf,
                match st.1 {
                    Some(d) => d,
                    None => seq![],
                },
                st.2,
                st.3,
                st.4,
            ),
        ),
    }
}

pub open spec fn engines_view(v: Seq<(String, ParsedEngine)>) -> Seq<(Seq<char>, ParsedEngine)> {
    v.map_values(|e: (String, ParsedEngine)| (e.0@, e.1))
}

fn set_field_exec(e: &mut ParsedEngine, f: &EngineField, v: u64)
    requires
        (*f is Capacity) ==> v <= u32::MAX,
    ensures
        *final(e) == set_field(*old(e), *f, v),
{
    match f {
        EngineField::Capacity => e.capacity = Some(v as u32),
        EngineField::CyclesTotal => e.cycles_total = Some(v),
        EngineField::CyclesBusy => e.cycles_busy = Some(v),
        EngineField::BusyNs => e.busy_ns = Some(v),
    }
}

proof fn lemma_set_engine_found(es: Seq<(Seq<char>, ParsedEngine)>, name: Seq<char>, f: EngineField, v: u64, i: int)
    requires
        0 <= i < es.len(),
        es[i].0 == name,
        forall|j: int| 0 <= j < i ==> (#[trigger] es[j]).0 != name,
    ensures
        set_engine(es, name, f, v) == es.update(i, (name, set_field(es[i].1, f, v))),
    decreases es.len(),
{
    if i > 0 {
        let t = es.drop_first();
        assert forall|j: int| 0 <= j < i - 1 implies (#[trigger] t[j]).0 != name by {
            assert(t[j] == es[j + 1]);
        }
        lemma_set_engine_found(t, name, f, v, i - 1);
        assert(seq![es[0]] + t.update(i - 1, (name, set_field(es[i].1, f, v))) =~= es.update(
            i,
            (name, set_field(es[i].1, f, v)),
        ));
    } else {
        assert(es.update(0, (name, set_field(es[0].1, f, v))) == es.update(i, (name, set_field(es[i].1, f, v))));
    }
}

proof fn lemma_set_engine_absent(es: Seq<(Seq<char>, ParsedEngine)>, name: Seq<char>, f: EngineField, v: u64)
    requires
        forall|j: int| 0 <= j < es.len() ==> (#[trigger] es[j]).0 != name,
    ensures
        set_engine(es, name, f, v) == es.push((name, set_field(no_engine(), f, v))),
    decreases es.len(),
{
    if es.len() > 0 {
        let t = es.drop_first();
        assert forall|j: int| 0 <= j < t.len() implies (#[trigger] t[j]).0 != name by {
            assert(t[j] == es[j + 1]);
        }
        lemma_set_engine_absent(t, name, f, v);
        assert(seq![es[0]] + t.push((name, set_field(no_engine(), f, v))) =~= es.push(
            (name, set_field(no_engine(), f, v)),
        ));
    }
}

fn set_engine_exec(es: &mut Vec<(String, ParsedEngine)>, name: &Vec<char>, f: EngineField, v: u64)
    requires
        (f is Capacity) ==> v <= u32::MAX,
    ensures
        engines_view(final(es)@) == set_engine(engines_view(old(es)@), name@, f, v),
{
    let ghost ev = engines_view(es@);
    let mut i: usize = 0;
    while i < es.len()
        invariant
            i <= es@.len(),
            es@ == old(es)@,
            (f is Capacity) ==> v <= u32::MAX,
            ev == engines_view(es@),
            forall|j: int| 0 <= j < i ==> (#[trigger] ev[j]).0 != name@,
        decreases es@.len() - i,
    {
        let k = chars_of(es[i].0.as_str());
        assert(ev[i as int].0 == k@);
        if eq_chars(k.as_slice(), name.as_slice()) {
            proof {
                lemma_set_engine_found(ev, name@, f, v, i as int);
            }
            let mut e = es[i].1;
            set_field_exec(&mut e, &f, v);
            let nm = es[i].0.clone();
            es.set(i, (nm, e));
            assert(engines_view(es@) =~= ev.update(i as int, (name@, set_field(ev[i as int].1, f, v))));
            return;
        }
        i = i + 1;
    }
    proof {
        lemma_set_engine_absent(ev, name@, f, v);
    }
    let mut e = ParsedEngine { busy_ns: None, cycles_busy: None, cycles_total: None, capacity: None };
    set_field_exec(&mut e, &f, v);
    es.push((string_of(name.as_slice()), e));
    assert(engines_view(es@) =~= ev.push((name@, set_field(no_engine(), f, v))));
}

fn engine_line_exec(key: &Vec<char>) -> (r: Option<(Vec<char>, EngineField)>)
    ensures
        match engine_line(key@) {
            Some((n, f)) => match r {
                Some(p) => p.0@ == n && p.1 == f,
                None => false,
            },
            None => r is None,
        },
{
    proof {
        reveal_strlit("drm-engine-capacity-");
        reveal_strlit("drm-total-cycles-");
        reveal_strlit("drm-cycles-");
        reveal_strlit("drm-engine-");
    }
    let k = key.as_slice();
    if starts_with_str(k, "drm-engine-capacity-") {
        let n = slice_vec(key, 20, key.len());
        assert(n@ =~= key@.skip(20));
        Some((n, EngineField::Capacity))
    } else if starts_with_str(k, "drm-total-cycles-") {
        let n = slice_vec(key, 17, key.len());
        assert(n@ =~= key@.skip(17));
        Some((n, EngineField::CyclesTotal))
    } else if starts_with_str(k, "drm-cycles-") {
        let n = slice_vec(key, 11, key.len());
        assert(n@ =~= key@.skip(11));
        Some((n, EngineField::CyclesBusy))
    } else if starts_with_str(k, "drm-engine-") {
        let n = slice_vec(key, 11, key.len());
        assert(n@ =~= key@.skip(11));
        Some((n, EngineField::BusyNs))
    } else {
        None
    }
}

fn sat_add_exec(a: u64, b: u64) -> (r: u64)
    ensures
        r == sat_add(a, b),
{
    a.saturating_add(b)
}

/// Parse one `/proc/<pid>/fdinfo/<fd>` file's DRM `key: value` lines.
pub fn parse_fdinfo(content: &str) -> (r: Option<ParsedFd>)
    ensures
        match r {
            Some(p) => parse_fdinfo_spec(content@) == Some(parsed_fd_view(p)),
            None => parse_fdinfo_spec(content@) is None,
        },
{
    let text = chars_of(content);
    let ls = lines_of(&text);
    let mut bdf: Option<Vec<char>> = None;
    let mut driver: Option<Vec<char>> = None;
    let mut engines: Vec<(String, ParsedEngine)> = Vec::new();
    let mut resident: u64 = 0;
    let mut total: u64 = 0;
    proof {
        reveal_strlit("drm-pdev");
        reveal_strlit("drm-driver");
        reveal_strlit("drm-resident-");
        reveal_strlit("drm-total-");
    }
    for i in 0..ls.len()
        invariant
            ls@.len() == lines(content@).len(),
            forall|k: int| 0 <= k < ls@.len() ==> #[trigger] ls@[k]@ == lines(content@)[k],
            fd_lines(lines(content@).take(i as int)) == (
                match bdf {
                    Some(b) => Some(b@),
                    None => None::<Seq<char>>,
                },
                match driver {
                    Some(d) => Some(d@),
                    None => None::<Seq<char>>,
                },
                engines_view(engines@),
                resident,
                total,
            ),
    {
        proof {
            let pre = lines(content@).take(i as int);
            let nxt = lines(content@).take(i + 1);
            assert(nxt.drop_last() =~= pre);
            assert(nxt.last() == ls@[i as int]@);
        }
        match split_once_vec(&ls[i], ':') {
            None => {},
            Some(pair) => {
                let key = trim_vec(&pair.0);
                let value = trim_vec(&pair.1);
                if eq_chars(key.as_slice(), chars_of("drm-pdev").as_slice()) {
                    bdf = Some(value);
                } else if eq_chars(key.as_slice(), chars_of("drm-driver").as_slice()) {
                    driver = Some(value);
                } else {
                    match engine_line_exec(&key) {
                        Some((name, field)) => {
                            let vs = string_of(value.as_slice());
                            match parse_u64(vs.as_str()) {
                                Some(n) => {
                                    let is_cap = match field {
                                        EngineField::Capacity => true,
                                        _ => false,
                                    };
                                    if !(is_cap && n > 0xffff_ffff) {
                                        set_engine_exec(&mut engines, &name, field, n);
                                    }
                                },
                                None => {},
                            }
                        },
                        None => {
                            let vs = string_of(value.as_slice());
                            if starts_with_str(key.as_slice(), "drm-resident-") {
                                if let Some(b) = value_to_bytes(vs.as_str()) {
                                    resident = sat_add_exec(resident, b);
                                }
                            } else if starts_with_str(key.as_slice(), "drm-total-") {
                                if let Some(b) = value_to_bytes(vs.as_str()) {
                                    total = sat_add_exec(total, b);
                                }
                            }
                        },
                    }
                }
            },
        }
    }
    assert(lines(content@).take(ls@.len() as int) =~= lines(content@));
    match bdf {
        None => None,
        Some(b) => {
            let d = match driver {
                Some(d) => d,
                None => Vec::new(),
            };
            let p = ParsedFd {
                bdf: string_of(b.as_slice()),
                driver: string_of(d.as_slice()),
                engines,
                resident,
                total,
            };
            Some(p)
        },
    }
}


// ---------------------------------------------------------------------------
// Aggregation per device
// ---------------------------------------------------------------------------

/// Summed counters for one engine name across a process's fds to a device.
#[derive(Clone, Copy, Debug, PartialEq, Eq)]
pub struct AggEngine {
    pub busy_ns_sum: u64,
    pub has_busy_ns: bool,
    pub cycles_busy_sum: u64,
    pub has_cycles_busy: bool,
    pub cycles_total_sum: u64,
    pub has_cycles_total: bool,
    pub capacity: Option<u32>,
}

pub open spec fn empty_agg() -> AggEngine {
    AggEngine {
        busy_ns_sum: 0,
        has_busy_ns: false,
        cycles_busy_sum: 0,
        has_cycles_busy: false,
        cycles_total_sum: 0,
        has_cycles_total: false,
        capacity: None,
    }
}

impl AggEngine {
    pub open spec fn busy_ns_spec(self) -> Option<u64> {
        if self.has_busy_ns {
            Some(self.busy_ns_sum)
        } else {
            None
        }
    }

    pub open spec fn cycles_busy_spec(self) -> Option<u64> {
        if self.has_cycles_busy {
            Some(self.cycles_busy_sum)
        } else {
            None
        }
    }

    pub open spec fn cycles_total_spec(self) -> Option<u64> {
        if self.has_cycles_total {
            Some(self.cycles_total_sum)
        } else {
            None
        }
    }

    /// Summed busy nanoseconds, when any fd reported them.
    pub fn busy_ns_value(&self) -> (r: Option<u64>)
        ensures
            r == self.busy_ns_spec(),
    {
        if self.has_busy_ns {
            Some(self.busy_ns_sum)
        } else {
            None
        }
    }

    /// Summed busy cycles, when any fd reported them.
    pub fn cycles_busy_value(&self) -> (r: Option<u64>)
        ensures
            r == self.cycles_busy_spec(),
    {
        if self.has_cycles_busy {
            Some(self.cycles_busy_sum)
        } else {
            None
        }
    }

    /// Summed total cycles, when any fd reported them.
    pub fn cycles_total_value(&self) -> (r: Option<u64>)
        ensures
            r == self.cycles_total_spec(),
    {
        if self.has_cycles_total {
            Some(self.cycles_total_sum)
        } else {
            None
        }
    }
}

/// Fold one fd's engine counters into the running sums: counters add up
/// (saturating), the capacity is the largest reported.
pub open spec fn merge_agg(a: AggEngine, e: ParsedEngine) -> AggEngine {
    AggEngine {
        busy_ns_sum: match e.busy_ns {
            Some(n) => sat_add(a.busy_ns_sum, n),
            None => a.busy_ns_sum,
        },
        has_busy_ns: a.has_busy_ns || e.busy_ns is Some,
        cycles_busy_sum: match e.cycles_busy {
            Some(n) => sat_add(a.cycles_busy_sum, n),
            None => a.cycles_busy_sum,
        },
        has_cycles_busy: a.has_cycles_busy || e.cycles_busy is Some,
        cycles_total_sum: match e.cycles_total {
            Some(n) => sat_add(a.cycles_total_sum, n),
            None => a.cycles_total_sum,
        },
        has_cycles_total: a.has_cycles_total || e.cycles_total is Some,
        capacity: match e.capacity {
            Some(c) => Some(
                match a.capacity {
                    Some(x) => if x >= c {
                        x
                    } else {
                        c
                    },
                    None => c,
                },
            ),
            None => a.capacity,
        },
    }
}

pub open spec fn merge_engine_spec(
    es: Seq<(Seq<char>, AggEngine)>,
    name: Seq<char>,
    e: ParsedEngine,
) -> Seq<(Seq<char>, AggEngine)> {
    match first_index(es, name) {
        Some(i) => es.update(i, (name, merge_agg(es[i].1, e))),
        None => es.push((name, merge_agg(empty_agg(), e))),
    }
}

fn merge_agg_exec(a: &AggEngine, e: &ParsedEngine) -> (r: AggEngine)
    ensures
        r == merge_agg(*a, *e),
{
    let mut r = *a;
    if let Some(n) = e.busy_ns {
        r.busy_ns_sum = sat_add_exec(r.busy_ns_sum, n);
        r.has_busy_ns = true;
    }
    if let Some(n) = e.cycles_busy {
        r.cycles_busy_sum = sat_add_exec(r.cycles_busy_sum, n);
        r.has_cycles_busy = true;
    }
    if let Some(n) = e.cycles_total {
        r.cycles_total_sum = sat_add_exec(r.cycles_total_sum, n);
        r.has_cycles_total = true;
    }
    if let Some(c) = e.capacity {
        r.capacity = Some(
            match a.capacity {
                Some(x) => if x >= c {
                    x
                } else {
                    c
                },
                None => c,
            },
        );
    }
    r
}

/// Fold one parsed engine into the per-name accumulator for a device.
pub fn merge_engine(map: &mut Vec<(Vec<char>, AggEngine)>, name: &[char], engine: &ParsedEngine)
    ensures
        keyed_view(final(map)@) == merge_engine_spec(keyed_view(old(map)@), name@, *engine),
{
    let ghost before = keyed_view(map@);
    proof {
        lemma_first_index_props(before, name@);
    }
    match find_keyed(map, name) {
        Some(i) => {
            let merged = merge_agg_exec(&map[i].1, engine);
            let k = crate::paths::lit_clone(&map[i].0);
            map.set(i, (k, merged));
            assert(keyed_view(map@) =~= before.update(i as int, (name@, merge_agg(before[i as int].1, *engine))));
        },
        None => {
            let empty = AggEngine {
                busy_ns_sum: 0,
                has_busy_ns: false,
                cycles_busy_sum: 0,
                has_cycles_busy: false,
                cycles_total_sum: 0,
                has_cycles_total: false,
                capacity: None,
            };
            let merged = merge_agg_exec(&empty, engine);
            let mut k: Vec<char> = Vec::new();
            crate::text::append_chars(&mut k, name);
            map.push((k, merged));
            assert(keyed_view(map@) =~= before.push((name@, merge_agg(empty_agg(), *engine))));
        },
    }
}


/// Per-device accumulation: driver (of the first fd), fd count, resident
/// and total bytes, and engines by name in order of first mention.
pub struct AggGpu {
    pub driver: String,
    pub client_count: u32,
    pub resident: u64,
    pub total: u64,
    pub engines: Vec<(Vec<char>, AggEngine)>,
}

pub type AggGpuModel = (Seq<char>, u32, u64, u64, Seq<(Seq<char>, AggEngine)>);

pub open spec fn agg_gpu_view(g: AggGpu) -> AggGpuModel {
    (g.driver@, g.client_count, g.resident, g.total, keyed_view(g.engines@))
}

pub open spec fn aggs_view(v: Seq<(Vec<char>, AggGpu)>) -> Seq<(Seq<char>, AggGpuModel)> {
    v.map_values(|p: (Vec<char>, AggGpu)| (p.0@, agg_gpu_view(p.1)))
}

pub open spec fn fds_view(v: Seq<ParsedFd>) -> Seq<ParsedFdModel> {
    v.map_values(|p: ParsedFd| parsed_fd_view(p))
}

pub open spec fn merge_engines_spec(
    es: Seq<(Seq<char>, AggEngine)>,
    fes: Seq<(Seq<char>, ParsedEngine)>,
) -> Seq<(Seq<char>, AggEngine)>
    decreases fes.len(),
{
    if fes.len() == 0 {
        es
    } else {
        merge_engine_spec(merge_engines_spec(es, fes.drop_last()), fes.last().0, fes.last().1)
    }
}

/// One more fd to the device.
pub open spec fn merge_fd(g: AggGpuModel, fd: ParsedFdModel) -> AggGpuModel {
    (
        g.0,
        if g.1 < u32::MAX {
            (g.1 + 1) as u32
        } else {
            g.1
        },
        sat_add(g.2, fd.3),
        sat_add(g.3, fd.4),
        merge_engines_spec(g.4, fd.2),
    )
}

/// Devices in order of first appearance, each with its fds folded in.
pub open spec fn agg_step(gs: Seq<(Seq<char>, AggGpuModel)>, fd: ParsedFdModel) -> Seq<
    (Seq<char>, AggGpuModel),
> {
    match first_index(gs, fd.0) {
        Some(i) => gs.update(i, (fd.0, merge_fd(gs[i].1, fd))),
        None => gs.push((fd.0, merge_fd((fd.1, 0, 0, 0, seq![]), fd))),
    }
}

pub open spec fn aggregate_spec(fds: Seq<ParsedFdModel>) -> Seq<(Seq<char>, AggGpuModel)>
    decreases fds.len(),
{
    if fds.len() == 0 {
        seq![]
    } else {
        agg_step(aggregate_spec(fds.drop_last()), fds.last())
    }
}

/// Folding one fd in keeps each device's BDF where it was, and adds the
/// fd's BDF at the end when it is new.
proof fn lemma_agg_step_keys(gs: Seq<(Seq<char>, AggGpuModel)>, fd: ParsedFdModel)
    ensures
        ({
            let r = agg_step(gs, fd);
            &&& forall|i: int| 0 <= i < gs.len() ==> (#[trigger] r[i]).0 == gs[i].0
            &&& (exists|i: int| 0 <= i < gs.len() && (#[trigger] gs[i]).0 == fd.0) ==> r.len() == gs.len()
            &&& (forall|i: int| 0 <= i < gs.len() ==> (#[trigger] gs[i]).0 != fd.0) ==> r.len()
                == gs.len() + 1 && r[gs.len() as int].0 == fd.0
            &&& exists|i: int| 0 <= i < r.len() && (#[trigger] r[i]).0 == fd.0
        }),
{
    lemma_first_index_props(gs, fd.0);
    let r = agg_step(gs, fd);
    match first_index(gs, fd.0) {
        Some(x) => {
            assert(r[x].0 == fd.0);
        },
        None => {
            assert(r[gs.len() as int].0 == fd.0);
        },
    }
}

/// The aggregated devices have distinct BDFs.
proof fn lemma_agg_distinct(fds: Seq<ParsedFdModel>)
    ensures
        forall|i: int, j: int|
            0 <= i < j < aggregate_spec(fds).len() ==> (#[trigger] aggregate_spec(fds)[i]).0
                != (#[trigger] aggregate_spec(fds)[j]).0,
    decreases fds.len(),
{
    if fds.len() > 0 {
        let gs = aggregate_spec(fds.drop_last());
        let fd = fds.last();
        lemma_agg_distinct(fds.drop_last());
        lemma_agg_step_keys(gs, fd);
        let r = aggregate_spec(fds);
        assert forall|i: int, j: int| 0 <= i < j < r.len() implies (#[trigger] r[i]).0 != (
        #[trigger] r[j]).0 by {
            if j < gs.len() {
                assert(r[i].0 == gs[i].0 && r[j].0 == gs[j].0);
            } else {
                assert(r[i].0 == gs[i].0);
                if exists|k: int| 0 <= k < gs.len() && (#[trigger] gs[k]).0 == fd.0 {
                    assert(r.len() == gs.len());
                }
            }
        }
    }
}

/// Every fd's BDF is among the aggregated devices.
proof fn lemma_agg_covers(fds: Seq<ParsedFdModel>)
    ensures
        forall|k: int|
            0 <= k < fds.len() ==> exists|i: int|
                0 <= i < aggregate_spec(fds).len() && (#[trigger] aggregate_spec(fds)[i]).0 == (#[trigger] fds[k]).0,
    decreases fds.len(),
{
    if fds.len() > 0 {
        let init = fds.drop_last();
        let gs = aggregate_spec(init);
        lemma_agg_covers(init);
        lemma_agg_step_keys(gs, fds.last());
        let r = aggregate_spec(fds);
        assert forall|k: int| 0 <= k < fds.len() implies exists|i: int|
            0 <= i < r.len() && (#[trigger] r[i]).0 == (#[trigger] fds[k]).0 by {
            if k < init.len() {
                assert(fds[k] == init[k]);
                let i = choose|i: int| 0 <= i < gs.len() && (#[trigger] gs[i]).0 == init[k].0;
                assert(r[i].0 == gs[i].0);
            }
        }
    }
}

/// Every aggregated device is the BDF of some fd.
proof fn lemma_agg_from_fds(fds: Seq<ParsedFdModel>)
    ensures
        forall|i: int|
            0 <= i < aggregate_spec(fds).len() ==> exists|k: int|
                0 <= k < fds.len() && (#[trigger] fds[k]).0 == (#[trigger] aggregate_spec(fds)[i]).0,
    decreases fds.len(),
{
    if fds.len() > 0 {
        let init = fds.drop_last();
        let gs = aggregate_spec(init);
        let fd = fds.last();
        lemma_agg_from_fds(init);
        lemma_agg_step_keys(gs, fd);
        let r = aggregate_spec(fds);
        assert forall|i: int| 0 <= i < r.len() implies exists|k: int|
            0 <= k < fds.len() && (#[trigger] fds[k]).0 == (#[trigger] r[i]).0 by {
            if i < gs.len() {
                assert(r[i].0 == gs[i].0);
                let k = choose|k: int| 0 <= k < init.len() && (#[trigger] init[k]).0 == gs[i].0;
                assert(fds[k] == init[k]);
            } else {
                if exists|m: int| 0 <= m < gs.len() && (#[trigger] gs[m]).0 == fd.0 {
                    assert(r.len() == gs.len());
                }
                assert(fds[fds.len() - 1] == fd);
            }
        }
    }
}

/// Every fd's device is reported once: the aggregated devices have distinct
/// BDFs, each the BDF of some fd, and every fd's BDF is among them.
pub proof fn law_one_entry_per_device(fds: Seq<ParsedFdModel>)
    ensures
        forall|i: int, j: int|
            0 <= i < j < aggregate_spec(fds).len() ==> (#[trigger] aggregate_spec(fds)[i]).0
                != (#[trigger] aggregate_spec(fds)[j]).0,
        forall|k: int|
            0 <= k < fds.len() ==> exists|i: int|
                0 <= i < aggregate_spec(fds).len() && (#[trigger] aggregate_spec(fds)[i]).0 == (#[trigger] fds[k]).0,
        forall|i: int|
            0 <= i < aggregate_spec(fds).len() ==> exists|k: int|
                0 <= k < fds.len() && (#[trigger] fds[k]).0 == (#[trigger] aggregate_spec(fds)[i]).0,
{
    lemma_agg_distinct(fds);
    lemma_agg_covers(fds);
    lemma_agg_from_fds(fds);
    let r = aggregate_spec(fds);
    assert forall|k: int| 0 <= k < fds.len() implies exists|i: int|
        0 <= i < r.len() && (#[trigger] r[i]).0 == (#[trigger] fds[k]).0 by {
        let f = fds[k];
        assert(exists|i: int| 0 <= i < r.len() && (#[trigger] r[i]).0 == f.0);
    }
}

/// One of an engine's three counters: busy nanoseconds (`0`), busy cycles
/// (`1`) or total cycles (any other).
pub open spec fn engine_counter(e: ParsedEngine, which: int) -> Option<u64> {
    if which == 0 {
        e.busy_ns
    } else if which == 1 {
        e.cycles_busy
    } else {
        e.cycles_total
    }
}

/// The running sum of that counter and whether any fd reported it.
pub open spec fn agg_counter(a: AggEngine, which: int) -> (u64, bool) {
    if which == 0 {
        (a.busy_ns_sum, a.has_busy_ns)
    } else if which == 1 {
        (a.cycles_busy_sum, a.has_cycles_busy)
    } else {
        (a.cycles_total_sum, a.has_cycles_total)
    }
}

/// Sum of the counter over the entries of `es` named `name`.
pub open spec fn counter_total(es: Seq<(Seq<char>, ParsedEngine)>, name: Seq<char>, which: int) -> int
    decreases es.len(),
{
    if es.len() == 0 {
        0
    } else {
        counter_total(es.drop_last(), name, which) + if es.last().0 == name && engine_counter(
            es.last().1,
            which,
        ) is Some {
            engine_counter(es.last().1, which)->0 as int
        } else {
            0int
        }
    }
}

/// Some entry of `es` named `name` reports the counter.
pub open spec fn counter_reported(es: Seq<(Seq<char>, ParsedEngine)>, name: Seq<char>, which: int) -> bool {
    exists|k: int| 0 <= k < es.len() && (#[trigger] es[k]).0 == name && engine_counter(es[k].1, which) is Some
}

/// Some accumulator in `es` is for the engine `name`.
pub open spec fn has_engine(es: Seq<(Seq<char>, AggEngine)>, name: Seq<char>) -> bool {
    exists|j: int| 0 <= j < es.len() && (#[trigger] es[j]).0 == name
}

/// `t` held to the `u64` range.
pub open spec fn cap_u64(t: int) -> int {
    if t > u64::MAX {
        u64::MAX as int
    } else {
        t
    }
}

/// The engine entries of every fd to the device `bdf`, in fd order.
pub open spec fn device_engines(fds: Seq<ParsedFdModel>, bdf: Seq<char>) -> Seq<(Seq<char>, ParsedEngine)>
    decreases fds.len(),
{
    if fds.len() == 0 {
        seq![]
    } else {
        device_engines(fds.drop_last(), bdf) + if fds.last().0 == bdf {
            fds.last().2
        } else {
            seq![]
        }
    }
}

/// `es` accounts for the entries `f`: one accumulator per engine name, each
/// holding the saturating sums of its counters over `f`.
pub open spec fn accounts_for(es: Seq<(Seq<char>, AggEngine)>, f: Seq<(Seq<char>, ParsedEngine)>) -> bool {
    &&& forall|a: int, b: int| 0 <= a < b < es.len() ==> (#[trigger] es[a]).0 != (#[trigger] es[b]).0
    &&& forall|j: int, w: int|
        #![trigger agg_counter(es[j].1, w)]
        0 <= j < es.len() ==> agg_counter(es[j].1, w).0 == cap_u64(counter_total(f, es[j].0, w))
            && agg_counter(es[j].1, w).1 == counter_reported(f, es[j].0, w)
    &&& forall|k: int|
        #![trigger f[k]]
        0 <= k < f.len() ==> exists|j: int| #![trigger es[j]] 0 <= j < es.len() && es[j].0 == f[k].0
}

proof fn lemma_counter_absent(f: Seq<(Seq<char>, ParsedEngine)>, name: Seq<char>, w: int)
    requires
        forall|k: int| 0 <= k < f.len() ==> (#[trigger] f[k]).0 != name,
    ensures
        counter_total(f, name, w) == 0,
        !counter_reported(f, name, w),
    decreases f.len(),
{
    if f.len() > 0 {
        let init = f.drop_last();
        assert forall|k: int| 0 <= k < init.len() implies (#[trigger] init[k]).0 != name by {
            assert(init[k] == f[k]);
        }
        lemma_counter_absent(init, name, w);
        assert(f[f.len() - 1] == f.last());
    }
}

proof fn lemma_counter_push(f: Seq<(Seq<char>, ParsedEngine)>, x: (Seq<char>, ParsedEngine), name: Seq<char>, w: int)
    ensures
        counter_total(f.push(x), name, w) == counter_total(f, name, w) + if x.0 == name && engine_counter(x.1, w) is Some {
            engine_counter(x.1, w)->0 as int
        } else {
            0int
        },
        counter_reported(f.push(x), name, w) == (counter_reported(f, name, w) || (x.0 == name
            && engine_counter(x.1, w) is Some)),
        counter_total(f, name, w) >= 0,
    decreases f.len(),
{
    let g = f.push(x);
    assert(g.drop_last() =~= f);
    assert(g.last() == x);
    if counter_reported(f, name, w) {
        let k = choose|k: int| 0 <= k < f.len() && (#[trigger] f[k]).0 == name && engine_counter(f[k].1, w) is Some;
        assert(g[k] == f[k]);
    }
    if x.0 == name && engine_counter(x.1, w) is Some {
        assert(g[f.len() as int] == x);
    }
    if counter_reported(g, name, w) {
        let k = choose|k: int| 0 <= k < g.len() && (#[trigger] g[k]).0 == name && engine_counter(g[k].1, w) is Some;
        if k < f.len() {
            assert(g[k] == f[k]);
        }
    }
    if f.len() > 0 {
        lemma_counter_push(f.drop_last(), f.last(), name, w);
        assert(f.drop_last().push(f.last()) =~= f);
    }
}

proof fn lemma_merge_engine_accounts(
    es: Seq<(Seq<char>, AggEngine)>,
    f: Seq<(Seq<char>, ParsedEngine)>,
    name: Seq<char>,
    e: ParsedEngine,
)
    requires
        accounts_for(es, f),
    ensures
        accounts_for(merge_engine_spec(es, name, e), f.push((name, e))),
{
    let r = merge_engine_spec(es, name, e);
    let g = f.push((name, e));
    lemma_first_index_props(es, name);
    assert forall|j: int, w: int|
        #![trigger agg_counter(r[j].1, w)]
        0 <= j < r.len() implies agg_counter(r[j].1, w).0 == cap_u64(counter_total(g, r[j].0, w))
            && agg_counter(r[j].1, w).1 == counter_reported(g, r[j].0, w) by {
        lemma_counter_push(f, (name, e), r[j].0, w);
        match first_index(es, name) {
            Some(x) => {
                if j != x {
                    assert(r[j] == es[j]);
                    assert(agg_counter(es[j].1, w).0 == cap_u64(counter_total(f, es[j].0, w)));
                    assert(agg_counter(es[j].1, w).1 == counter_reported(f, es[j].0, w));
                } else {
                    assert(agg_counter(es[j].1, w).0 == cap_u64(counter_total(f, es[j].0, w)));
                    assert(agg_counter(es[j].1, w).1 == counter_reported(f, es[j].0, w));
                }
            },
            None => {
                if j < es.len() {
                    assert(r[j] == es[j]);
                    assert(agg_counter(es[j].1, w).0 == cap_u64(counter_total(f, es[j].0, w)));
                    assert(agg_counter(es[j].1, w).1 == counter_reported(f, es[j].0, w));
                } else {
                    assert forall|k: int| 0 <= k < f.len() implies (#[trigger] f[k]).0 != name by {
                        if f[k].0 == name {
                            let m = choose|m: int| 0 <= m < es.len() && (#[trigger] es[m]).0 == f[k].0;
                        }
                    }
                    lemma_counter_absent(f, name, w);
                }
            },
        }
    }
    assert forall|a: int, b: int| 0 <= a < b < r.len() implies (#[trigger] r[a]).0 != (#[trigger] r[b]).0 by {
        match first_index(es, name) {
            Some(x) => {
                assert(r[a].0 == es[a].0 && r[b].0 == es[b].0);
            },
            None => {
                assert(r[a].0 == es[a].0);
                if b < es.len() {
                    assert(r[b].0 == es[b].0);
                }
            },
        }
    }
    assert forall|k: int|
        #![trigger g[k]]
        0 <= k < g.len() implies exists|j: int| #![trigger r[j]] 0 <= j < r.len() && r[j].0 == g[k].0 by {
        match first_index(es, name) {
            Some(x) => {
                if k < f.len() {
                    assert(g[k] == f[k]);
                    let m = choose|m: int| 0 <= m < es.len() && (#[trigger] es[m]).0 == f[k].0;
                    assert(r[m].0 == es[m].0);
                } else {
                    assert(r[x].0 == name);
                }
            },
            None => {
                if k < f.len() {
                    assert(g[k] == f[k]);
                    let m = choose|m: int| 0 <= m < es.len() && (#[trigger] es[m]).0 == f[k].0;
                    assert(r[m].0 == es[m].0);
                } else {
                    assert(r[es.len() as int].0 == name);
                }
            },
        }
    }
}

proof fn lemma_merge_engines_accounts(
    es: Seq<(Seq<char>, AggEngine)>,
    f: Seq<(Seq<char>, ParsedEngine)>,
    fes: Seq<(Seq<char>, ParsedEngine)>,
)
    requires
        accounts_for(es, f),
    ensures
        accounts_for(merge_engines_spec(es, fes), f + fes),
    decreases fes.len(),
{
    if fes.len() > 0 {
        lemma_merge_engines_accounts(es, f, fes.drop_last());
        lemma_merge_engine_accounts(merge_engines_spec(es, fes.drop_last()), f + fes.drop_last(), fes.last().0, fes.last().1);
        assert((f + fes.drop_last()).push(fes.last()) =~= f + fes);
    } else {
        assert(f + fes =~= f);
    }
}

proof fn lemma_device_engines_absent(fds: Seq<ParsedFdModel>, bdf: Seq<char>)
    requires
        forall|k: int| 0 <= k < fds.len() ==> (#[trigger] fds[k]).0 != bdf,
    ensures
        device_engines(fds, bdf) == Seq::<(Seq<char>, ParsedEngine)>::empty(),
    decreases fds.len(),
{
    if fds.len() > 0 {
        let init = fds.drop_last();
        assert forall|k: int| 0 <= k < init.len() implies (#[trigger] init[k]).0 != bdf by {
            assert(init[k] == fds[k]);
        }
        lemma_device_engines_absent(init, bdf);
        assert(fds[fds.len() - 1] == fds.last());
        assert(device_engines(fds, bdf) =~= seq![]);
    }
}

proof fn lemma_aggregate_accounts(fds: Seq<ParsedFdModel>)
    ensures
        forall|i: int|
            0 <= i < aggregate_spec(fds).len() ==> accounts_for(
                (#[trigger] aggregate_spec(fds)[i]).1.4,
                device_engines(fds, aggregate_spec(fds)[i].0),
            ),
    decreases fds.len(),
{
    if fds.len() > 0 {
        let init = fds.drop_last();
        let fd = fds.last();
        let gs = aggregate_spec(init);
        let r = aggregate_spec(fds);
        lemma_aggregate_accounts(init);
        lemma_agg_distinct(init);
        lemma_agg_covers(init);
        lemma_first_index_props(gs, fd.0);
        assert forall|i: int| 0 <= i < r.len() implies accounts_for(
            (#[trigger] r[i]).1.4,
            device_engines(fds, r[i].0),
        ) by {
            match first_index(gs, fd.0) {
                Some(x) => {
                    if i == x {
                        assert(device_engines(fds, fd.0) == device_engines(init, fd.0) + fd.2);
                        lemma_merge_engines_accounts(gs[x].1.4, device_engines(init, fd.0), fd.2);
                    } else {
                        assert(r[i] == gs[i]);
                        assert(gs[i].0 != fd.0);
                        assert(device_engines(fds, gs[i].0) =~= device_engines(init, gs[i].0));
                    }
                },
                None => {
                    if i < gs.len() {
                        assert(r[i] == gs[i]);
                        assert(device_engines(fds, gs[i].0) =~= device_engines(init, gs[i].0));
                    } else {
                        assert forall|k: int| 0 <= k < init.len() implies (#[trigger] init[k]).0 != fd.0 by {
                            if init[k].0 == fd.0 {
                                let m = choose|m: int| 0 <= m < gs.len() && (#[trigger] gs[m]).0 == (#[trigger] init[k]).0;
                            }
                        }
                        lemma_device_engines_absent(init, fd.0);
                        let e0 = Seq::<(Seq<char>, AggEngine)>::empty();
                        let f0 = Seq::<(Seq<char>, ParsedEngine)>::empty();
                        assert(accounts_for(e0, f0));
                        lemma_merge_engines_accounts(e0, f0, fd.2);
                        assert(f0 + fd.2 =~= fd.2);
                        assert(device_engines(fds, fd.0) =~= fd.2);
                    }
                },
            }
        }
    }
}

/// A process's engine counters add up per device: for every aggregated
/// device and engine, each counter (busy nanoseconds, busy cycles, total
/// cycles) is the saturating sum of that counter over every entry for the
/// engine in every fd to the device, and counts as reported exactly when
/// some such entry reports it. Each engine name occurs once per device, and
/// every engine named by an fd to the device is there.
pub proof fn law_engine_counters_sum_over_fds(fds: Seq<ParsedFdModel>)
    ensures
        forall|i: int, j: int, w: int|
            #![trigger agg_counter(aggregate_spec(fds)[i].1.4[j].1, w)]
            0 <= i < aggregate_spec(fds).len() && 0 <= j < aggregate_spec(fds)[i].1.4.len() ==> {
                &&& agg_counter(aggregate_spec(fds)[i].1.4[j].1, w).0 == cap_u64(
                    counter_total(device_engines(fds, aggregate_spec(fds)[i].0), aggregate_spec(fds)[i].1.4[j].0, w),
                )
                &&& agg_counter(aggregate_spec(fds)[i].1.4[j].1, w).1 == counter_reported(
                    device_engines(fds, aggregate_spec(fds)[i].0),
                    aggregate_spec(fds)[i].1.4[j].0,
                    w,
                )
            },
        forall|i: int, a: int, b: int|
            #![trigger aggregate_spec(fds)[i].1.4[a], aggregate_spec(fds)[i].1.4[b]]
            0 <= i < aggregate_spec(fds).len() && 0 <= a < b < aggregate_spec(fds)[i].1.4.len()
                ==> aggregate_spec(fds)[i].1.4[a].0 != aggregate_spec(fds)[i].1.4[b].0,
        forall|i: int, k: int|
            #![trigger device_engines(fds, aggregate_spec(fds)[i].0)[k]]
            0 <= i < aggregate_spec(fds).len() && 0 <= k < device_engines(fds, aggregate_spec(fds)[i].0).len()
                ==> has_engine(aggregate_spec(fds)[i].1.4, device_engines(fds, aggregate_spec(fds)[i].0)[k].0),
{
    lemma_aggregate_accounts(fds);
    let r = aggregate_spec(fds);
    assert forall|i: int, j: int, w: int|
        #![trigger agg_counter(r[i].1.4[j].1, w)]
        0 <= i < r.len() && 0 <= j < r[i].1.4.len() implies {
            &&& agg_counter(r[i].1.4[j].1, w).0 == cap_u64(counter_total(device_engines(fds, r[i].0), r[i].1.4[j].0, w))
            &&& agg_counter(r[i].1.4[j].1, w).1 == counter_reported(device_engines(fds, r[i].0), r[i].1.4[j].0, w)
        } by {
        assert(accounts_for(r[i].1.4, device_engines(fds, r[i].0)));
    }
    assert forall|i: int, a: int, b: int|
        #![trigger r[i].1.4[a], r[i].1.4[b]]
        0 <= i < r.len() && 0 <= a < b < r[i].1.4.len() implies r[i].1.4[a].0 != r[i].1.4[b].0 by {
        assert(accounts_for(r[i].1.4, device_engines(fds, r[i].0)));
    }
    assert forall|i: int, k: int|
        #![trigger device_engines(fds, aggregate_spec(fds)[i].0)[k]]
        0 <= i < aggregate_spec(fds).len() && 0 <= k < device_engines(fds, aggregate_spec(fds)[i].0).len()
            implies has_engine(aggregate_spec(fds)[i].1.4, device_engines(fds, aggregate_spec(fds)[i].0)[k].0) by {
        let es = r[i].1.4;
        let f = device_engines(fds, r[i].0);
        assert(accounts_for(es, f));
        assert(f[k] == f[k]);
        let j = choose|j: int| #![trigger es[j]] 0 <= j < es.len() && es[j].0 == f[k].0;
        assert(es[j].0 == f[k].0);
    }
}

/// `c` is the largest capacity that an entry of `f` named `name` reports,
/// and `None` when none reports one.
pub open spec fn capacity_ok(c: Option<u32>, f: Seq<(Seq<char>, ParsedEngine)>, name: Seq<char>) -> bool {
    &&& (c is None) == !(exists|k: int|
        0 <= k < f.len() && (#[trigger] f[k]).0 == name && f[k].1.capacity is Some)
    &&& c is Some ==> (forall|k: int|
        0 <= k < f.len() && (#[trigger] f[k]).0 == name && f[k].1.capacity is Some ==> f[k].1.capacity->0
            <= c->0) && exists|k: int| 0 <= k < f.len() && (#[trigger] f[k]).0 == name && f[k].1.capacity == c
}

/// Every accumulator in `es` holds the largest capacity reported for its
/// engine in `f`.
pub open spec fn capacities_for(es: Seq<(Seq<char>, AggEngine)>, f: Seq<(Seq<char>, ParsedEngine)>) -> bool {
    forall|j: int| 0 <= j < es.len() ==> capacity_ok((#[trigger] es[j]).1.capacity, f, es[j].0)
}

proof fn lemma_capacity_push(c: Option<u32>, f: Seq<(Seq<char>, ParsedEngine)>, n: Seq<char>, x: (Seq<char>, ParsedEngine))
    requires
        capacity_ok(c, f, n),
    ensures
        capacity_ok(
            if x.0 == n {
                match x.1.capacity {
                    Some(v) => Some(
                        match c {
                            Some(y) => if y >= v {
                                y
                            } else {
                                v
                            },
                            None => v,
                        },
                    ),
                    None => c,
                }
            } else {
                c
            },
            f.push(x),
            n,
        ),
{
    let g = f.push(x);
    assert(g[f.len() as int] == x);
    assert forall|k: int| 0 <= k < f.len() implies #[trigger] g[k] == f[k] by {}
    if exists|k: int| 0 <= k < f.len() && (#[trigger] f[k]).0 == n && f[k].1.capacity is Some {
        let k = choose|k: int| 0 <= k < f.len() && (#[trigger] f[k]).0 == n && f[k].1.capacity is Some;
        assert(g[k] == f[k]);
    }
    if c is Some {
        let k = choose|k: int| 0 <= k < f.len() && (#[trigger] f[k]).0 == n && f[k].1.capacity == c;
        assert(g[k] == f[k]);
    }
    if exists|k: int| 0 <= k < g.len() && (#[trigger] g[k]).0 == n && g[k].1.capacity is Some {
        let k = choose|k: int| 0 <= k < g.len() && (#[trigger] g[k]).0 == n && g[k].1.capacity is Some;
        if k < f.len() {
            assert(g[k] == f[k]);
        }
    }
}

proof fn lemma_merge_engine_capacities(
    es: Seq<(Seq<char>, AggEngine)>,
    f: Seq<(Seq<char>, ParsedEngine)>,
    name: Seq<char>,
    e: ParsedEngine,
)
    requires
        accounts_for(es, f),
        capacities_for(es, f),
    ensures
        capacities_for(merge_engine_spec(es, name, e), f.push((name, e))),
{
    let r = merge_engine_spec(es, name, e);
    lemma_first_index_props(es, name);
    assert forall|j: int| 0 <= j < r.len() implies capacity_ok((#[trigger] r[j]).1.capacity, f.push((name, e)), r[j].0) by {
        match first_index(es, name) {
            Some(x) => {
                assert(capacity_ok(es[j].1.capacity, f, es[j].0));
                lemma_capacity_push(es[j].1.capacity, f, es[j].0, (name, e));
                if j != x {
                    assert(r[j] == es[j]);
                }
            },
            None => {
                if j < es.len() {
                    assert(r[j] == es[j]);
                    assert(capacity_ok(es[j].1.capacity, f, es[j].0));
                    lemma_capacity_push(es[j].1.capacity, f, es[j].0, (name, e));
                } else {
                    assert forall|k: int| 0 <= k < f.len() implies (#[trigger] f[k]).0 != name by {
                        if f[k].0 == name {
                            let m = choose|m: int| #![trigger es[m]] 0 <= m < es.len() && es[m].0 == f[k].0;
                        }
                    }
                    assert(capacity_ok(None, f, name));
                    lemma_capacity_push(None, f, name, (name, e));
                    assert(r[j] == (name, merge_agg(empty_agg(), e)));
                }
            },
        }
    }
}

proof fn lemma_merge_engines_capacities(
    es: Seq<(Seq<char>, AggEngine)>,
    f: Seq<(Seq<char>, ParsedEngine)>,
    fes: Seq<(Seq<char>, ParsedEngine)>,
)
    requires
        accounts_for(es, f),
        capacities_for(es, f),
    ensures
        capacities_for(merge_engines_spec(es, fes), f + fes),
    decreases fes.len(),
{
    if fes.len() > 0 {
        lemma_merge_engines_capacities(es, f, fes.drop_last());
        lemma_merge_engines_accounts(es, f, fes.drop_last());
        lemma_merge_engine_capacities(merge_engines_spec(es, fes.drop_last()), f + fes.drop_last(), fes.last().0, fes.last().1);
        assert((f + fes.drop_last()).push(fes.last()) =~= f + fes);
    } else {
        assert(f + fes =~= f);
    }
}

proof fn lemma_aggregate_capacities(fds: Seq<ParsedFdModel>)
    ensures
        forall|i: int|
            0 <= i < aggregate_spec(fds).len() ==> capacities_for(
                (#[trigger] aggregate_spec(fds)[i]).1.4,
                device_engines(fds, aggregate_spec(fds)[i].0),
            ),
    decreases fds.len(),
{
    if fds.len() > 0 {
        let init = fds.drop_last();
        let fd = fds.last();
        let gs = aggregate_spec(init);
        let r = aggregate_spec(fds);
        lemma_aggregate_capacities(init);
        lemma_aggregate_accounts(init);
        lemma_agg_distinct(init);
        lemma_agg_covers(init);
        lemma_first_index_props(gs, fd.0);
        assert forall|i: int| 0 <= i < r.len() implies capacities_for(
            (#[trigger] r[i]).1.4,
            device_engines(fds, r[i].0),
        ) by {
            match first_index(gs, fd.0) {
                Some(x) => {
                    if i == x {
                        assert(device_engines(fds, fd.0) == device_engines(init, fd.0) + fd.2);
                        lemma_merge_engines_capacities(gs[x].1.4, device_engines(init, fd.0), fd.2);
                    } else {
                        assert(r[i] == gs[i]);
                        assert(gs[i].0 != fd.0);
                        assert(device_engines(fds, gs[i].0) =~= device_engines(init, gs[i].0));
                    }
                },
                None => {
                    if i < gs.len() {
                        assert(r[i] == gs[i]);
                        assert(device_engines(fds, gs[i].0) =~= device_engines(init, gs[i].0));
                    } else {
                        let e0 = Seq::<(Seq<char>, AggEngine)>::empty();
                        let f0 = Seq::<(Seq<char>, ParsedEngine)>::empty();
                        assert(accounts_for(e0, f0));
                        assert(capacities_for(e0, f0));
                        lemma_merge_engines_capacities(e0, f0, fd.2);
                        assert(f0 + fd.2 =~= fd.2);
                        assert forall|k: int| 0 <= k < init.len() implies (#[trigger] init[k]).0 != fd.0 by {
                            if init[k].0 == fd.0 {
                                let m = choose|m: int| 0 <= m < gs.len() && (#[trigger] gs[m]).0 == (#[trigger] init[k]).0;
                            }
                        }
                        lemma_device_engines_absent(init, fd.0);
                        assert(device_engines(fds, fd.0) =~= fd.2);
                    }
                },
            }
        }
    }
}

/// Each engine of a device a process uses is reported with the largest
/// capacity that any of the process's fds to the device reports for it, and
/// with none when no fd reports one.
pub proof fn law_engine_capacity_is_largest(fds: Seq<ParsedFdModel>)
    ensures
        forall|i: int, j: int|
            #![trigger aggregate_spec(fds)[i].1.4[j]]
            0 <= i < aggregate_spec(fds).len() && 0 <= j < aggregate_spec(fds)[i].1.4.len() ==> capacity_ok(
                aggregate_spec(fds)[i].1.4[j].1.capacity,
                device_engines(fds, aggregate_spec(fds)[i].0),
                aggregate_spec(fds)[i].1.4[j].0,
            ),
{
    lemma_aggregate_capacities(fds);
    let r = aggregate_spec(fds);
    assert forall|i: int, j: int|
        #![trigger r[i].1.4[j]]
        0 <= i < r.len() && 0 <= j < r[i].1.4.len() implies capacity_ok(
            r[i].1.4[j].1.capacity,
            device_engines(fds, r[i].0),
            r[i].1.4[j].0,
        ) by {
        assert(capacities_for(r[i].1.4, device_engines(fds, r[i].0)));
    }
}

/// The fds to the device `bdf`, in fd order.
pub open spec fn device_fds(fds: Seq<ParsedFdModel>, bdf: Seq<char>) -> Seq<ParsedFdModel>
    decreases fds.len(),
{
    if fds.len() == 0 {
        seq![]
    } else if fds.last().0 == bdf {
        device_fds(fds.drop_last(), bdf).push(fds.last())
    } else {
        device_fds(fds.drop_last(), bdf)
    }
}

proof fn lemma_device_fds_absent(fds: Seq<ParsedFdModel>, bdf: Seq<char>)
    requires
        forall|k: int| 0 <= k < fds.len() ==> (#[trigger] fds[k]).0 != bdf,
    ensures
        device_fds(fds, bdf).len() == 0,
    decreases fds.len(),
{
    if fds.len() > 0 {
        let init = fds.drop_last();
        assert forall|k: int| 0 <= k < init.len() implies (#[trigger] init[k]).0 != bdf by {
            assert(init[k] == fds[k]);
        }
        lemma_device_fds_absent(init, bdf);
        assert(fds[fds.len() - 1] == fds.last());
    }
}

/// Sum of the resident (`which == 0`) or total bytes of `fds`.
pub open spec fn bytes_total(fds: Seq<ParsedFdModel>, which: int) -> int
    decreases fds.len(),
{
    if fds.len() == 0 {
        0
    } else {
        bytes_total(fds.drop_last(), which) + if which == 0 {
            fds.last().3 as int
        } else {
            fds.last().4 as int
        }
    }
}

proof fn lemma_bytes_total_nonneg(fds: Seq<ParsedFdModel>, which: int)
    ensures
        bytes_total(fds, which) >= 0,
    decreases fds.len(),
{
    if fds.len() > 0 {
        lemma_bytes_total_nonneg(fds.drop_last(), which);
    }
}

proof fn lemma_aggregate_devices(fds: Seq<ParsedFdModel>)
    ensures
        forall|i: int|
            0 <= i < aggregate_spec(fds).len() ==> {
                let d = device_fds(fds, #[trigger] aggregate_spec(fds)[i].0);
                &&& d.len() > 0
                &&& aggregate_spec(fds)[i].1.0 == d[0].1
                &&& aggregate_spec(fds)[i].1.1 == if d.len() > u32::MAX { u32::MAX as int } else { d.len() as int }
                &&& aggregate_spec(fds)[i].1.2 == cap_u64(bytes_total(d, 0))
                &&& aggregate_spec(fds)[i].1.3 == cap_u64(bytes_total(d, 1))
            },
    decreases fds.len(),
{
    if fds.len() > 0 {
        let init = fds.drop_last();
        let fd = fds.last();
        let gs = aggregate_spec(init);
        let r = aggregate_spec(fds);
        lemma_aggregate_devices(init);
        lemma_agg_distinct(init);
        lemma_agg_covers(init);
        lemma_first_index_props(gs, fd.0);
        assert forall|i: int| 0 <= i < r.len() implies {
            let d = device_fds(fds, #[trigger] r[i].0);
            &&& d.len() > 0
            &&& r[i].1.0 == d[0].1
            &&& r[i].1.1 == if d.len() > u32::MAX { u32::MAX as int } else { d.len() as int }
            &&& r[i].1.2 == cap_u64(bytes_total(d, 0))
            &&& r[i].1.3 == cap_u64(bytes_total(d, 1))
        } by {
            let b = r[i].0;
            let d0 = device_fds(init, b);
            let d = device_fds(fds, b);
            if fd.0 == b {
                assert(d == d0.push(fd));
                assert(d.drop_last() =~= d0);
                assert(d.last() == fd);
                lemma_bytes_total_nonneg(d0, 0);
                lemma_bytes_total_nonneg(d0, 1);
                assert(bytes_total(d, 0) == bytes_total(d0, 0) + fd.3);
                assert(bytes_total(d, 1) == bytes_total(d0, 1) + fd.4);
                match first_index(gs, fd.0) {
                    Some(x) => {
                        if i != x {
                            assert(r[i] == gs[i]);
                        }
                        assert(i == x) by {
                            if i != x {
                                assert(r[i] == gs[i]);
                            }
                        }
                        assert(gs[x].0 == b);
                        assert(d[0] == d0[0]);
                        assert(r[x] == (fd.0, merge_fd(gs[x].1, fd)));
                    },
                    None => {
                        if i < gs.len() {
                            assert(r[i] == gs[i]);
                        }
                        assert(i == gs.len());
                        assert forall|k: int| 0 <= k < init.len() implies (#[trigger] init[k]).0 != b by {
                            if init[k].0 == b {
                                let m = choose|m: int| 0 <= m < gs.len() && (#[trigger] gs[m]).0 == (#[trigger] init[k]).0;
                            }
                        }
                        lemma_device_fds_absent(init, b);
                        assert(d =~= seq![fd]);
                        assert(bytes_total(d0, 0) == 0 && bytes_total(d0, 1) == 0);
                        assert(r[i] == (fd.0, merge_fd((fd.1, 0, 0, 0, seq![]), fd)));
                    },
                }
            } else {
                match first_index(gs, fd.0) {
                    Some(x) => {
                        if i == x {
                            assert(r[i].0 == fd.0);
                        }
                        assert(r[i] == gs[i]);
                    },
                    None => {
                        if i == gs.len() {
                            assert(r[i].0 == fd.0);
                        }
                        assert(r[i] == gs[i]);
                    },
                }
            }
        }
    }
}

/// Each device a process uses is reported with the driver of its first fd,
/// one client per fd to it (saturating at `u32::MAX`), and the saturating
/// sums of those fds' resident and total bytes.
pub proof fn law_device_totals_over_fds(fds: Seq<ParsedFdModel>)
    ensures
        forall|i: int|
            0 <= i < aggregate_spec(fds).len() ==> {
                let d = device_fds(fds, #[trigger] aggregate_spec(fds)[i].0);
                &&& d.len() > 0
                &&& aggregate_spec(fds)[i].1.0 == d[0].1
                &&& aggregate_spec(fds)[i].1.1 == if d.len() > u32::MAX { u32::MAX as int } else { d.len() as int }
                &&& aggregate_spec(fds)[i].1.2 == cap_u64(bytes_total(d, 0))
                &&& aggregate_spec(fds)[i].1.3 == cap_u64(bytes_total(d, 1))
            },
{
    lemma_aggregate_devices(fds);
}

fn merge_fd_exec(g: &mut AggGpu, fd: &ParsedFd)
    ensures
        agg_gpu_view(*final(g)) == merge_fd(agg_gpu_view(*old(g)), parsed_fd_view(*fd)),
{
    if g.client_count < u32::MAX {
        g.client_count = g.client_count + 1;
    }
    g.resident = sat_add_exec(g.resident, fd.resident);
    g.total = sat_add_exec(g.total, fd.total);
    let ghost start = keyed_view(g.engines@);
    let ghost fe = engines_view(fd.engines@);
    let ghost g1 = *g;
    assert(fe =~= parsed_fd_view(*fd).2);
    for j in 0..fd.engines.len()
        invariant
            fe == engines_view(fd.engines@),
            keyed_view(g.engines@) == merge_engines_spec(start, fe.take(j as int)),
            g.driver == g1.driver,
            g.client_count == g1.client_count,
            g.resident == g1.resident,
            g.total == g1.total,
    {
        assert(fe.take(j + 1).drop_last() =~= fe.take(j as int));
        assert(fe.take(j + 1).last() == (fd.engines@[j as int].0@, fd.engines@[j as int].1));
        let name = chars_of(fd.engines[j].0.as_str());
        merge_engine(&mut g.engines, name.as_slice(), &fd.engines[j].1);
    }
    assert(fe.take(fd.engines@.len() as int) =~= fe);
}

/// Aggregate parsed fds per PCI BDF, in order of first appearance.
pub fn aggregate_fds(fds: &Vec<ParsedFd>) -> (r: Vec<(Vec<char>, AggGpu)>)
    ensures
        aggs_view(r@) == aggregate_spec(fds_view(fds@)),
{
    let ghost fv = fds_view(fds@);
    let mut out: Vec<(Vec<char>, AggGpu)> = Vec::new();
    assert(aggs_view(out@) =~= seq![]);
    for i in 0..fds.len()
        invariant
            fv == fds_view(fds@),
            aggs_view(out@) == aggregate_spec(fv.take(i as int)),
    {
        assert(fv.take(i + 1).drop_last() =~= fv.take(i as int));
        assert(fv.take(i + 1).last() == parsed_fd_view(fds@[i as int]));
        let ghost before = aggs_view(out@);
        let fd = &fds[i];
        let bdf = chars_of(fd.bdf.as_str());
        let ghost kv = keyed_view(out@);
        proof {
            assert forall|j: int| 0 <= j < kv.len() implies (#[trigger] kv[j]).0 == before[j].0 by {}
            lemma_first_index_props(kv, bdf@);
            lemma_first_index_props(before, bdf@);
            match first_index(kv, bdf@) {
                Some(j) => {
                    assert forall|jj: int| 0 <= jj < j implies (#[trigger] before[jj]).0 != bdf@ by {
                        assert(kv[jj].0 == before[jj].0);
                    }
                    assert(kv[j].0 == before[j].0);
                    lemma_first_index_at(before, bdf@, j);
                },
                None => {
                    assert forall|jj: int| 0 <= jj < before.len() implies (#[trigger] before[jj]).0
                        != bdf@ by {
                        assert(kv[jj].0 == before[jj].0);
                    }
                    lemma_first_index_none(before, bdf@);
                },
            }
        }
        match find_keyed(&out, bdf.as_slice()) {
            Some(j) => {
                let (k, mut g) = out.remove(j);
                merge_fd_exec(&mut g, fd);
                out.insert(j, (k, g));
                assert(aggs_view(out@) =~= before.update(
                    j as int,
                    (bdf@, merge_fd(before[j as int].1, parsed_fd_view(*fd))),
                ));
            },
            None => {
                let mut g = AggGpu {
                    driver: fd.driver.clone(),
                    client_count: 0,
                    resident: 0,
                    total: 0,
                    engines: Vec::new(),
                };
                assert(agg_gpu_view(g) =~= (fd.driver@, 0u32, 0u64, 0u64, seq![]));
                merge_fd_exec(&mut g, fd);
                out.push((bdf, g));
                assert(aggs_view(out@) =~= before.push(
                    (fd.bdf@, merge_fd((fd.driver@, 0u32, 0u64, 0u64, seq![]), parsed_fd_view(*fd))),
                ));
            },
        }
    }
    assert(fv.take(fds@.len() as int) =~= fv);
    out
}


// ---------------------------------------------------------------------------
// Reading a process's DRM fds
// ---------------------------------------------------------------------------

pub open spec fn fdinfo_dir(pid: u32) -> Seq<char> {
    "/proc/"@ + crate::text::dec_repr(pid as nat) + "/fdinfo"@
}

/// The parsed fdinfo behind fd entry `e` of process `pid`, when the fd is a
/// symlink into `/dev/dri/` whose fdinfo names a PCI device.
pub open spec fn drm_fd_of<S: Sys>(sys: &S, pid: u32, e: EntryModel) -> Option<ParsedFdModel> {
    if e.2 {
        None
    } else {
        match sys.spec_link(path_join(fd_dir(pid), e.0)) {
            Some(t) => if starts_with(t, "/dev/dri/"@) {
                match sys.spec_file(path_join(fdinfo_dir(pid), e.0)) {
                    Some(info) => parse_fdinfo_spec(info),
                    None => None,
                }
            } else {
                None
            },
            None => None,
        }
    }
}

pub open spec fn drm_fds_from<S: Sys>(sys: &S, pid: u32, es: Seq<EntryModel>) -> Seq<
    ParsedFdModel,
>
    decreases es.len(),
{
    if es.len() == 0 {
        seq![]
    } else {
        let rest = drm_fds_from(sys, pid, es.drop_last());
        match drm_fd_of(sys, pid, es.last()) {
            Some(fd) => rest.push(fd),
            None => rest,
        }
    }
}

/// The process's DRM fds, in fd listing order.
pub open spec fn drm_fds_spec<S: Sys>(sys: &S, pid: u32) -> Seq<ParsedFdModel> {
    match sys.spec_dir(fd_dir(pid)) {
        Some(es) => drm_fds_from(sys, pid, es),
        None => seq![],
    }
}

fn fdinfo_dir_exec(pid: u32) -> (r: Vec<char>)
    ensures
        r@ == fdinfo_dir(pid),
{
    let mut v = chars_of("/proc/");
    crate::text::push_dec(&mut v, pid as u64);
    crate::text::append_str(&mut v, "/fdinfo");
    v
}

fn drm_fd_exec<S: Sys>(sys: &S, pid: u32, fd_dir_v: &Vec<char>, info_dir_v: &Vec<char>, e: &SysEntry) -> (r: Option<ParsedFd>)
    requires
        fd_dir_v@ == fd_dir(pid),
        info_dir_v@ == fdinfo_dir(pid),
    ensures
        match r {
            Some(p) => drm_fd_of(sys, pid, e@) == Some(parsed_fd_view(p)),
            None => drm_fd_of(sys, pid, e@) is None,
        },
{
    if e.is_dir {
        return None;
    }
    let link = join_str(fd_dir_v.as_slice(), e.name.as_str());
    let target = match sys.symlink_target(link.as_str()) {
        Some(t) => t,
        None => return None,
    };
    let tv = chars_of(target.as_str());
    if !starts_with_str(tv.as_slice(), "/dev/dri/") {
        return None;
    }
    let info_path = join_str(info_dir_v.as_slice(), e.name.as_str());
    match sys.read_to_string(info_path.as_str()) {
        Some(info) => parse_fdinfo(info.as_str()),
        None => None,
    }
}

/// Parse every DRM fd the process `pid` holds.
pub fn read_drm_fds<S: Sys>(sys: &S, pid: u32) -> (r: Vec<ParsedFd>)
    ensures
        fds_view(r@) == drm_fds_spec(sys, pid),
{
    let mut out: Vec<ParsedFd> = Vec::new();
    assert(fds_view(out@) =~= seq![]);
    let dir = fd_dir_exec(pid);
    let info_dir = fdinfo_dir_exec(pid);
    let dir_s = string_of(dir.as_slice());
    let entries = match sys.read_dir(dir_s.as_str()) {
        Some(es) => es,
        None => return out,
    };
    let ghost ev = entries_view(entries@);
    for i in 0..entries.len()
        invariant
            ev == entries_view(entries@),
            dir@ == fd_dir(pid),
            info_dir@ == fdinfo_dir(pid),
            sys.spec_dir(fd_dir(pid)) == Some(ev),
            fds_view(out@) == drm_fds_from(sys, pid, ev.take(i as int)),
    {
        assert(ev.take(i + 1).drop_last() =~= ev.take(i as int));
        assert(ev.take(i + 1).last() == entries@[i as int]@);
        if let Some(fd) = drm_fd_exec(sys, pid, &dir, &info_dir, &entries[i]) {
            let ghost before = fds_view(out@);
            out.push(fd);
            assert(fds_view(out@) =~= before.push(parsed_fd_view(fd)));
        }
    }
    assert(ev.take(entries@.len() as int) =~= ev);
    out
}


// ---------------------------------------------------------------------------
// Utilization between samples
// ---------------------------------------------------------------------------

/// Counters of one engine at one sample, the baseline for the next.
#[derive(Clone, Copy, Debug, PartialEq, Eq)]
pub struct EngineCounter {
    pub busy_ns: Option<u64>,
    pub cycles_busy: Option<u64>,
    pub cycles_total: Option<u64>,
    /// Monotonic sample time, nanoseconds.
    pub sampled_at_ns: u64,
}

/// Which engine of which device of which process a counter belongs to.
pub struct EngineKey {
    pub identity: ProcessIdentity,
    pub bdf: String,
    pub engine: String,
}

pub type EngineKeyModel = (ProcessIdentity, Seq<char>, Seq<char>);

pub type CountersModel = Seq<(EngineKeyModel, EngineCounter)>;

pub open spec fn counters_view(v: Seq<(EngineKey, EngineCounter)>) -> CountersModel {
    v.map_values(|p: (EngineKey, EngineCounter)| ((p.0.identity, p.0.bdf@, p.0.engine@), p.1))
}

/// Prior engine counters used to compute utilization deltas between
/// samples.
pub struct DrmSamplerState {
    counters: Vec<(EngineKey, EngineCounter)>,
}

impl View for DrmSamplerState {
    type V = CountersModel;

    closed spec fn view(&self) -> CountersModel {
        counters_view(self.counters@)
    }
}

impl Default for DrmSamplerState {
    fn default() -> (r: Self)
        ensures
            r@ == Seq::<(EngineKeyModel, EngineCounter)>::empty(),
    {
        let r = DrmSamplerState { counters: Vec::new() };
        assert(r@ =~= Seq::<(EngineKeyModel, EngineCounter)>::empty());
        r
    }
}

/// The counters of processes in `live`, in their order.
pub open spec fn retain_spec(st: CountersModel, live: Seq<ProcessIdentity>) -> CountersModel
    decreases st.len(),
{
    if st.len() == 0 {
        st
    } else {
        let rest = retain_spec(st.drop_last(), live);
        if live.contains(st.last().0.0) {
            rest.push(st.last())
        } else {
            rest
        }
    }
}

/// Pruning keeps exactly the counters of live processes, in their order.
pub proof fn law_retain_keeps_live(st: CountersModel, live: Seq<ProcessIdentity>)
    ensures
        forall|i: int|
            0 <= i < retain_spec(st, live).len() ==> live.contains(
                (#[trigger] retain_spec(st, live)[i]).0.0,
            ),
        forall|e: (EngineKeyModel, EngineCounter)|
            #[trigger] st.contains(e) && live.contains(e.0.0) ==> retain_spec(st, live).contains(e),
        forall|e: (EngineKeyModel, EngineCounter)|
            #[trigger] retain_spec(st, live).contains(e) ==> st.contains(e),
    decreases st.len(),
{
    if st.len() > 0 {
        let init = st.drop_last();
        let x = st.last();
        law_retain_keeps_live(init, live);
        let rest = retain_spec(init, live);
        assert(st =~= init.push(x));
        assert forall|e: (EngineKeyModel, EngineCounter)|
            #[trigger] st.contains(e) && live.contains(e.0.0) implies retain_spec(st, live).contains(e) by {
            let k = choose|k: int| 0 <= k < st.len() && st[k] == e;
            if k < init.len() {
                assert(init[k] == e);
                assert(init.contains(e));
                assert(rest.contains(e));
                let m = choose|m: int| 0 <= m < rest.len() && rest[m] == e;
                if live.contains(x.0.0) {
                    assert(rest.push(x)[m] == e);
                }
            } else {
                assert(rest.push(x)[rest.len() as int] == e);
            }
        }
        assert forall|e: (EngineKeyModel, EngineCounter)|
            #[trigger] retain_spec(st, live).contains(e) implies st.contains(e) by {
            let r = retain_spec(st, live);
            let k = choose|k: int| 0 <= k < r.len() && r[k] == e;
            if k < rest.len() {
                assert(rest[k] == e);
                assert(rest.contains(e));
                assert(init.contains(e));
                let m = choose|m: int| 0 <= m < init.len() && init[m] == e;
                assert(st[m] == e);
            } else {
                assert(st[st.len() - 1] == e);
            }
        }
        assert forall|i: int| 0 <= i < retain_spec(st, live).len() implies live.contains(
            (#[trigger] retain_spec(st, live)[i]).0.0,
        ) by {
            if i < rest.len() {
                assert(retain_spec(st, live)[i] == rest[i]);
            }
        }
    }
}

/// Once a process is pruned, the next sample of any of its engines starts
/// afresh: it has no baseline, so it reports no utilization.
pub proof fn law_pruned_process_starts_afresh(
    st: CountersModel,
    live: Seq<ProcessIdentity>,
    key: EngineKeyModel,
    a: AggEngine,
    now_ns: u64,
)
    requires
        !live.contains(key.0),
    ensures
        get_keyed(retain_spec(st, live), key) is None,
        engine_step(retain_spec(st, live), key, a, now_ns).0 is None,
{
    law_retain_keeps_live(st, live);
    let r = retain_spec(st, live);
    assert forall|j: int| 0 <= j < r.len() implies (#[trigger] r[j]).0 != key by {
        assert(live.contains(r[j].0.0));
    }
    lemma_first_index_none(r, key);
}

fn identity_in(live: &[ProcessIdentity], id: ProcessIdentity) -> (r: bool)
    ensures
        r == live@.contains(id),
{
    for i in 0..live.len()
        invariant
            forall|j: int| 0 <= j < i ==> live@[j] != id,
    {
        if live[i].pid == id.pid && live[i].start_time == id.start_time {
            assert(live@[i as int] == id);
            return true;
        }
    }
    false
}

impl DrmSamplerState {
    /// Number of engine counters kept.
    pub fn len(&self) -> (r: usize)
        ensures
            r == self@.len(),
    {
        self.counters.len()
    }

    /// The baseline kept for one engine, if any.
    pub fn counter(&self, identity: ProcessIdentity, bdf: &str, engine: &str) -> (r: Option<
        EngineCounter,
    >)
        ensures
            r == get_keyed(self@, (identity, bdf@, engine@)),
    {
        proof {
            lemma_first_index_props(self@, (identity, bdf@, engine@));
        }
        match find_counter(&self.counters, identity, bdf, engine) {
            Some(i) => Some(self.counters[i].1),
            None => None,
        }
    }

    /// Drop counters for processes that no longer exist (exited or reused
    /// PIDs).
    pub fn retain(&mut self, live: &[ProcessIdentity])
        ensures
            final(self)@ == retain_spec(old(self)@, live@),
    {
        let ghost sv = self@;
        let mut kept: Vec<(EngineKey, EngineCounter)> = Vec::new();
        let n = self.counters.len();
        let mut old_counters: Vec<(EngineKey, EngineCounter)> = Vec::new();
        std::mem::swap(&mut old_counters, &mut self.counters);
        assert(counters_view(old_counters@) == sv);
        assert(counters_view(kept@) =~= retain_spec(sv.take(0), live@));
        let mut i: usize = 0;
        while i < n
            invariant
                n == old_counters@.len(),
                i <= n,
                sv == counters_view(old_counters@),
                counters_view(kept@) == retain_spec(sv.take(i as int), live@),
            decreases n - i,
        {
            assert(sv.take(i + 1).drop_last() =~= sv.take(i as int));
            assert(sv.take(i + 1).last() == sv[i as int]);
            let id = old_counters[i].0.identity;
            if identity_in(live, id) {
                let key = EngineKey {
                    identity: id,
                    bdf: old_counters[i].0.bdf.clone(),
                    engine: old_counters[i].0.engine.clone(),
                };
                let c = old_counters[i].1;
                let ghost before = counters_view(kept@);
                kept.push((key, c));
                assert(counters_view(kept@) =~= before.push(sv[i as int]));
            }
            i = i + 1;
        }
        assert(sv.take(n as int) =~= sv);
        self.counters = kept;
    }
}

fn key_matches(k: &EngineKey, identity: ProcessIdentity, bdf: &str, engine: &str) -> (r: bool)
    ensures
        r == ((k.identity, k.bdf@, k.engine@) == (identity, bdf@, engine@)),
{
    k.identity.pid == identity.pid && k.identity.start_time == identity.start_time
        && crate::text::str_eq(k.bdf.as_str(), bdf) && crate::text::str_eq(k.engine.as_str(), engine)
}

fn find_counter(
    v: &Vec<(EngineKey, EngineCounter)>,
    identity: ProcessIdentity,
    bdf: &str,
    engine: &str,
) -> (r: Option<usize>)
    ensures
        match r {
            Some(i) => first_index(counters_view(v@), (identity, bdf@, engine@)) == Some(i as int),
            None => first_index(counters_view(v@), (identity, bdf@, engine@)) is None,
        },
{
    let ghost cv = counters_view(v@);
    let ghost k = (identity, bdf@, engine@);
    let mut i: usize = 0;
    while i < v.len()
        invariant
            i <= v@.len(),
            cv == counters_view(v@),
            k == (identity, bdf@, engine@),
            forall|j: int| 0 <= j < i ==> (#[trigger] cv[j]).0 != k,
        decreases v@.len() - i,
    {
        if key_matches(&v[i].0, identity, bdf, engine) {
            proof {
                lemma_first_index_at(cv, k, i as int);
            }
            return Some(i);
        }
        i = i + 1;
    }
    proof {
        lemma_first_index_none(cv, k);
    }
    None
}

pub open spec fn sat_sub(a: u64, b: u64) -> u64 {
    if a >= b {
        (a - b) as u64
    } else {
        0
    }
}

/// Busy fraction `(busy delta, elapsed)` from cumulative busy nanoseconds
/// over elapsed wall time; a counter that read lower than before (kernel
/// reset) gives a zero delta. `None` without elapsed time.
pub open spec fn util_ns_spec(busy_now: u64, busy_prev: u64, elapsed_ns: u64) -> Option<(u64, u64)> {
    if elapsed_ns == 0 {
        None
    } else {
        Some((sat_sub(busy_now, busy_prev), elapsed_ns))
    }
}

/// Busy fraction `(busy delta, total delta)` from cycle counters (xe).
pub open spec fn util_cycles_spec(busy_now: u64, busy_prev: u64, total_now: u64, total_prev: u64) -> Option<
    (u64, u64),
> {
    let dt = sat_sub(total_now, total_prev);
    if dt == 0 {
        None
    } else {
        Some((sat_sub(busy_now, busy_prev), dt))
    }
}

/// Utilization as the fraction `busy / window` from busy nanoseconds over
/// elapsed wall time (percent is `100 * busy / window`).
pub fn utilization_ns(busy_now: u64, busy_prev: u64, elapsed_ns: u64) -> (r: Option<(u64, u64)>)
    ensures
        r == util_ns_spec(busy_now, busy_prev, elapsed_ns),
{
    if elapsed_ns == 0 {
        return None;
    }
    Some((busy_now.saturating_sub(busy_prev), elapsed_ns))
}

/// Utilization as the fraction `busy cycles / total cycles` (xe scheme).
pub fn utilization_cycles(busy_now: u64, busy_prev: u64, total_now: u64, total_prev: u64) -> (r:
    Option<(u64, u64)>)
    ensures
        r == util_cycles_spec(busy_now, busy_prev, total_now, total_prev),
{
    let delta_busy = busy_now.saturating_sub(busy_prev);
    let delta_total = total_now.saturating_sub(total_prev);
    if delta_total == 0 {
        return None;
    }
    Some((delta_busy, delta_total))
}

/// Utilization of an engine against its baseline: busy nanoseconds over
/// wall time when the driver reports them (and did before), else busy over
/// total cycles when both were reported before; `None` on the first sample.
pub open spec fn engine_util_spec(a: AggEngine, prev: Option<EngineCounter>, now_ns: u64) -> Option<
    (u64, u64),
> {
    match a.busy_ns_spec() {
        Some(busy) => match prev {
            Some(p) => match p.busy_ns {
                Some(pb) => util_ns_spec(busy, pb, sat_sub(now_ns, p.sampled_at_ns)),
                None => None,
            },
            None => None,
        },
        None => match (a.cycles_busy_spec(), a.cycles_total_spec()) {
            (Some(b), Some(t)) => match prev {
                Some(p) => match (p.cycles_busy, p.cycles_total) {
                    (Some(pb), Some(pt)) => util_cycles_spec(b, pb, t, pt),
                    _ => None,
                },
                None => None,
            },
            _ => None,
        },
    }
}

pub open spec fn counter_of(a: AggEngine, now_ns: u64) -> EngineCounter {
    EngineCounter {
        busy_ns: a.busy_ns_spec(),
        cycles_busy: a.cycles_busy_spec(),
        cycles_total: a.cycles_total_spec(),
        sampled_at_ns: now_ns,
    }
}

/// Utilization of one engine, with the counters after storing its new
/// baseline.
pub open spec fn engine_step(st: CountersModel, key: EngineKeyModel, a: AggEngine, now_ns: u64) -> (
    Option<(u64, u64)>,
    CountersModel,
) {
    (engine_util_spec(a, get_keyed(st, key), now_ns), set_keyed(st, key, counter_of(a, now_ns)))
}

/// An engine has no utilization on its first sample; each sample stores
/// its counters as the baseline the next sample of that engine is measured
/// against, and leaves the baselines of all other engines as they were.
pub proof fn law_engine_baseline(
    st: CountersModel,
    key: EngineKeyModel,
    other: EngineKeyModel,
    a1: AggEngine,
    t1: u64,
    a2: AggEngine,
    t2: u64,
)
    ensures
        get_keyed(st, key) is None ==> engine_step(st, key, a1, t1).0 is None,
        engine_step(engine_step(st, key, a1, t1).1, key, a2, t2).0 == engine_util_spec(
            a2,
            Some(counter_of(a1, t1)),
            t2,
        ),
        other != key ==> get_keyed(engine_step(st, key, a1, t1).1, other) == get_keyed(st, other),
{
    crate::order::lemma_get_set_same(st, key, counter_of(a1, t1));
    if other != key {
        crate::order::lemma_get_set_other(st, key, counter_of(a1, t1), other);
    }
}

/// Compute the utilization for one engine and store the new baseline.
/// `None` on the first sample (no prior baseline); the baseline is still
/// stored so the next sample can compute a delta.
pub fn engine_utilization(
    name: &str,
    identity: ProcessIdentity,
    bdf: &str,
    state: &mut DrmSamplerState,
    now_ns: u64,
    engine: &AggEngine,
) -> (r: Option<(u64, u64)>)
    ensures
        (r, final(state)@) == engine_step(old(state)@, (identity, bdf@, name@), *engine, now_ns),
{
    let ghost st = state@;
    let ghost key = (identity, bdf@, name@);
    proof {
        lemma_first_index_props(st, key);
    }
    let found = find_counter(&state.counters, identity, bdf, name);
    let prev: Option<EngineCounter> = match found {
        Some(i) => Some(state.counters[i].1),
        None => None,
    };
    assert(prev == get_keyed(st, key));
    let busy_now = engine.busy_ns_value();
    let cycles_busy_now = engine.cycles_busy_value();
    let cycles_total_now = engine.cycles_total_value();
    let utilization = match busy_now {
        Some(busy) => match prev {
            Some(p) => match p.busy_ns {
                Some(pb) => utilization_ns(busy, pb, now_ns.saturating_sub(p.sampled_at_ns)),
                None => None,
            },
            None => None,
        },
        None => match (cycles_busy_now, cycles_total_now) {
            (Some(b), Some(t)) => match prev {
                Some(p) => match (p.cycles_busy, p.cycles_total) {
                    (Some(pb), Some(pt)) => utilization_cycles(b, pb, t, pt),
                    _ => None,
                },
                None => None,
            },
            _ => None,
        },
    };
    let c = EngineCounter {
        busy_ns: busy_now,
        cycles_busy: cycles_busy_now,
        cycles_total: cycles_total_now,
        sampled_at_ns: now_ns,
    };
    let key_x = EngineKey {
        identity,
        bdf: string_of(chars_of(bdf).as_slice()),
        engine: string_of(chars_of(name).as_slice()),
    };
    match found {
        Some(i) => {
            state.counters.set(i, (key_x, c));
            assert(state@ =~= st.update(i as int, (key, c)));
        },
        None => {
            state.counters.push((key_x, c));
            assert(state@ =~= st.push((key, c)));
        },
    }
    utilization
}


// ---------------------------------------------------------------------------
// Per-process sample
// ---------------------------------------------------------------------------

/// Usage of one engine (or engine class) of a device.
///
/// Exactly one of the two counter pairs is populated, depending on the
/// driver family: i915/amdgpu use `busy_ns`, xe uses the cycle counters.
#[derive(Clone, Debug, PartialEq, Eq)]
pub struct DrmEngine {
    pub name: String,
    /// Cumulative busy nanoseconds (i915 / amdgpu).
    pub busy_ns: Option<u64>,
    /// Busy cycles (xe).
    pub cycles_busy: Option<u64>,
    /// Total cycles (xe).
    pub cycles_total: Option<u64>,
    /// Engine capacity / parallelism, when the driver exposes it.
    pub capacity: Option<u32>,
    /// Utilization as the fraction `busy / window` since the previous
    /// sample (percent is `100 * busy / window`). `None` on the first
    /// sample (no baseline): never faked as zero.
    pub utilization: Option<(u64, u64)>,
}

pub type DrmEngineModel = (Seq<char>, Option<u64>, Option<u64>, Option<u64>, Option<u32>, Option<
    (u64, u64),
>);

pub open spec fn drm_engine_view(e: DrmEngine) -> DrmEngineModel {
    (e.name@, e.busy_ns, e.cycles_busy, e.cycles_total, e.capacity, e.utilization)
}

/// One GPU device used by a process, keyed by its PCI BDF (from
/// `drm-pdev`).
#[derive(Clone, Debug, PartialEq, Eq)]
pub struct DrmProcessGpu {
    /// PCI bus:device.function, the stable device identity.
    pub bdf: String,
    /// DRM driver name (`i915`, `xe`, `amdgpu`, ...).
    pub driver: String,
    /// Number of DRM fds the process holds for this device.
    pub client_count: u32,
    /// Sum of `drm-resident-<region>` across all regions and fds (bytes).
    pub resident_bytes: u64,
    /// Sum of `drm-total-<region>` across all regions and fds (bytes).
    pub total_bytes: u64,
    /// Per-engine usage for this device, sorted by engine name.
    pub engines: Vec<DrmEngine>,
}

pub type DrmGpuModel = (Seq<char>, Seq<char>, u32, u64, u64, Seq<DrmEngineModel>);

pub open spec fn drm_gpu_view(g: DrmProcessGpu) -> DrmGpuModel {
    (
        g.bdf@,
        g.driver@,
        g.client_count,
        g.resident_bytes,
        g.total_bytes,
        g.engines@.map_values(|e: DrmEngine| drm_engine_view(e)),
    )
}

pub open spec fn drm_gpus_view(v: Seq<DrmProcessGpu>) -> Seq<DrmGpuModel> {
    v.map_values(|g: DrmProcessGpu| drm_gpu_view(g))
}

pub open spec fn engine_model(name: Seq<char>, a: AggEngine, u: Option<(u64, u64)>) -> DrmEngineModel {
    (name, a.busy_ns_spec(), a.cycles_busy_spec(), a.cycles_total_spec(), a.capacity, u)
}

/// Engines of one device, in the given order, threading the counters.
pub open spec fn engines_out(
    id: ProcessIdentity,
    bdf: Seq<char>,
    es: Seq<(Seq<char>, AggEngine)>,
    st: CountersModel,
    now_ns: u64,
) -> (Seq<DrmEngineModel>, CountersModel)
    decreases es.len(),
{
    if es.len() == 0 {
        (seq![], st)
    } else {
        let prev = engines_out(id, bdf, es.drop_last(), st, now_ns);
        let step = engine_step(prev.1, (id, bdf, es.last().0), es.last().1, now_ns);
        (prev.0.push(engine_model(es.last().0, es.last().1, step.0)), step.1)
    }
}

/// Devices in order, each with its engines sorted by name.
pub open spec fn gpus_out(
    id: ProcessIdentity,
    gs: Seq<(Seq<char>, AggGpuModel)>,
    st: CountersModel,
    now_ns: u64,
) -> (Seq<DrmGpuModel>, CountersModel)
    decreases gs.len(),
{
    if gs.len() == 0 {
        (seq![], st)
    } else {
        let prev = gpus_out(id, gs.drop_last(), st, now_ns);
        let g = gs.last();
        let es = engines_out(id, g.0, sort_by_key_spec(g.1.4), prev.1, now_ns);
        (prev.0.push((g.0, g.1.0, g.1.1, g.1.2, g.1.3, es.0)), es.1)
    }
}

/// What one sample of process `id` at `now_ns` returns, and the counters
/// it leaves behind.
pub open spec fn sample_spec<S: Sys>(
    sys: &S,
    now_ns: u64,
    id: ProcessIdentity,
    st: CountersModel,
) -> (Seq<DrmGpuModel>, CountersModel) {
    gpus_out(id, aggregate_spec(drm_fds_spec(sys, id.pid)), st, now_ns)
}

fn clone_keyed(v: &Vec<(Vec<char>, AggEngine)>) -> (r: Vec<(Vec<char>, AggEngine)>)
    ensures
        keyed_view(r@) == keyed_view(v@),
{
    let mut out: Vec<(Vec<char>, AggEngine)> = Vec::new();
    for i in 0..v.len()
        invariant
            keyed_view(out@) == keyed_view(v@).take(i as int),
    {
        let ghost before = keyed_view(out@);
        let k = crate::paths::lit_clone(&v[i].0);
        out.push((k, v[i].1));
        assert(keyed_view(out@) =~= before.push((v@[i as int].0@, v@[i as int].1)));
        assert(keyed_view(v@).take(i + 1) =~= keyed_view(v@).take(i as int).push(
            (v@[i as int].0@, v@[i as int].1),
        ));
    }
    assert(keyed_view(v@).take(v@.len() as int) =~= keyed_view(v@));
    out
}

fn device_sample(
    identity: ProcessIdentity,
    bdf: &Vec<char>,
    g: &AggGpu,
    state: &mut DrmSamplerState,
    now_ns: u64,
) -> (r: DrmProcessGpu)
    ensures
        ({
            let es = engines_out(
                identity,
                bdf@,
                sort_by_key_spec(keyed_view(g.engines@)),
                old(state)@,
                now_ns,
            );
            drm_gpu_view(r) == (bdf@, g.driver@, g.client_count, g.resident, g.total, es.0)
                && final(state)@ == es.1
        }),
{
    let ghost st0 = state@;
    let sorted = sort_by_key(clone_keyed(&g.engines));
    let ghost sv = keyed_view(sorted@);
    let bdf_s = string_of(bdf.as_slice());
    let mut engines: Vec<DrmEngine> = Vec::new();
    assert(engines@.map_values(|e: DrmEngine| drm_engine_view(e)) =~= engines_out(
        identity,
        bdf@,
        sv.take(0),
        st0,
        now_ns,
    ).0);
    for i in 0..sorted.len()
        invariant
            sv == keyed_view(sorted@),
            sv == sort_by_key_spec(keyed_view(g.engines@)),
            bdf_s@ == bdf@,
            ({
                let es = engines_out(identity, bdf@, sv.take(i as int), st0, now_ns);
                engines@.map_values(|e: DrmEngine| drm_engine_view(e)) == es.0 && state@ == es.1
            }),
    {
        assert(sv.take(i + 1).drop_last() =~= sv.take(i as int));
        assert(sv.take(i + 1).last() == (sorted@[i as int].0@, sorted@[i as int].1));
        let name = string_of(sorted[i].0.as_slice());
        let agg = sorted[i].1;
        let ghost before = engines@.map_values(|e: DrmEngine| drm_engine_view(e));
        let utilization = engine_utilization(name.as_str(), identity, bdf_s.as_str(), state, now_ns, &agg);
        let e = DrmEngine {
            name,
            busy_ns: agg.busy_ns_value(),
            cycles_busy: agg.cycles_busy_value(),
            cycles_total: agg.cycles_total_value(),
            capacity: agg.capacity,
            utilization,
        };
        engines.push(e);
        assert(engines@.map_values(|e: DrmEngine| drm_engine_view(e)) =~= before.push(
            drm_engine_view(e),
        ));
    }
    assert(sv.take(sorted@.len() as int) =~= sv);
    DrmProcessGpu {
        bdf: bdf_s,
        driver: g.driver.clone(),
        client_count: g.client_count,
        resident_bytes: g.resident,
        total_bytes: g.total,
        engines,
    }
}

/// Sample the process's DRM fdinfo entries and return per-device GPU usage:
/// one entry per PCI BDF the process holds a DRM fd for (empty when it holds
/// none), in order of first appearance, with engines sorted by name.
/// `now_ns` is the monotonic sample time used for the busy-ns delta.
pub fn sample_process_gpus<S: Sys>(
    sys: &S,
    now_ns: u64,
    identity: ProcessIdentity,
    state: &mut DrmSamplerState,
) -> (r: Vec<DrmProcessGpu>)
    ensures
        (drm_gpus_view(r@), final(state)@) == sample_spec(sys, now_ns, identity, old(state)@),
{
    let ghost st0 = state@;
    let fds = read_drm_fds(sys, identity.pid);
    let aggs = aggregate_fds(&fds);
    let ghost av = aggs_view(aggs@);
    let mut result: Vec<DrmProcessGpu> = Vec::new();
    assert(drm_gpus_view(result@) =~= gpus_out(identity, av.take(0), st0, now_ns).0);
    for i in 0..aggs.len()
        invariant
            av == aggs_view(aggs@),
            av == aggregate_spec(drm_fds_spec(sys, identity.pid)),
            ({
                let o = gpus_out(identity, av.take(i as int), st0, now_ns);
                drm_gpus_view(result@) == o.0 && state@ == o.1
            }),
    {
        assert(av.take(i + 1).drop_last() =~= av.take(i as int));
        assert(av.take(i + 1).last() == (aggs@[i as int].0@, agg_gpu_view(aggs@[i as int].1)));
        let ghost before = drm_gpus_view(result@);
        let g = device_sample(identity, &aggs[i].0, &aggs[i].1, state, now_ns);
        result.push(g);
        assert(drm_gpus_view(result@) =~= before.push(drm_gpu_view(g)));
    }
    assert(av.take(aggs@.len() as int) =~= av);
    result
}

} // verus!
