//! CPU identity and topology: vendor/model from `/proc/cpuinfo`, physical
//! core grouping from sysfs topology files, and performance/efficiency core
//! classes from the kernel's hybrid PMU lists, scheduler capacities or SMT
//! sibling counts.

use vstd::prelude::*;

use crate::domain::opt_view;
use crate::system::Sys;
use crate::text::{
    join_tokens, join_with, vecs_view,
    append_chars, append_str, chars_of, dec_repr, eq_chars, lemma_first_index_props, parse_u64_vec,
    lines, lines_of, parse_uint, parse_uint_vec, push_dec, split, split_of, split_once,
    split_once_vec, string_of, tokens, tokens_of, trim, trim_str, trim_vec, occurs_at,
    occurs_at_exec,
};

verus! {

#[derive(Copy, Clone, Debug, Default, PartialEq, Eq)]
pub enum CpuVendor {
    Intel,
    Amd,
    Other,
    #[default]
    Unknown,
}

impl CpuVendor {
    pub open spec fn label_spec(self) -> Seq<char> {
        match self {
            CpuVendor::Intel => "Intel"@,
            CpuVendor::Amd => "AMD"@,
            CpuVendor::Other => "CPU"@,
            CpuVendor::Unknown => "CPU"@,
        }
    }

    pub fn label(self) -> (r: &'static str)
        ensures
            r@ == self.label_spec(),
    {
        match self {
            Self::Intel => "Intel",
            Self::Amd => "AMD",
            Self::Other => "CPU",
            Self::Unknown => "CPU",
        }
    }
}

#[derive(Copy, Clone, Debug, Default, PartialEq, Eq)]
pub enum CpuCoreKind {
    Performance,
    Efficiency,
    LowPower,
    #[default]
    Unknown,
}

#[derive(Clone, Debug, Default, PartialEq, Eq)]
pub struct CpuPhysicalCore {
    pub kind: CpuCoreKind,
    pub logical_cpus: Vec<usize>,
}

#[derive(Clone, Debug, Default)]
pub struct CpuTopology {
    pub vendor: CpuVendor,
    pub model: String,
    pub logical_cpus: usize,
    pub physical_cores: Option<usize>,
    pub performance_cores: Option<usize>,
    pub efficiency_cores: Option<usize>,
    pub low_power_cores: Option<usize>,
    pub core_kinds: Vec<CpuCoreKind>,
    pub physical_core_groups: Vec<CpuPhysicalCore>,
}

pub open spec fn count_kind(ks: Seq<CpuCoreKind>, k: CpuCoreKind) -> nat
    decreases ks.len(),
{
    if ks.len() == 0 {
        0
    } else {
        count_kind(ks.drop_last(), k) + if ks.last() == k {
            1nat
        } else {
            0nat
        }
    }
}

pub open spec fn has_kind(ks: Seq<CpuCoreKind>, k: CpuCoreKind) -> bool {
    exists|i: int| 0 <= i < ks.len() && ks[i] == k
}

/// Both a performance class and a lower-capacity class are present.
pub open spec fn has_both_spec(ks: Seq<CpuCoreKind>) -> bool {
    has_kind(ks, CpuCoreKind::Performance) && (has_kind(ks, CpuCoreKind::Efficiency) || has_kind(
        ks,
        CpuCoreKind::LowPower,
    ))
}

fn kind_eq(a: CpuCoreKind, b: CpuCoreKind) -> (r: bool)
    ensures
        r == (a == b),
{
    match (a, b) {
        (CpuCoreKind::Performance, CpuCoreKind::Performance) => true,
        (CpuCoreKind::Efficiency, CpuCoreKind::Efficiency) => true,
        (CpuCoreKind::LowPower, CpuCoreKind::LowPower) => true,
        (CpuCoreKind::Unknown, CpuCoreKind::Unknown) => true,
        _ => false,
    }
}

pub fn has_kind_exec(ks: &[CpuCoreKind], k: CpuCoreKind) -> (r: bool)
    ensures
        r == has_kind(ks@, k),
{
    for i in 0..ks.len()
        invariant
            forall|j: int| 0 <= j < i ==> ks@[j] != k,
    {
        if kind_eq(ks[i], k) {
            return true;
        }
    }
    false
}

fn count_kind_exec(ks: &[CpuCoreKind], k: CpuCoreKind) -> (r: usize)
    ensures
        r == count_kind(ks@, k),
{
    let mut n: usize = 0;
    for i in 0..ks.len()
        invariant
            n == count_kind(ks@.take(i as int), k),
            n <= i,
    {
        assert(ks@.take(i + 1).drop_last() =~= ks@.take(i as int));
        if kind_eq(ks[i], k) {
            n = n + 1;
        }
    }
    assert(ks@.take(ks@.len() as int) =~= ks@);
    n
}

/// Both kinds of core are present (a performance class and an efficiency
/// or low-power class).
pub fn has_both_core_kinds(kinds: &[CpuCoreKind]) -> (r: bool)
    ensures
        r == has_both_spec(kinds@),
{
    has_kind_exec(kinds, CpuCoreKind::Performance) && (has_kind_exec(kinds, CpuCoreKind::Efficiency)
        || has_kind_exec(kinds, CpuCoreKind::LowPower))
}

impl CpuTopology {
    pub fn is_hybrid(&self) -> (r: bool)
        ensures
            r == (has_kind(self.core_kinds@, CpuCoreKind::Performance) && has_kind(
                self.core_kinds@,
                CpuCoreKind::Efficiency,
            )),
    {
        has_kind_exec(self.core_kinds.as_slice(), CpuCoreKind::Performance) && has_kind_exec(
            self.core_kinds.as_slice(),
            CpuCoreKind::Efficiency,
        )
    }

    pub fn performance_threads(&self) -> (r: usize)
        ensures
            r == count_kind(self.core_kinds@, CpuCoreKind::Performance),
    {
        count_kind_exec(self.core_kinds.as_slice(), CpuCoreKind::Performance)
    }

    pub fn efficiency_threads(&self) -> (r: usize)
        ensures
            r == count_kind(self.core_kinds@, CpuCoreKind::Efficiency),
    {
        count_kind_exec(self.core_kinds.as_slice(), CpuCoreKind::Efficiency)
    }
}

// ---------------------------------------------------------------------------
// CPU lists (`0-3,8,10-11`)
// ---------------------------------------------------------------------------

pub open spec fn range_seq(start: nat, end: nat) -> Seq<usize> {
    Seq::new((end + 1 - start) as nat, |i: int| (start + i) as usize)
}

/// One comma-separated item: a single CPU or an inclusive range.
pub open spec fn parse_list_item(part: Seq<char>) -> Option<Seq<usize>> {
    match split_once(part, '-') {
        Some((a, b)) => match (
            parse_uint(trim(a), usize::MAX as nat),
            parse_uint(trim(b), usize::MAX as nat),
        ) {
            (Some(s), Some(e)) => if e < s {
                None
            } else {
                Some(range_seq(s, e))
            },
            _ => None,
        },
        None => match parse_uint(trim(part), usize::MAX as nat) {
            Some(n) => Some(seq![n as usize]),
            None => None,
        },
    }
}

pub open spec fn parse_list_items(parts: Seq<Seq<char>>) -> Option<Seq<usize>>
    decreases parts.len(),
{
    if parts.len() == 0 {
        Some(seq![])
    } else {
        match parse_list_items(parts.drop_last()) {
            None => None,
            Some(acc) => if parts.last().len() == 0 {
                Some(acc)
            } else {
                match parse_list_item(parts.last()) {
                    None => None,
                    Some(x) => Some(acc + x),
                }
            },
        }
    }
}

/// A kernel CPU list: comma-separated CPUs and inclusive ranges, empty items
/// skipped; `None` when an item is malformed or nothing is listed.
pub open spec fn cpu_list_spec(text: Seq<char>) -> Option<Seq<usize>> {
    match parse_list_items(split(trim(text), ',')) {
        Some(cpus) => if cpus.len() > 0 {
            Some(cpus)
        } else {
            None
        },
        None => None,
    }
}

fn parse_list_item_exec(part: &Vec<char>, out: &mut Vec<usize>) -> (ok: bool)
    ensures
        match parse_list_item(part@) {
            Some(x) => ok && final(out)@ == old(out)@ + x,
            None => !ok,
        },
{
    match split_once_vec(part, '-') {
        Some(pair) => {
            let a = trim_vec(&pair.0);
            let b = trim_vec(&pair.1);
            let s = parse_uint_vec(a.as_slice(), usize::MAX as u64);
            let e = parse_uint_vec(b.as_slice(), usize::MAX as u64);
            match (s, e) {
                (Some(s), Some(e)) => {
                    if e < s {
                        return false;
                    }
                    let s = s as usize;
                    let e = e as usize;
                    let ghost start = out@;
                    let mut x = s;
                    loop
                        invariant_except_break
                            out@ == start + Seq::new((x - s) as nat, |i: int| (s + i) as usize),
                        invariant
                            s <= x <= e,
                        ensures
                            out@ == start + range_seq(s as nat, e as nat),
                        decreases e - x,
                    {
                        out.push(x);
                        if x == e {
                            assert(out@ =~= start + range_seq(s as nat, e as nat));
                            break;
                        }
                        x = x + 1;
                        assert(out@ =~= start + Seq::new((x - s) as nat, |i: int| (s + i) as usize));
                    }
                    true
                },
                _ => false,
            }
        },
        None => {
            let t = trim_vec(part);
            match parse_uint_vec(t.as_slice(), usize::MAX as u64) {
                Some(n) => {
                    let ghost start = out@;
                    out.push(n as usize);
                    assert(out@ =~= start + seq![n as usize]);
                    true
                },
                None => false,
            }
        },
    }
}

/// Parse a kernel CPU list (`0-3,8,10-11`).
pub fn parse_cpu_list(text: &str) -> (r: Option<Vec<usize>>)
    ensures
        match r {
            Some(v) => cpu_list_spec(text@) == Some(v@),
            None => cpu_list_spec(text@) is None,
        },
{
    let t = trim_str(text);
    let parts = split_of(&t, ',');
    let mut cpus: Vec<usize> = Vec::new();
    for i in 0..parts.len()
        invariant
            parts@.len() == split(trim(text@), ',').len(),
            t@ == trim(text@),
            forall|k: int| 0 <= k < parts@.len() ==> #[trigger] parts@[k]@ == split(t@, ',')[k],
            parse_list_items(split(t@, ',').take(i as int)) == Some(cpus@),
    {
        let ghost ps = split(t@, ',');
        assert(ps.take(i + 1).drop_last() =~= ps.take(i as int));
        assert(ps.take(i + 1).last() == parts@[i as int]@);
        let part = &parts[i];
        if part.len() > 0 {
            if !parse_list_item_exec(part, &mut cpus) {
                proof {
                    lemma_list_items_none_extends(ps, i as int + 1);
                }
                return None;
            }
        }
    }
    assert(split(t@, ',').take(parts@.len() as int) =~= split(t@, ','));
    if cpus.len() > 0 {
        Some(cpus)
    } else {
        None
    }
}

proof fn lemma_list_items_none_extends(ps: Seq<Seq<char>>, k: int)
    requires
        0 <= k <= ps.len(),
        parse_list_items(ps.take(k)) is None,
    ensures
        parse_list_items(ps) is None,
    decreases ps.len() - k,
{
    if k < ps.len() {
        assert(ps.take(k + 1).drop_last() =~= ps.take(k));
        lemma_list_items_none_extends(ps, k + 1);
    } else {
        assert(ps.take(k) =~= ps);
    }
}

// ---------------------------------------------------------------------------
// Identity from /proc/cpuinfo
// ---------------------------------------------------------------------------

pub open spec fn replace_all(s: Seq<char>, p: Seq<char>, r: Seq<char>) -> Seq<char>
    decreases s.len(),
{
    if p.len() == 0 || s.len() < p.len() {
        s
    } else if s.take(p.len() as int) == p {
        r + replace_all(s.skip(p.len() as int), p, r)
    } else {
        seq![s[0]] + replace_all(s.drop_first(), p, r)
    }
}

/// Model name with trademark marks and filler words removed and whitespace
/// collapsed.
pub open spec fn clean_model_spec(value: Seq<char>) -> Seq<char> {
    let a = replace_all(value, "(R)"@, seq![]);
    let b = replace_all(a, "(TM)"@, seq![]);
    let c = replace_all(b, " CPU"@, seq![]);
    let d = replace_all(c, " Processor"@, seq![]);
    join_with(tokens(d), " "@)
}

fn replace_all_exec(s: &Vec<char>, p: &str) -> (r: Vec<char>)
    ensures
        r@ == replace_all(s@, p@, seq![]),
{
    let pv = chars_of(p);
    let n = s.len();
    let m = pv.len();
    let mut out: Vec<char> = Vec::new();
    let mut i: usize = 0;
    assert(s@.skip(0) =~= s@);
    assert(out@ + replace_all(s@, p@, seq![]) =~= replace_all(s@, p@, seq![]));
    while i < n
        invariant
            i <= n == s@.len(),
            m == pv@.len() == p@.len(),
            pv@ == p@,
            replace_all(s@, p@, seq![]) == out@ + replace_all(s@.skip(i as int), p@, seq![]),
        decreases n - i,
    {
        let ghost rest = s@.skip(i as int);
        if m == 0 || n - i < m {
            proof {
                assert(replace_all(rest, p@, seq![]) == rest);
            }
            let tail = crate::text::slice_vec(s, i, n);
            assert(tail@ =~= rest);
            append_chars(&mut out, tail.as_slice());
            proof {
                assert(s@.skip(n as int).len() == 0);
                assert(replace_all(s@, p@, seq![]) =~= out@ + replace_all(s@.skip(n as int), p@, seq![]));
            }
            i = n;
        } else if occurs_at_exec(s.as_slice(), pv.as_slice(), i) {
            proof {
                assert(rest.take(m as int) =~= s@.subrange(i as int, i + m));
                assert(rest.skip(m as int) =~= s@.skip(i + m));
                assert(seq![] + replace_all(rest.skip(m as int), p@, seq![]) =~= replace_all(rest.skip(m as int), p@, seq![]));
            }
            i = i + m;
        } else {
            proof {
                assert(rest.take(m as int) =~= s@.subrange(i as int, i + m));
                assert(rest.drop_first() =~= s@.skip(i + 1));
                assert(rest[0] == s@[i as int]);
            }
            out.push(s[i]);
            i = i + 1;
            proof {
                assert(replace_all(s@, p@, seq![]) =~= out@ + replace_all(s@.skip(i as int), p@, seq![]));
            }
        }
    }
    proof {
        assert(s@.skip(n as int).len() == 0);
        assert(replace_all(s@.skip(n as int), p@, seq![]) == s@.skip(n as int));
        assert(out@ =~= replace_all(s@, p@, seq![]));
    }
    out
}

pub fn clean_model_name(value: &str) -> (r: String)
    ensures
        r@ == clean_model_spec(value@),
{
    let v = chars_of(value);
    let a = replace_all_exec(&v, "(R)");
    let b = replace_all_exec(&a, "(TM)");
    let c = replace_all_exec(&b, " CPU");
    let d = replace_all_exec(&c, " Processor");
    let ts = tokens_of(&d);
    let joined = join_tokens(&ts, " ");
    assert(ts@.map_values(|t: Vec<char>| t@) =~= tokens(d@));
    string_of(joined.as_slice())
}

pub open spec fn vendor_of(value: Seq<char>) -> CpuVendor {
    if value == "GenuineIntel"@ {
        CpuVendor::Intel
    } else if value == "AuthenticAMD"@ {
        CpuVendor::Amd
    } else if value.len() > 0 {
        CpuVendor::Other
    } else {
        CpuVendor::Unknown
    }
}

pub open spec fn is_model_key(key: Seq<char>) -> bool {
    key == "model name"@ || key == "Processor"@ || key == "Hardware"@
}

/// Effect of one cpuinfo line: the first `vendor_id` and the first model
/// line (`model name`, `Processor` or `Hardware`) win.
pub open spec fn identity_step(st: (CpuVendor, Seq<char>), line: Seq<char>) -> (CpuVendor, Seq<char>) {
    match split_once(line, ':') {
        None => st,
        Some((k, v)) => {
            let key = trim(k);
            let value = trim(v);
            let vendor = if key == "vendor_id"@ && st.0 == CpuVendor::Unknown {
                vendor_of(value)
            } else {
                st.0
            };
            let model = if st.1.len() == 0 && is_model_key(key) {
                clean_model_spec(value)
            } else {
                st.1
            };
            (vendor, model)
        },
    }
}

pub open spec fn identity_lines(ls: Seq<Seq<char>>) -> (CpuVendor, Seq<char>)
    decreases ls.len(),
{
    if ls.len() == 0 {
        (CpuVendor::Unknown, seq![])
    } else {
        identity_step(identity_lines(ls.drop_last()), ls.last())
    }
}

pub open spec fn cpu_identity_spec(cpuinfo: Seq<char>) -> (CpuVendor, Seq<char>) {
    identity_lines(lines(cpuinfo))
}

fn lit_eq(v: &[char], s: &str) -> (r: bool)
    ensures
        r == (v@ == s@),
{
    let sv = chars_of(s);
    eq_chars(v, sv.as_slice())
}

fn vendor_eq(a: CpuVendor, b: CpuVendor) -> (r: bool)
    ensures
        r == (a == b),
{
    match (a, b) {
        (CpuVendor::Intel, CpuVendor::Intel) => true,
        (CpuVendor::Amd, CpuVendor::Amd) => true,
        (CpuVendor::Other, CpuVendor::Other) => true,
        (CpuVendor::Unknown, CpuVendor::Unknown) => true,
        _ => false,
    }
}

/// Vendor and cleaned model name from `/proc/cpuinfo` text.
pub fn parse_cpu_identity(cpuinfo: &str) -> (r: (CpuVendor, String))
    ensures
        r.0 == cpu_identity_spec(cpuinfo@).0,
        r.1@ == cpu_identity_spec(cpuinfo@).1,
{
    let text = chars_of(cpuinfo);
    let ls = lines_of(&text);
    let mut vendor = CpuVendor::Unknown;
    let mut model: Vec<char> = Vec::new();
    for i in 0..ls.len()
        invariant
            ls@.len() == lines(cpuinfo@).len(),
            forall|k: int| 0 <= k < ls@.len() ==> #[trigger] ls@[k]@ == lines(cpuinfo@)[k],
            identity_lines(lines(cpuinfo@).take(i as int)) == (vendor, model@),
    {
        proof {
            let pre = lines(cpuinfo@).take(i as int);
            let nxt = lines(cpuinfo@).take(i + 1);
            assert(nxt.drop_last() =~= pre);
            assert(nxt.last() == ls@[i as int]@);
        }
        match split_once_vec(&ls[i], ':') {
            None => {},
            Some(pair) => {
                let key = trim_vec(&pair.0);
                let value = trim_vec(&pair.1);
                let k = key.as_slice();
                let old_model_empty = model.len() == 0;
                if lit_eq(k, "vendor_id") && vendor_eq(vendor, CpuVendor::Unknown) {
                    vendor = if lit_eq(value.as_slice(), "GenuineIntel") {
                        CpuVendor::Intel
                    } else if lit_eq(value.as_slice(), "AuthenticAMD") {
                        CpuVendor::Amd
                    } else if value.len() > 0 {
                        CpuVendor::Other
                    } else {
                        CpuVendor::Unknown
                    };
                }
                if old_model_empty && (lit_eq(k, "model name") || lit_eq(k, "Processor") || lit_eq(
                    k,
                    "Hardware",
                )) {
                    let vs = string_of(value.as_slice());
                    let cleaned = clean_model_name(vs.as_str());
                    model = chars_of(cleaned.as_str());
                }
            },
        }
    }
    assert(lines(cpuinfo@).take(ls@.len() as int) =~= lines(cpuinfo@));
    (vendor, string_of(model.as_slice()))
}


// ---------------------------------------------------------------------------
// Core classes from capacities and SMT sibling counts
// ---------------------------------------------------------------------------

pub open spec fn seq_min(s: Seq<u64>) -> u64
    decreases s.len(),
{
    if s.len() <= 1 {
        s[0]
    } else if s.last() < seq_min(s.drop_last()) {
        s.last()
    } else {
        seq_min(s.drop_last())
    }
}

pub open spec fn seq_max(s: Seq<u64>) -> u64
    decreases s.len(),
{
    if s.len() <= 1 {
        s[0]
    } else if s.last() > seq_max(s.drop_last()) {
        s.last()
    } else {
        seq_max(s.drop_last())
    }
}

pub open spec fn sat(x: int) -> u64 {
    if x > u64::MAX {
        u64::MAX
    } else {
        x as u64
    }
}

pub open spec fn all_present<T>(s: Seq<Option<T>>) -> bool {
    forall|i: int| 0 <= i < s.len() ==> (#[trigger] s[i]) is Some
}

pub open spec fn unwrap_all<T>(s: Seq<Option<T>>) -> Seq<T> {
    s.map_values(|o: Option<T>| o->0)
}

/// Scheduler capacities split into performance (upper half of the range)
/// and efficiency cores; `None` unless every CPU reports a capacity and the
/// spread is more than 5% and both classes occur.
pub open spec fn classify_capacity_spec(caps: Seq<Option<u64>>) -> Option<Seq<CpuCoreKind>> {
    if caps.len() == 0 || !all_present(caps) {
        None
    } else {
        let vals = unwrap_all(caps);
        let mn = seq_min(vals);
        let mx = seq_max(vals);
        if mx == 0 || sat(mn * 100) > sat(mx * 95) {
            None
        } else {
            let split = (sat(mn + mx) + 1) / 2;
            let kinds = vals.map_values(
                |v: u64|
                    if v >= split {
                        CpuCoreKind::Performance
                    } else {
                        CpuCoreKind::Efficiency
                    },
            );
            if has_both_spec(kinds) {
                Some(kinds)
            } else {
                None
            }
        }
    }
}

fn min_max(vals: &Vec<u64>) -> (r: (u64, u64))
    requires
        vals@.len() > 0,
    ensures
        r.0 == seq_min(vals@),
        r.1 == seq_max(vals@),
{
    let mut mn = vals[0];
    let mut mx = vals[0];
    for i in 1..vals.len()
        invariant
            vals@.len() > 0,
            mn == seq_min(vals@.take(i as int)),
            mx == seq_max(vals@.take(i as int)),
    {
        let ghost nxt = vals@.take(i + 1);
        assert(nxt.drop_last() =~= vals@.take(i as int));
        if vals[i] < mn {
            mn = vals[i];
        }
        if vals[i] > mx {
            mx = vals[i];
        }
    }
    assert(vals@.take(vals@.len() as int) =~= vals@);
    (mn, mx)
}

fn unwrap_options(caps: &[Option<u64>]) -> (r: Option<Vec<u64>>)
    ensures
        match r {
            Some(v) => all_present(caps@) && v@ == unwrap_all(caps@),
            None => !all_present(caps@),
        },
{
    let mut vals: Vec<u64> = Vec::new();
    for i in 0..caps.len()
        invariant
            vals@ == unwrap_all(caps@.take(i as int)),
            all_present(caps@.take(i as int)),
    {
        match caps[i] {
            Some(v) => {
                vals.push(v);
                assert(vals@ =~= unwrap_all(caps@.take(i + 1)));
                assert(all_present(caps@.take(i + 1))) by {
                    assert forall|j: int| 0 <= j < i + 1 implies (#[trigger] caps@.take(i + 1)[j]) is Some by {
                        if j < i {
                            assert(caps@.take(i + 1)[j] == caps@.take(i as int)[j]);
                        }
                    }
                }
            },
            None => {
                assert(caps@[i as int] is None);
                return None;
            },
        }
    }
    assert(caps@.take(caps@.len() as int) =~= caps@);
    Some(vals)
}

pub fn classify_capacity_values(capacities: &[Option<u64>]) -> (r: Option<Vec<CpuCoreKind>>)
    ensures
        match r {
            Some(v) => classify_capacity_spec(capacities@) == Some(v@),
            None => classify_capacity_spec(capacities@) is None,
        },
{
    if capacities.len() == 0 {
        return None;
    }
    let vals = match unwrap_options(capacities) {
        Some(v) => v,
        None => return None,
    };
    let (mn, mx) = min_max(&vals);
    let a = mn.checked_mul(100).unwrap_or(u64::MAX);
    let b = mx.checked_mul(95).unwrap_or(u64::MAX);
    if mx == 0 || a > b {
        return None;
    }
    let sum = mn.checked_add(mx).unwrap_or(u64::MAX);
    let split = sum / 2 + sum % 2;
    assert(split == (sat(mn + mx) + 1) / 2);
    let ghost expected = vals@.map_values(
        |v: u64|
            if v >= split {
                CpuCoreKind::Performance
            } else {
                CpuCoreKind::Efficiency
            },
    );
    let mut kinds: Vec<CpuCoreKind> = Vec::new();
    for i in 0..vals.len()
        invariant
            kinds@ == expected.take(i as int),
            expected.len() == vals@.len(),
            forall|j: int| 0 <= j < vals@.len() ==> #[trigger] expected[j] == (if vals@[j] >= split {
                CpuCoreKind::Performance
            } else {
                CpuCoreKind::Efficiency
            }),
    {
        if vals[i] >= split {
            kinds.push(CpuCoreKind::Performance);
        } else {
            kinds.push(CpuCoreKind::Efficiency);
        }
        assert(kinds@ =~= expected.take(i + 1));
    }
    assert(expected.take(vals@.len() as int) =~= expected);
    if has_both_core_kinds(kinds.as_slice()) {
        Some(kinds)
    } else {
        None
    }
}

pub open spec fn seq_min_usize(s: Seq<usize>) -> usize
    decreases s.len(),
{
    if s.len() <= 1 {
        s[0]
    } else if s.last() < seq_min_usize(s.drop_last()) {
        s.last()
    } else {
        seq_min_usize(s.drop_last())
    }
}

pub open spec fn seq_max_usize(s: Seq<usize>) -> usize
    decreases s.len(),
{
    if s.len() <= 1 {
        s[0]
    } else if s.last() > seq_max_usize(s.drop_last()) {
        s.last()
    } else {
        seq_max_usize(s.drop_last())
    }
}

/// CPUs with the most SMT siblings are performance cores, those with the
/// fewest efficiency cores; `None` unless every count is known and non-zero,
/// there are exactly two distinct counts, and both classes occur.
pub open spec fn classify_siblings_spec(counts: Seq<Option<usize>>) -> Option<Seq<CpuCoreKind>> {
    if counts.len() == 0 || !all_present(counts) {
        None
    } else {
        let vals = unwrap_all(counts);
        let mn = seq_min_usize(vals);
        let mx = seq_max_usize(vals);
        if mn == 0 || mn == mx {
            None
        } else {
            let kinds = vals.map_values(
                |v: usize|
                    if v == mx {
                        CpuCoreKind::Performance
                    } else if v == mn {
                        CpuCoreKind::Efficiency
                    } else {
                        CpuCoreKind::Unknown
                    },
            );
            if !has_kind(kinds, CpuCoreKind::Unknown) && has_both_spec(kinds) {
                Some(kinds)
            } else {
                None
            }
        }
    }
}

pub fn classify_sibling_counts(counts: &[Option<usize>]) -> (r: Option<Vec<CpuCoreKind>>)
    ensures
        match r {
            Some(v) => classify_siblings_spec(counts@) == Some(v@),
            None => classify_siblings_spec(counts@) is None,
        },
{
    if counts.len() == 0 {
        return None;
    }
    let mut vals: Vec<usize> = Vec::new();
    for i in 0..counts.len()
        invariant
            vals@ == unwrap_all(counts@.take(i as int)),
            all_present(counts@.take(i as int)),
    {
        match counts[i] {
            Some(v) => {
                vals.push(v);
                assert(vals@ =~= unwrap_all(counts@.take(i + 1)));
                assert(all_present(counts@.take(i + 1))) by {
                    assert forall|j: int| 0 <= j < i + 1 implies (#[trigger] counts@.take(i + 1)[j]) is Some by {
                        if j < i {
                            assert(counts@.take(i + 1)[j] == counts@.take(i as int)[j]);
                        }
                    }
                }
            },
            None => {
                assert(counts@[i as int] is None);
                return None;
            },
        }
    }
    assert(counts@.take(counts@.len() as int) =~= counts@);
    let mut mn = vals[0];
    let mut mx = vals[0];
    for i in 1..vals.len()
        invariant
            vals@.len() > 0,
            mn == seq_min_usize(vals@.take(i as int)),
            mx == seq_max_usize(vals@.take(i as int)),
    {
        let ghost nxt = vals@.take(i + 1);
        assert(nxt.drop_last() =~= vals@.take(i as int));
        if vals[i] < mn {
            mn = vals[i];
        }
        if vals[i] > mx {
            mx = vals[i];
        }
    }
    assert(vals@.take(vals@.len() as int) =~= vals@);
    if mn == 0 || mn == mx {
        return None;
    }
    let ghost expected = vals@.map_values(
        |v: usize|
            if v == mx {
                CpuCoreKind::Performance
            } else if v == mn {
                CpuCoreKind::Efficiency
            } else {
                CpuCoreKind::Unknown
            },
    );
    let mut kinds: Vec<CpuCoreKind> = Vec::new();
    for i in 0..vals.len()
        invariant
            kinds@ == expected.take(i as int),
            expected.len() == vals@.len(),
            forall|j: int| 0 <= j < vals@.len() ==> #[trigger] expected[j] == (if vals@[j] == mx {
                CpuCoreKind::Performance
            } else if vals@[j] == mn {
                CpuCoreKind::Efficiency
            } else {
                CpuCoreKind::Unknown
            }),
    {
        if vals[i] == mx {
            kinds.push(CpuCoreKind::Performance);
        } else if vals[i] == mn {
            kinds.push(CpuCoreKind::Efficiency);
        } else {
            kinds.push(CpuCoreKind::Unknown);
        }
        assert(kinds@ =~= expected.take(i + 1));
    }
    assert(expected.take(vals@.len() as int) =~= expected);
    if !has_kind_exec(kinds.as_slice(), CpuCoreKind::Unknown) && has_both_core_kinds(
        kinds.as_slice(),
    ) {
        Some(kinds)
    } else {
        None
    }
}

// ---------------------------------------------------------------------------
// Physical core groups
// ---------------------------------------------------------------------------

/// Keys in order of first appearance, each once.
pub open spec fn distinct_keys(g: Seq<Seq<char>>) -> Seq<Seq<char>>
    decreases g.len(),
{
    if g.len() == 0 {
        seq![]
    } else {
        let d = distinct_keys(g.drop_last());
        if d.contains(g.last()) {
            d
        } else {
            d.push(g.last())
        }
    }
}

/// Positions of `k` in `g`, ascending.
pub open spec fn indices_of(g: Seq<Seq<char>>, k: Seq<char>) -> Seq<usize>
    decreases g.len(),
{
    if g.len() == 0 {
        seq![]
    } else {
        let r = indices_of(g.drop_last(), k);
        if g.last() == k {
            r.push((g.len() - 1) as usize)
        } else {
            r
        }
    }
}

/// The common kind of a set of CPUs, or `Unknown` when they disagree.
pub open spec fn uniform(ks: Seq<CpuCoreKind>) -> CpuCoreKind {
    if ks.len() > 0 && forall|i: int| 0 <= i < ks.len() ==> #[trigger] ks[i] == ks[0] {
        ks[0]
    } else {
        CpuCoreKind::Unknown
    }
}

pub open spec fn kinds_at(kinds: Seq<CpuCoreKind>, idx: Seq<usize>) -> Seq<CpuCoreKind> {
    idx.map_values(|i: usize| kinds[i as int])
}

pub open spec fn groups_view(groups: Seq<Option<String>>) -> Seq<Option<Seq<char>>> {
    groups.map_values(|o: Option<String>| opt_view(o))
}

/// One physical core per distinct group key (first-appearance order) with
/// the ascending logical CPUs that share it and their common kind; empty
/// unless every CPU has a key and there is one kind per CPU.
pub open spec fn physical_groups_spec(groups: Seq<Option<Seq<char>>>, kinds: Seq<CpuCoreKind>) -> Seq<(CpuCoreKind, Seq<usize>)> {
    if groups.len() != kinds.len() || groups.len() == 0 || !all_present(groups) {
        seq![]
    } else {
        let g = unwrap_all(groups);
        distinct_keys(g).map_values(
            |k: Seq<char>| (uniform(kinds_at(kinds, indices_of(g, k))), indices_of(g, k)),
        )
    }
}

pub open spec fn cores_view(cores: Seq<CpuPhysicalCore>) -> Seq<(CpuCoreKind, Seq<usize>)> {
    cores.map_values(|c: CpuPhysicalCore| (c.kind, c.logical_cpus@))
}

proof fn lemma_uniform_push(ks: Seq<CpuCoreKind>, x: CpuCoreKind)
    requires
        ks.len() > 0,
    ensures
        uniform(ks.push(x)) == (if uniform(ks) == x {
            x
        } else {
            CpuCoreKind::Unknown
        }),
{
    let p = ks.push(x);
    if forall|i: int| 0 <= i < ks.len() ==> #[trigger] ks[i] == ks[0] {
        if x == ks[0] {
            assert forall|i: int| 0 <= i < p.len() implies #[trigger] p[i] == p[0] by {}
        } else {
            assert(p[p.len() - 1] != p[0]);
        }
    } else {
        let j = choose|j: int| 0 <= j < ks.len() && #[trigger] ks[j] != ks[0];
        assert(p[j] != p[0]);
    }
}

proof fn lemma_distinct_keys_unique(g: Seq<Seq<char>>)
    ensures
        forall|a: int, b: int|
            0 <= a < distinct_keys(g).len() && 0 <= b < distinct_keys(g).len() && a != b
                ==> #[trigger] distinct_keys(g)[a] != #[trigger] distinct_keys(g)[b],
    decreases g.len(),
{
    if g.len() > 0 {
        lemma_distinct_keys_unique(g.drop_last());
        let d = distinct_keys(g.drop_last());
        if !d.contains(g.last()) {
            let dn = distinct_keys(g);
            assert forall|a: int, b: int|
                0 <= a < dn.len() && 0 <= b < dn.len() && a != b implies #[trigger] dn[a] != #[trigger] dn[b] by {
                if a < d.len() && b < d.len() {
                    assert(dn[a] == d[a] && dn[b] == d[b]);
                } else if a == d.len() {
                    assert(dn[b] == d[b]);
                    if dn[a] == dn[b] {
                        assert(d.contains(g.last()));
                    }
                } else {
                    assert(dn[a] == d[a]);
                    if dn[a] == dn[b] {
                        assert(d.contains(g.last()));
                    }
                }
            }
        }
    }
}

proof fn lemma_indices_bound(g: Seq<Seq<char>>, k: Seq<char>)
    ensures
        forall|j: int| 0 <= j < indices_of(g, k).len() ==> (#[trigger] indices_of(g, k)[j]) < g.len(),
        indices_of(g, k).len() <= g.len(),
    decreases g.len(),
{
    if g.len() > 0 {
        lemma_indices_bound(g.drop_last(), k);
    }
}

proof fn lemma_indices_nonempty(g: Seq<Seq<char>>, k: Seq<char>)
    requires
        distinct_keys(g).contains(k),
    ensures
        indices_of(g, k).len() > 0,
    decreases g.len(),
{
    if g.len() > 0 {
        let d = distinct_keys(g.drop_last());
        if g.last() != k {
            lemma_indices_nonempty(g.drop_last(), k);
        }
    }
}

/// Group logical CPUs by their core key (see [`physical_groups_spec`]).
pub fn build_physical_core_groups(groups: &[Option<String>], kinds: &[CpuCoreKind]) -> (r: Vec<CpuPhysicalCore>)
    ensures
        cores_view(r@) == physical_groups_spec(groups_view(groups@), kinds@),
{
    let ghost gv = groups_view(groups@);
    if groups.len() != kinds.len() || groups.len() == 0 {
        return Vec::new();
    }
    let mut keys: Vec<Vec<char>> = Vec::new();
    for i in 0..groups.len()
        invariant
            gv == groups_view(groups@),
            keys@.len() == i,
            all_present(gv.take(i as int)),
            forall|j: int| 0 <= j < i ==> #[trigger] keys@[j]@ == gv[j]->0,
    {
        match &groups[i] {
            Some(k) => {
                keys.push(chars_of(k.as_str()));
                assert(all_present(gv.take(i + 1))) by {
                    assert forall|j: int| 0 <= j < i + 1 implies (#[trigger] gv.take(i + 1)[j]) is Some by {
                        if j < i {
                            assert(gv.take(i + 1)[j] == gv.take(i as int)[j]);
                        }
                    }
                }
            },
            None => {
                assert(gv[i as int] is None);
                return Vec::new();
            },
        }
    }
    assert(gv.take(groups@.len() as int) =~= gv);
    let ghost g = unwrap_all(gv);
    let mut cores: Vec<CpuPhysicalCore> = Vec::new();
    let mut core_keys: Vec<Vec<char>> = Vec::new();
    for i in 0..keys.len()
        invariant
            g == unwrap_all(gv),
            keys@.len() == g.len() == kinds@.len(),
            forall|j: int| 0 <= j < keys@.len() ==> #[trigger] keys@[j]@ == g[j],
            core_keys@.len() == cores@.len() == distinct_keys(g.take(i as int)).len(),
            forall|j: int| 0 <= j < cores@.len() ==> (#[trigger] core_keys@[j])@ == distinct_keys(g.take(i as int))[j],
            forall|j: int| 0 <= j < cores@.len() ==> (#[trigger] cores@[j]).logical_cpus@ == indices_of(g.take(i as int), distinct_keys(g.take(i as int))[j]),
            forall|j: int| 0 <= j < cores@.len() ==> (#[trigger] cores@[j]).kind == uniform(kinds_at(kinds@, indices_of(g.take(i as int), distinct_keys(g.take(i as int))[j]))),
    {
        let ghost pre = g.take(i as int);
        let ghost nxt = g.take(i + 1);
        assert(nxt.drop_last() =~= pre);
        assert(nxt.last() == g[i as int]);
        let key = &keys[i];
        let kind = kinds[i];
        let mut found: Option<usize> = None;
        let mut j: usize = 0;
        while j < core_keys.len()
            invariant_except_break
                found is None,
                forall|m: int| 0 <= m < j ==> (#[trigger] core_keys@[m])@ != key@,
            invariant
                j <= core_keys@.len(),
            ensures
                match found {
                    Some(x) => x < core_keys@.len() && core_keys@[x as int]@ == key@,
                    None => forall|m: int| 0 <= m < core_keys@.len() ==> (#[trigger] core_keys@[m])@ != key@,
                },
            decreases core_keys@.len() - j,
        {
            if eq_chars(core_keys[j].as_slice(), key.as_slice()) {
                found = Some(j);
                break;
            }
            j = j + 1;
        }
        let ghost d = distinct_keys(pre);
        match found {
            Some(j) => {
                proof {
                    lemma_distinct_keys_unique(pre);
                    assert(d.contains(g[i as int]));
                    lemma_indices_nonempty(pre, d[j as int]);
                    lemma_uniform_push(kinds_at(kinds@, indices_of(pre, d[j as int])), kind);
                    assert(kinds_at(kinds@, indices_of(nxt, d[j as int])) =~= kinds_at(kinds@, indices_of(pre, d[j as int])).push(kind));
                }
                let old_kind = cores[j].kind;
                let new_kind = if kind_eq(old_kind, kind) {
                    old_kind
                } else {
                    CpuCoreKind::Unknown
                };
                let mut cpus = clone_usizes(&cores[j].logical_cpus);
                cpus.push(i);
                let ghost before = cores@;
                cores.set(j, CpuPhysicalCore { kind: new_kind, logical_cpus: cpus });
                proof {
                    assert(distinct_keys(nxt) == d);
                    assert forall|m: int| 0 <= m < cores@.len() && m != j implies (#[trigger] cores@[m]).logical_cpus@ == indices_of(nxt, distinct_keys(nxt)[m]) by {
                        assert(cores@[m] == before[m]);
                        assert(d[m] != g[i as int]) by {
                            assert(core_keys@[m]@ == d[m]);
                            assert(core_keys@[j as int]@ == d[j as int]);
                        }
                    }
                    assert forall|m: int| 0 <= m < cores@.len() && m != j implies (#[trigger] cores@[m]).kind == uniform(kinds_at(kinds@, indices_of(nxt, distinct_keys(nxt)[m]))) by {
                        assert(cores@[m] == before[m]);
                        assert(d[m] != g[i as int]) by {
                            assert(core_keys@[m]@ == d[m]);
                            assert(core_keys@[j as int]@ == d[j as int]);
                        }
                    }
                }
            },
            None => {
                proof {
                    assert(!d.contains(g[i as int])) by {
                        if d.contains(g[i as int]) {
                            let m = choose|m: int| 0 <= m < d.len() && d[m] == g[i as int];
                            assert(core_keys@[m]@ == d[m]);
                        }
                    }
                    lemma_indices_absent(pre, g[i as int]);
                    assert(indices_of(nxt, g[i as int]) =~= seq![i as usize]);
                    assert(kinds_at(kinds@, seq![i as usize]) =~= seq![kind]);
                }
                let mut cpus: Vec<usize> = Vec::new();
                cpus.push(i);
                cores.push(CpuPhysicalCore { kind, logical_cpus: cpus });
                core_keys.push(clone_chars(key));
                proof {
                    let dn = distinct_keys(nxt);
                    assert(dn == d.push(g[i as int]));
                    assert forall|m: int| 0 <= m < d.len() implies (#[trigger] cores@[m]).logical_cpus@ == indices_of(nxt, dn[m]) by {
                        assert(d[m] != g[i as int]);
                    }
                    assert forall|m: int| 0 <= m < d.len() implies (#[trigger] cores@[m]).kind == uniform(kinds_at(kinds@, indices_of(nxt, dn[m]))) by {
                        assert(d[m] != g[i as int]);
                    }
                    assert(uniform(seq![kind]) == kind);
                }
            },
        }
    }
    proof {
        assert(g.take(keys@.len() as int) =~= g);
        assert(cores_view(cores@) =~= physical_groups_spec(gv, kinds@));
    }
    cores
}

proof fn lemma_indices_absent(g: Seq<Seq<char>>, k: Seq<char>)
    requires
        !distinct_keys(g).contains(k),
    ensures
        indices_of(g, k) == Seq::<usize>::empty(),
    decreases g.len(),
{
    if g.len() > 0 {
        let d = distinct_keys(g.drop_last());
        if d.contains(k) {
            assert(distinct_keys(g).contains(k)) by {
                let m = choose|m: int| 0 <= m < d.len() && d[m] == k;
                if d.contains(g.last()) {
                    assert(distinct_keys(g)[m] == k);
                } else {
                    assert(distinct_keys(g)[m] == k);
                }
            }
        }
        if g.last() == k {
            assert(distinct_keys(g).contains(k)) by {
                if d.contains(g.last()) {
                } else {
                    assert(distinct_keys(g)[d.len() as int] == k);
                }
            }
        }
        lemma_indices_absent(g.drop_last(), k);
    }
}

fn clone_usizes(v: &Vec<usize>) -> (r: Vec<usize>)
    ensures
        r@ == v@,
{
    let mut r: Vec<usize> = Vec::new();
    for i in 0..v.len()
        invariant
            r@ == v@.take(i as int),
    {
        r.push(v[i]);
        assert(r@ =~= v@.take(i + 1));
    }
    assert(v@.take(v@.len() as int) =~= v@);
    r
}

fn clone_chars(v: &Vec<char>) -> (r: Vec<char>)
    ensures
        r@ == v@,
{
    let n = v.len();
    let r = crate::text::slice_vec(v, 0, n);
    assert(r@ =~= v@);
    r
}


// ---------------------------------------------------------------------------
// Counting physical cores
// ---------------------------------------------------------------------------

/// Add `key` to a first-appearance list of distinct keys.
fn push_distinct(uniq: &mut Vec<Vec<char>>, key: &Vec<char>)
    ensures
        vecs_view(final(uniq)@) == (if vecs_view(old(uniq)@).contains(key@) {
            vecs_view(old(uniq)@)
        } else {
            vecs_view(old(uniq)@).push(key@)
        }),
{
    let ghost u = vecs_view(uniq@);
    let mut j: usize = 0;
    while j < uniq.len()
        invariant
            u == vecs_view(uniq@),
            j <= uniq@.len(),
            forall|m: int| 0 <= m < j ==> (#[trigger] u[m]) != key@,
        decreases uniq@.len() - j,
    {
        if eq_chars(uniq[j].as_slice(), key.as_slice()) {
            assert(u[j as int] == key@);
            return;
        }
        j = j + 1;
    }
    uniq.push(clone_chars(key));
    assert(vecs_view(uniq@) =~= u.push(key@));
}

/// Number of distinct physical cores; `None` unless every CPU has a key.
pub open spec fn unique_groups_spec(groups: Seq<Option<Seq<char>>>) -> Option<usize> {
    if groups.len() == 0 || !all_present(groups) {
        None
    } else {
        Some(distinct_keys(unwrap_all(groups)).len() as usize)
    }
}

proof fn lemma_distinct_keys_len(g: Seq<Seq<char>>)
    ensures
        distinct_keys(g).len() <= g.len(),
    decreases g.len(),
{
    if g.len() > 0 {
        lemma_distinct_keys_len(g.drop_last());
    }
}

pub fn count_unique_groups(groups: &[Option<String>]) -> (r: Option<usize>)
    ensures
        r == unique_groups_spec(groups_view(groups@)),
{
    let ghost gv = groups_view(groups@);
    if groups.len() == 0 {
        return None;
    }
    let mut uniq: Vec<Vec<char>> = Vec::new();
    for i in 0..groups.len()
        invariant
            gv == groups_view(groups@),
            all_present(gv.take(i as int)),
            vecs_view(uniq@) == distinct_keys(unwrap_all(gv.take(i as int))),
    {
        let ghost pre = gv.take(i as int);
        let ghost nxt = gv.take(i + 1);
        assert(nxt.drop_last() =~= pre);
        match &groups[i] {
            Some(k) => {
                let key = chars_of(k.as_str());
                push_distinct(&mut uniq, &key);
                assert(all_present(nxt)) by {
                    assert forall|j: int| 0 <= j < i + 1 implies (#[trigger] nxt[j]) is Some by {
                        if j < i {
                            assert(nxt[j] == pre[j]);
                        }
                    }
                }
                assert(unwrap_all(nxt).drop_last() =~= unwrap_all(pre));
            },
            None => {
                assert(gv[i as int] is None);
                return None;
            },
        }
    }
    assert(gv.take(groups@.len() as int) =~= gv);
    proof {
        lemma_distinct_keys_len(unwrap_all(gv));
    }
    Some(uniq.len())
}

/// Group keys of the CPUs whose kind is `target`, in CPU order.
pub open spec fn groups_of_kind(
    groups: Seq<Option<Seq<char>>>,
    kinds: Seq<CpuCoreKind>,
    target: CpuCoreKind,
) -> Seq<Option<Seq<char>>>
    decreases groups.len(),
{
    if groups.len() == 0 {
        seq![]
    } else {
        let rest = groups_of_kind(groups.drop_last(), kinds, target);
        if kinds[groups.len() - 1] == target {
            rest.push(groups.last())
        } else {
            rest
        }
    }
}

/// Number of distinct physical cores of kind `target`; `None` when the kinds
/// are not hybrid, the lists disagree in length, or a CPU of that kind has
/// no key.
pub open spec fn kind_groups_spec(
    groups: Seq<Option<Seq<char>>>,
    kinds: Seq<CpuCoreKind>,
    target: CpuCoreKind,
) -> Option<usize> {
    if !has_both_spec(kinds) || groups.len() != kinds.len() {
        None
    } else {
        let sel = groups_of_kind(groups, kinds, target);
        if !all_present(sel) {
            None
        } else {
            Some(distinct_keys(unwrap_all(sel)).len() as usize)
        }
    }
}

proof fn lemma_groups_of_kind_len(
    groups: Seq<Option<Seq<char>>>,
    kinds: Seq<CpuCoreKind>,
    target: CpuCoreKind,
)
    ensures
        groups_of_kind(groups, kinds, target).len() <= groups.len(),
    decreases groups.len(),
{
    if groups.len() > 0 {
        lemma_groups_of_kind_len(groups.drop_last(), kinds, target);
    }
}

proof fn lemma_not_all_present_push<T>(s: Seq<Option<T>>, x: Option<T>)
    requires
        !all_present(s),
    ensures
        !all_present(s.push(x)),
{
    let j = choose|j: int| 0 <= j < s.len() && !((#[trigger] s[j]) is Some);
    assert(s.push(x)[j] == s[j]);
}

proof fn lemma_kind_groups_missing(
    groups: Seq<Option<Seq<char>>>,
    kinds: Seq<CpuCoreKind>,
    target: CpuCoreKind,
    k: int,
)
    requires
        0 <= k <= groups.len(),
        !all_present(groups_of_kind(groups.take(k), kinds, target)),
    ensures
        !all_present(groups_of_kind(groups, kinds, target)),
    decreases groups.len() - k,
{
    if k < groups.len() {
        let nxt = groups.take(k + 1);
        assert(nxt.drop_last() =~= groups.take(k));
        let sel = groups_of_kind(groups.take(k), kinds, target);
        if kinds[k] == target {
            lemma_not_all_present_push(sel, nxt.last());
        }
        lemma_kind_groups_missing(groups, kinds, target, k + 1);
    } else {
        assert(groups.take(k) =~= groups);
    }
}

pub fn count_kind_groups(
    groups: &[Option<String>],
    kinds: &[CpuCoreKind],
    target: CpuCoreKind,
) -> (r: Option<usize>)
    ensures
        r == kind_groups_spec(groups_view(groups@), kinds@, target),
{
    let ghost gv = groups_view(groups@);
    if !has_both_core_kinds(kinds) || groups.len() != kinds.len() {
        return None;
    }
    let mut uniq: Vec<Vec<char>> = Vec::new();
    for i in 0..groups.len()
        invariant
            gv == groups_view(groups@),
            groups@.len() == kinds@.len(),
            all_present(groups_of_kind(gv.take(i as int), kinds@, target)),
            vecs_view(uniq@) == distinct_keys(unwrap_all(groups_of_kind(gv.take(i as int), kinds@, target))),
    {
        let ghost pre = gv.take(i as int);
        let ghost nxt = gv.take(i + 1);
        assert(nxt.drop_last() =~= pre);
        let ghost sp = groups_of_kind(pre, kinds@, target);
        let ghost sn = groups_of_kind(nxt, kinds@, target);
        if kind_eq(kinds[i], target) {
            assert(sn == sp.push(gv[i as int]));
            match &groups[i] {
                Some(k) => {
                    let key = chars_of(k.as_str());
                    push_distinct(&mut uniq, &key);
                    assert(all_present(sn)) by {
                        assert forall|j: int| 0 <= j < sn.len() implies (#[trigger] sn[j]) is Some by {
                            if j < sp.len() {
                                assert(sn[j] == sp[j]);
                            }
                        }
                    }
                    assert(unwrap_all(sn).drop_last() =~= unwrap_all(sp));
                },
                None => {
                    proof {
                        assert(!all_present(sn)) by {
                            assert(sn[sp.len() as int] is None);
                        }
                        lemma_kind_groups_missing(gv, kinds@, target, i + 1);
                    }
                    return None;
                },
            }
        } else {
            assert(sn == sp);
        }
    }
    assert(gv.take(groups@.len() as int) =~= gv);
    proof {
        lemma_distinct_keys_len(unwrap_all(groups_of_kind(gv, kinds@, target)));
        lemma_groups_of_kind_len(gv, kinds@, target);
    }
    Some(uniq.len())
}


// ---------------------------------------------------------------------------
// Reading sysfs
// ---------------------------------------------------------------------------

/// `/sys/devices/system/cpu/cpu{cpu}/{leaf}`.
pub open spec fn cpu_file(cpu: nat, leaf: Seq<char>) -> Seq<char> {
    "/sys/devices/system/cpu/cpu"@ + dec_repr(cpu) + "/"@ + leaf
}

fn cpu_file_exec(cpu: usize, leaf: &str) -> (r: String)
    ensures
        r@ == cpu_file(cpu as nat, leaf@),
{
    let mut v = chars_of("/sys/devices/system/cpu/cpu");
    push_dec(&mut v, cpu as u64);
    append_str(&mut v, "/");
    append_str(&mut v, leaf);
    string_of(v.as_slice())
}

/// The CPU list stored in the file at `path`.
pub open spec fn list_file_spec<S: Sys>(sys: &S, path: Seq<char>) -> Option<Seq<usize>> {
    match sys.spec_file(path) {
        Some(t) => cpu_list_spec(t),
        None => None,
    }
}

/// The unsigned integer stored (whitespace-trimmed) in the file at `path`.
pub open spec fn u64_file_spec<S: Sys>(sys: &S, path: Seq<char>) -> Option<u64> {
    match sys.spec_file(path) {
        Some(t) => match parse_uint(trim(t), u64::MAX as nat) {
            Some(n) => Some(n as u64),
            None => None,
        },
        None => None,
    }
}

pub fn read_cpu_list_file<S: Sys>(sys: &S, path: &str) -> (r: Option<Vec<usize>>)
    ensures
        match r {
            Some(v) => list_file_spec(sys, path@) == Some(v@),
            None => list_file_spec(sys, path@) is None,
        },
{
    match sys.read_to_string(path) {
        Some(text) => parse_cpu_list(text.as_str()),
        None => None,
    }
}

pub fn read_u64<S: Sys>(sys: &S, path: &str) -> (r: Option<u64>)
    ensures
        r == u64_file_spec(sys, path@),
{
    match sys.read_to_string(path) {
        Some(text) => {
            let t = trim_str(text.as_str());
            parse_u64_vec(t.as_slice())
        },
        None => None,
    }
}

/// `kinds` with every listed CPU (that exists) set to `kind`.
pub open spec fn apply_kind_spec(kinds: Seq<CpuCoreKind>, cpus: Seq<usize>, kind: CpuCoreKind) -> Seq<CpuCoreKind> {
    Seq::new(kinds.len(), |i: int| if cpus.contains(i as usize) { kind } else { kinds[i] })
}

pub fn apply_kind(kinds: &mut Vec<CpuCoreKind>, cpus: &[usize], kind: CpuCoreKind)
    ensures
        final(kinds)@ == apply_kind_spec(old(kinds)@, cpus@, kind),
{
    let ghost start = kinds@;
    for j in 0..cpus.len()
        invariant
            kinds@ == apply_kind_spec(start, cpus@.take(j as int), kind),
    {
        let cpu = cpus[j];
        let ghost pre = cpus@.take(j as int);
        let ghost nxt = cpus@.take(j + 1);
        assert(nxt =~= pre.push(cpu));
        let ghost prev = kinds@;
        if cpu < kinds.len() {
            kinds.set(cpu, kind);
        }
        assert forall|i: int| 0 <= i < start.len() implies (#[trigger] kinds@[i]) == apply_kind_spec(start, nxt, kind)[i] by {
            assert(prev[i] == apply_kind_spec(start, pre, kind)[i]);
            assert(nxt[pre.len() as int] == cpu);
            if i == cpu as int {
                assert(nxt.contains(cpu));
            } else {
                assert(kinds@[i] == prev[i]);
                if nxt.contains(i as usize) {
                    let m = choose|m: int| 0 <= m < nxt.len() && nxt[m] == i as usize;
                    if m < pre.len() {
                        assert(pre[m] == nxt[m]);
                    }
                    assert(pre.contains(i as usize));
                }
                if pre.contains(i as usize) {
                    let m = choose|m: int| 0 <= m < pre.len() && pre[m] == i as usize;
                    assert(nxt[m] == pre[m]);
                    assert(nxt.contains(i as usize));
                }
            }
        }
        assert(kinds@ =~= apply_kind_spec(start, nxt, kind));
    }
    assert(cpus@.take(cpus@.len() as int) =~= cpus@);
}

pub open spec fn apply_opt(kinds: Seq<CpuCoreKind>, cpus: Option<Seq<usize>>, kind: CpuCoreKind) -> Seq<CpuCoreKind> {
    match cpus {
        Some(c) => apply_kind_spec(kinds, c, kind),
        None => kinds,
    }
}

/// Kinds from the kernel's hybrid PMU CPU lists (`cpu_core`, `cpu_atom`,
/// `cpu_lowpower`), later lists winning; unlisted CPUs stay `Unknown`.
pub open spec fn kernel_kinds_spec<S: Sys>(sys: &S, n: nat) -> Seq<CpuCoreKind> {
    let k0 = Seq::new(n, |i: int| CpuCoreKind::Unknown);
    let k1 = apply_opt(k0, list_file_spec(sys, "/sys/devices/cpu_core/cpus"@), CpuCoreKind::Performance);
    let k2 = apply_opt(k1, list_file_spec(sys, "/sys/devices/cpu_atom/cpus"@), CpuCoreKind::Efficiency);
    apply_opt(k2, list_file_spec(sys, "/sys/devices/cpu_lowpower/cpus"@), CpuCoreKind::LowPower)
}

fn unknown_kinds(n: usize) -> (r: Vec<CpuCoreKind>)
    ensures
        r@ == Seq::new(n as nat, |i: int| CpuCoreKind::Unknown),
{
    let mut v: Vec<CpuCoreKind> = Vec::new();
    for i in 0..n
        invariant
            v@ == Seq::new(i as nat, |j: int| CpuCoreKind::Unknown),
    {
        v.push(CpuCoreKind::Unknown);
        assert(v@ =~= Seq::new((i + 1) as nat, |j: int| CpuCoreKind::Unknown));
    }
    v
}

pub fn detect_kernel_core_groups<S: Sys>(logical_cpus: usize, sys: &S) -> (r: Vec<CpuCoreKind>)
    ensures
        r@ == kernel_kinds_spec(sys, logical_cpus as nat),
{
    let mut kinds = unknown_kinds(logical_cpus);
    if let Some(cpus) = read_cpu_list_file(sys, "/sys/devices/cpu_core/cpus") {
        apply_kind(&mut kinds, cpus.as_slice(), CpuCoreKind::Performance);
    }
    if let Some(cpus) = read_cpu_list_file(sys, "/sys/devices/cpu_atom/cpus") {
        apply_kind(&mut kinds, cpus.as_slice(), CpuCoreKind::Efficiency);
    }
    if let Some(cpus) = read_cpu_list_file(sys, "/sys/devices/cpu_lowpower/cpus") {
        apply_kind(&mut kinds, cpus.as_slice(), CpuCoreKind::LowPower);
    }
    kinds
}

/// Scheduler capacity of each CPU.
pub open spec fn capacities_spec<S: Sys>(sys: &S, n: nat) -> Seq<Option<u64>> {
    Seq::new(n, |i: int| u64_file_spec(sys, cpu_file(i as nat, "cpu_capacity"@)))
}

pub fn detect_capacity_classes<S: Sys>(logical_cpus: usize, sys: &S) -> (r: Option<Vec<CpuCoreKind>>)
    ensures
        match r {
            Some(v) => classify_capacity_spec(capacities_spec(sys, logical_cpus as nat)) == Some(v@),
            None => classify_capacity_spec(capacities_spec(sys, logical_cpus as nat)) is None,
        },
{
    let mut caps: Vec<Option<u64>> = Vec::new();
    for cpu in 0..logical_cpus
        invariant
            caps@ == capacities_spec(sys, logical_cpus as nat).take(cpu as int),
    {
        let path = cpu_file_exec(cpu, "cpu_capacity");
        let c = read_u64(sys, path.as_str());
        caps.push(c);
        assert(caps@ =~= capacities_spec(sys, logical_cpus as nat).take(cpu + 1));
    }
    assert(capacities_spec(sys, logical_cpus as nat).take(logical_cpus as int) =~= capacities_spec(sys, logical_cpus as nat));
    classify_capacity_values(caps.as_slice())
}

/// Number of SMT siblings of each CPU (the length of its core's CPU list).
pub open spec fn sibling_counts_spec<S: Sys>(sys: &S, n: nat) -> Seq<Option<usize>> {
    Seq::new(
        n,
        |i: int|
            match list_file_spec(sys, cpu_file(i as nat, "topology/core_cpus_list"@)) {
                Some(c) => Some(c.len() as usize),
                None => None,
            },
    )
}

pub fn detect_smt_classes<S: Sys>(logical_cpus: usize, sys: &S) -> (r: Option<Vec<CpuCoreKind>>)
    ensures
        match r {
            Some(v) => classify_siblings_spec(sibling_counts_spec(sys, logical_cpus as nat)) == Some(v@),
            None => classify_siblings_spec(sibling_counts_spec(sys, logical_cpus as nat)) is None,
        },
{
    let mut counts: Vec<Option<usize>> = Vec::new();
    for cpu in 0..logical_cpus
        invariant
            counts@ == sibling_counts_spec(sys, logical_cpus as nat).take(cpu as int),
    {
        let path = cpu_file_exec(cpu, "topology/core_cpus_list");
        let c = match read_cpu_list_file(sys, path.as_str()) {
            Some(cpus) => Some(cpus.len()),
            None => None,
        };
        counts.push(c);
        assert(counts@ =~= sibling_counts_spec(sys, logical_cpus as nat).take(cpu + 1));
    }
    assert(sibling_counts_spec(sys, logical_cpus as nat).take(logical_cpus as int) =~= sibling_counts_spec(sys, logical_cpus as nat));
    classify_sibling_counts(counts.as_slice())
}

/// Comma-joined decimal CPU numbers.
pub open spec fn list_key(cpus: Seq<usize>) -> Seq<char> {
    join_with(cpus.map_values(|c: usize| dec_repr(c as nat)), ","@)
}

/// Key that identifies the physical core of `cpu`: its sibling list, or
/// `package:core` when the list is unavailable.
pub open spec fn group_key_spec<S: Sys>(sys: &S, cpu: nat) -> Option<Seq<char>> {
    match list_file_spec(sys, cpu_file(cpu, "topology/core_cpus_list"@)) {
        Some(c) => Some(list_key(c)),
        None => match (
            sys.spec_file(cpu_file(cpu, "topology/physical_package_id"@)),
            sys.spec_file(cpu_file(cpu, "topology/core_id"@)),
        ) {
            (Some(p), Some(c)) => Some(trim(p) + ":"@ + trim(c)),
            _ => None,
        },
    }
}

pub open spec fn groups_spec<S: Sys>(sys: &S, n: nat) -> Seq<Option<Seq<char>>> {
    Seq::new(n, |i: int| group_key_spec(sys, i as nat))
}

fn list_key_exec(cpus: &Vec<usize>) -> (r: String)
    ensures
        r@ == list_key(cpus@),
{
    let ghost parts = cpus@.map_values(|c: usize| dec_repr(c as nat));
    let mut out: Vec<char> = Vec::new();
    for i in 0..cpus.len()
        invariant
            parts == cpus@.map_values(|c: usize| dec_repr(c as nat)),
            out@ == join_with(parts.take(i as int), ","@),
    {
        let ghost pre = parts.take(i as int);
        let ghost nxt = parts.take(i + 1);
        assert(nxt.drop_last() =~= pre);
        if i > 0 {
            append_str(&mut out, ",");
        } else {
            assert(nxt.len() == 1);
        }
        push_dec(&mut out, cpus[i] as u64);
        assert(out@ =~= join_with(nxt, ","@));
    }
    assert(parts.take(cpus@.len() as int) =~= parts);
    string_of(out.as_slice())
}

fn group_key<S: Sys>(sys: &S, cpu: usize) -> (r: Option<String>)
    ensures
        opt_view(r) == group_key_spec(sys, cpu as nat),
{
    let list_path = cpu_file_exec(cpu, "topology/core_cpus_list");
    if let Some(cpus) = read_cpu_list_file(sys, list_path.as_str()) {
        return Some(list_key_exec(&cpus));
    }
    let pkg_path = cpu_file_exec(cpu, "topology/physical_package_id");
    let core_path = cpu_file_exec(cpu, "topology/core_id");
    let package = match sys.read_to_string(pkg_path.as_str()) {
        Some(p) => p,
        None => return None,
    };
    let core = match sys.read_to_string(core_path.as_str()) {
        Some(c) => c,
        None => return None,
    };
    let mut out = trim_str(package.as_str());
    append_str(&mut out, ":");
    let c = trim_str(core.as_str());
    append_chars(&mut out, c.as_slice());
    Some(string_of(out.as_slice()))
}

pub fn read_core_groups<S: Sys>(logical_cpus: usize, sys: &S) -> (r: Vec<Option<String>>)
    ensures
        groups_view(r@) == groups_spec(sys, logical_cpus as nat),
{
    let mut groups: Vec<Option<String>> = Vec::new();
    for cpu in 0..logical_cpus
        invariant
            groups_view(groups@) == groups_spec(sys, logical_cpus as nat).take(cpu as int),
    {
        let g = group_key(sys, cpu);
        let ghost gvw = opt_view(g);
        let ghost before = groups@;
        groups.push(g);
        assert(groups@ == before.push(g));
        assert(groups_view(groups@) =~= groups_view(before).push(gvw));
        assert(groups_view(groups@) =~= groups_spec(sys, logical_cpus as nat).take(cpu + 1));
    }
    assert(groups_spec(sys, logical_cpus as nat).take(logical_cpus as int) =~= groups_spec(sys, logical_cpus as nat));
    groups
}


// ---------------------------------------------------------------------------
// Whole topology
// ---------------------------------------------------------------------------

/// Text of `/proc/cpuinfo`, empty when unreadable.
pub open spec fn cpuinfo_text<S: Sys>(sys: &S) -> Seq<char> {
    match sys.spec_file("/proc/cpuinfo"@) {
        Some(t) => t,
        None => seq![],
    }
}

/// Core kinds: the kernel's hybrid lists first; scheduler capacities when
/// those do not show both classes; SMT sibling counts (Intel only) when
/// neither does; all `Unknown` when no source shows a hybrid CPU.
pub open spec fn topology_kinds_spec<S: Sys>(sys: &S, n: nat) -> Seq<CpuCoreKind> {
    let vendor = cpu_identity_spec(cpuinfo_text(sys)).0;
    let k0 = kernel_kinds_spec(sys, n);
    let k1 = if has_both_spec(k0) {
        k0
    } else {
        match classify_capacity_spec(capacities_spec(sys, n)) {
            Some(c) => c,
            None => k0,
        }
    };
    let k2 = if !has_both_spec(k1) && vendor == CpuVendor::Intel {
        match classify_siblings_spec(sibling_counts_spec(sys, n)) {
            Some(c) => c,
            None => k1,
        }
    } else {
        k1
    };
    if has_both_spec(k2) {
        k2
    } else {
        Seq::new(k2.len(), |i: int| CpuCoreKind::Unknown)
    }
}

/// Detect vendor, model, physical cores and hybrid core classes from the
/// files of `sys`.
pub fn detect_topology<S: Sys>(logical_cpus: usize, sys: &S) -> (r: CpuTopology)
    ensures
        r.vendor == cpu_identity_spec(cpuinfo_text(sys)).0,
        r.model@ == cpu_identity_spec(cpuinfo_text(sys)).1,
        r.logical_cpus == logical_cpus,
        r.physical_cores == unique_groups_spec(groups_spec(sys, logical_cpus as nat)),
        r.core_kinds@ == topology_kinds_spec(sys, logical_cpus as nat),
        r.performance_cores == kind_groups_spec(
            groups_spec(sys, logical_cpus as nat),
            topology_kinds_spec(sys, logical_cpus as nat),
            CpuCoreKind::Performance,
        ),
        r.efficiency_cores == kind_groups_spec(
            groups_spec(sys, logical_cpus as nat),
            topology_kinds_spec(sys, logical_cpus as nat),
            CpuCoreKind::Efficiency,
        ),
        r.low_power_cores == kind_groups_spec(
            groups_spec(sys, logical_cpus as nat),
            topology_kinds_spec(sys, logical_cpus as nat),
            CpuCoreKind::LowPower,
        ),
        cores_view(r.physical_core_groups@) == physical_groups_spec(
            groups_spec(sys, logical_cpus as nat),
            topology_kinds_spec(sys, logical_cpus as nat),
        ),
{
    let cpuinfo = match sys.read_to_string("/proc/cpuinfo") {
        Some(t) => t,
        None => String::new(),
    };
    assert(cpuinfo@ == cpuinfo_text(sys));
    let (vendor, model) = parse_cpu_identity(cpuinfo.as_str());
    let core_groups = read_core_groups(logical_cpus, sys);
    let physical_cores = count_unique_groups(core_groups.as_slice());

    let mut core_kinds = detect_kernel_core_groups(logical_cpus, sys);
    if !has_both_core_kinds(core_kinds.as_slice()) {
        if let Some(capacity_kinds) = detect_capacity_classes(logical_cpus, sys) {
            core_kinds = capacity_kinds;
        }
    }
    if !has_both_core_kinds(core_kinds.as_slice()) && vendor_eq(vendor, CpuVendor::Intel) {
        if let Some(topology_kinds) = detect_smt_classes(logical_cpus, sys) {
            core_kinds = topology_kinds;
        }
    }
    if !has_both_core_kinds(core_kinds.as_slice()) {
        core_kinds = unknown_kinds(core_kinds.len());
    }
    assert(core_kinds@ == topology_kinds_spec(sys, logical_cpus as nat));

    let performance_cores = count_kind_groups(
        core_groups.as_slice(),
        core_kinds.as_slice(),
        CpuCoreKind::Performance,
    );
    let efficiency_cores = count_kind_groups(
        core_groups.as_slice(),
        core_kinds.as_slice(),
        CpuCoreKind::Efficiency,
    );
    let low_power_cores = count_kind_groups(
        core_groups.as_slice(),
        core_kinds.as_slice(),
        CpuCoreKind::LowPower,
    );
    let physical_core_groups = build_physical_core_groups(core_groups.as_slice(), core_kinds.as_slice());
    CpuTopology {
        vendor,
        model,
        logical_cpus,
        physical_cores,
        performance_cores,
        efficiency_cores,
        low_power_cores,
        core_kinds,
        physical_core_groups,
    }
}

proof fn lemma_indices_props(g: Seq<Seq<char>>, k: Seq<char>)
    requires
        g.len() <= usize::MAX,
    ensures
        forall|j: int| 0 <= j < indices_of(g, k).len() ==> g[#[trigger] indices_of(g, k)[j] as int] == k,
        forall|j: int| 0 <= j < indices_of(g, k).len() ==> (#[trigger] indices_of(g, k)[j]) < g.len(),
        forall|i: int| 0 <= i < g.len() && #[trigger] g[i] == k ==> indices_of(g, k).contains(i as usize),
        forall|a: int, b: int|
            0 <= a < b < indices_of(g, k).len() ==> #[trigger] indices_of(g, k)[a] < #[trigger] indices_of(g, k)[b],
    decreases g.len(),
{
    if g.len() > 0 {
        let init = g.drop_last();
        lemma_indices_props(init, k);
        let r = indices_of(init, k);
        let rn = indices_of(g, k);
        assert forall|j: int| 0 <= j < rn.len() implies g[#[trigger] rn[j] as int] == k by {
            if j < r.len() {
                assert(rn[j] == r[j]);
                assert(init[r[j] as int] == k);
            } else {
                assert(rn[j] == (g.len() - 1) as usize);
            }
        }
        assert forall|a: int, b: int| 0 <= a < b < rn.len() implies #[trigger] rn[a] < #[trigger] rn[b] by {
            if b < r.len() {
                assert(rn[a] == r[a] && rn[b] == r[b]);
            } else {
                assert(rn[a] == r[a]);
                assert(rn[b] == (g.len() - 1) as usize);
            }
        }
        assert forall|i: int| 0 <= i < g.len() && #[trigger] g[i] == k implies rn.contains(i as usize) by {
            if i < init.len() {
                assert(init[i] == g[i]);
                let m = choose|m: int| 0 <= m < r.len() && r[m] == i as usize;
                assert(rn[m] == r[m]);
            } else {
                assert(rn[r.len() as int] == i as usize);
            }
        }
    }
}

proof fn lemma_distinct_keys_covers(g: Seq<Seq<char>>)
    ensures
        forall|i: int| 0 <= i < g.len() ==> distinct_keys(g).contains(#[trigger] g[i]),
        distinct_keys(g).len() <= g.len(),
    decreases g.len(),
{
    if g.len() > 0 {
        let init = g.drop_last();
        lemma_distinct_keys_covers(init);
        let d = distinct_keys(init);
        let dn = distinct_keys(g);
        assert forall|i: int| 0 <= i < g.len() implies dn.contains(#[trigger] g[i]) by {
            if i < init.len() {
                assert(init[i] == g[i]);
                let m = choose|m: int| 0 <= m < d.len() && d[m] == g[i];
                assert(dn[m] == d[m]);
            } else if !d.contains(g.last()) {
                assert(dn[d.len() as int] == g[i]);
            }
        }
    }
}

/// Logical CPU `c` belongs to one of the physical-core groups `pg`.
pub open spec fn in_some_group(pg: Seq<(CpuCoreKind, Seq<usize>)>, c: usize) -> bool {
    exists|j: int| 0 <= j < pg.len() && (#[trigger] pg[j].1).contains(c)
}

proof fn lemma_kernel_kinds_len<S: Sys>(sys: &S, n: nat)
    ensures
        kernel_kinds_spec(sys, n).len() == n,
{
}

/// What [`detect_topology`] reports hangs together: one kind per logical
/// CPU; either a hybrid set of kinds or every CPU `Unknown`; no per-class
/// core counts unless hybrid; as many physical cores as physical-core
/// groups (or no count and no groups); and when there are groups, their
/// ascending CPU lists split `0..n` so that each CPU is in exactly one.
pub proof fn law_topology_consistent<S: Sys>(sys: &S, n: usize)
    ensures
        ({
            let ks = topology_kinds_spec(sys, n as nat);
            let gs = groups_spec(sys, n as nat);
            let pg = physical_groups_spec(gs, ks);
            &&& ks.len() == n
            &&& has_both_spec(ks) || forall|i: int| 0 <= i < ks.len() ==> #[trigger] ks[i] == CpuCoreKind::Unknown
            &&& !has_both_spec(ks) ==> kind_groups_spec(gs, ks, CpuCoreKind::Performance) is None
                && kind_groups_spec(gs, ks, CpuCoreKind::Efficiency) is None
                && kind_groups_spec(gs, ks, CpuCoreKind::LowPower) is None
            &&& unique_groups_spec(gs) == Some(pg.len() as usize) || (unique_groups_spec(gs) is None
                && pg.len() == 0)
            &&& forall|j: int, a: int, b: int|
                0 <= j < pg.len() && 0 <= a < b < pg[j].1.len() ==> #[trigger] pg[j].1[a] < #[trigger] pg[j].1[b]
            &&& forall|j: int, a: int| 0 <= j < pg.len() && 0 <= a < pg[j].1.len() ==> #[trigger] pg[j].1[a] < n
            &&& pg.len() > 0 ==> forall|c: usize| c < n ==> #[trigger] in_some_group(pg, c)
            &&& forall|j1: int, j2: int, c: usize|
                0 <= j1 < pg.len() && 0 <= j2 < pg.len() && #[trigger] pg[j1].1.contains(c)
                    && #[trigger] pg[j2].1.contains(c) ==> j1 == j2
        }),
{
    let ks = topology_kinds_spec(sys, n as nat);
    let gs = groups_spec(sys, n as nat);
    let pg = physical_groups_spec(gs, ks);
    let k0 = kernel_kinds_spec(sys, n as nat);
    lemma_kernel_kinds_len(sys, n as nat);
    let caps = capacities_spec(sys, n as nat);
    let sibs = sibling_counts_spec(sys, n as nat);
    match classify_capacity_spec(caps) {
        Some(c) => {
            assert(c.len() == caps.len());
        },
        None => {},
    }
    match classify_siblings_spec(sibs) {
        Some(c) => {
            assert(c.len() == sibs.len());
        },
        None => {},
    }
    assert(ks.len() == n);
    assert(gs.len() == n);
    if gs.len() != 0 && all_present(gs) {
        let g = unwrap_all(gs);
        let d = distinct_keys(g);
        lemma_distinct_keys_covers(g);
        lemma_distinct_keys_unique(g);
        assert(pg.len() == d.len());
        assert forall|j: int| 0 <= j < pg.len() implies pg[j].1 == indices_of(g, #[trigger] d[j]) by {}
        assert forall|j: int, a: int, b: int|
            0 <= j < pg.len() && 0 <= a < b < pg[j].1.len() implies #[trigger] pg[j].1[a] < #[trigger] pg[j].1[b] by {
            lemma_indices_props(g, d[j]);
        }
        assert forall|j: int, a: int| 0 <= j < pg.len() && 0 <= a < pg[j].1.len() implies #[trigger] pg[j].1[a] < n by {
            lemma_indices_props(g, d[j]);
        }
        assert forall|c: usize| c < n implies #[trigger] in_some_group(pg, c) by {
            let k = g[c as int];
            assert(d.contains(k));
            let j = choose|j: int| 0 <= j < d.len() && d[j] == k;
            lemma_indices_props(g, k);
            assert(pg[j].1 == indices_of(g, d[j]));
        }
        assert forall|j1: int, j2: int, c: usize|
            0 <= j1 < pg.len() && 0 <= j2 < pg.len() && #[trigger] pg[j1].1.contains(c)
                && #[trigger] pg[j2].1.contains(c) implies j1 == j2 by {
            lemma_indices_props(g, d[j1]);
            lemma_indices_props(g, d[j2]);
            let a = choose|a: int| 0 <= a < pg[j1].1.len() && pg[j1].1[a] == c;
            let b = choose|b: int| 0 <= b < pg[j2].1.len() && pg[j2].1[b] == c;
            assert(pg[j1].1 == indices_of(g, d[j1]));
            assert(pg[j2].1 == indices_of(g, d[j2]));
            assert(g[c as int] == d[j1]);
            assert(g[c as int] == d[j2]);
        }
    }
}

/// Scheduler capacities split the CPUs by size: when they classify the CPUs
/// at all, every CPU gets a class, both classes occur, and a CPU with at
/// least the capacity of a performance CPU is a performance CPU.
pub proof fn law_capacity_classes_are_monotone(caps: Seq<Option<u64>>)
    ensures
        classify_capacity_spec(caps) is Some ==> {
            let ks = classify_capacity_spec(caps)->0;
            &&& ks.len() == caps.len()
            &&& forall|i: int| 0 <= i < caps.len() ==> (#[trigger] caps[i]) is Some
            &&& forall|i: int|
                0 <= i < ks.len() ==> #[trigger] ks[i] == CpuCoreKind::Performance || ks[i]
                    == CpuCoreKind::Efficiency
            &&& has_kind(ks, CpuCoreKind::Performance) && has_kind(ks, CpuCoreKind::Efficiency)
            &&& forall|i: int, j: int|
                0 <= i < ks.len() && 0 <= j < ks.len() && (#[trigger] caps[i])->0 >= (#[trigger] caps[j])->0
                    && ks[j] == CpuCoreKind::Performance ==> ks[i] == CpuCoreKind::Performance
        },
        (exists|i: int| 0 <= i < caps.len() && (#[trigger] caps[i]) is None) ==> classify_capacity_spec(caps) is None,
{
    if classify_capacity_spec(caps) is Some {
        let ks = classify_capacity_spec(caps)->0;
        let vals = unwrap_all(caps);
        assert forall|i: int| 0 <= i < ks.len() implies #[trigger] ks[i] == CpuCoreKind::Performance || ks[i]
            == CpuCoreKind::Efficiency by {}
        assert(has_kind(ks, CpuCoreKind::Efficiency)) by {
            if !has_kind(ks, CpuCoreKind::Efficiency) {
                assert(has_kind(ks, CpuCoreKind::LowPower));
                let i = choose|i: int| 0 <= i < ks.len() && ks[i] == CpuCoreKind::LowPower;
            }
        }
        assert forall|i: int, j: int|
            0 <= i < ks.len() && 0 <= j < ks.len() && (#[trigger] caps[i])->0 >= (#[trigger] caps[j])->0
                && ks[j] == CpuCoreKind::Performance implies ks[i] == CpuCoreKind::Performance by {
            assert(vals[i] == caps[i]->0 && vals[j] == caps[j]->0);
        }
    }
}

proof fn lemma_seq_bounds_usize(s: Seq<usize>)
    requires
        s.len() > 0,
    ensures
        forall|i: int| 0 <= i < s.len() ==> seq_min_usize(s) <= #[trigger] s[i] <= seq_max_usize(s),
    decreases s.len(),
{
    if s.len() > 1 {
        lemma_seq_bounds_usize(s.drop_last());
        assert forall|i: int| 0 <= i < s.len() implies seq_min_usize(s) <= #[trigger] s[i] <= seq_max_usize(s) by {
            if i < s.len() - 1 {
                assert(s[i] == s.drop_last()[i]);
            }
        }
    }
}

/// SMT sibling counts split the CPUs by thread count: when they classify
/// the CPUs at all, every CPU gets a class, both classes occur, CPUs with
/// equal counts get the same class, and every performance CPU has more
/// siblings than every efficiency CPU.
pub proof fn law_sibling_classes_split_by_count(counts: Seq<Option<usize>>)
    ensures
        classify_siblings_spec(counts) is Some ==> {
            let ks = classify_siblings_spec(counts)->0;
            &&& ks.len() == counts.len()
            &&& forall|i: int| 0 <= i < counts.len() ==> (#[trigger] counts[i]) is Some
            &&& forall|i: int|
                0 <= i < ks.len() ==> #[trigger] ks[i] == CpuCoreKind::Performance || ks[i]
                    == CpuCoreKind::Efficiency
            &&& has_kind(ks, CpuCoreKind::Performance) && has_kind(ks, CpuCoreKind::Efficiency)
            &&& forall|i: int, j: int|
                0 <= i < ks.len() && 0 <= j < ks.len() && (#[trigger] counts[i]) == (#[trigger] counts[j])
                    ==> ks[i] == ks[j]
            &&& forall|i: int, j: int|
                0 <= i < ks.len() && 0 <= j < ks.len() && #[trigger] ks[i] == CpuCoreKind::Performance
                    && #[trigger] ks[j] == CpuCoreKind::Efficiency ==> counts[i]->0 > counts[j]->0
        },
        (exists|i: int| 0 <= i < counts.len() && (#[trigger] counts[i]) is None) ==> classify_siblings_spec(counts) is None,
{
    if classify_siblings_spec(counts) is Some {
        let ks = classify_siblings_spec(counts)->0;
        let vals = unwrap_all(counts);
        lemma_seq_bounds_usize(vals);
        assert forall|i: int| 0 <= i < ks.len() implies #[trigger] ks[i] == CpuCoreKind::Performance || ks[i]
            == CpuCoreKind::Efficiency by {
            if ks[i] == CpuCoreKind::Unknown {
                assert(has_kind(ks, CpuCoreKind::Unknown));
            }
        }
        assert(has_kind(ks, CpuCoreKind::Efficiency)) by {
            if !has_kind(ks, CpuCoreKind::Efficiency) {
                assert(has_kind(ks, CpuCoreKind::LowPower));
                let i = choose|i: int| 0 <= i < ks.len() && ks[i] == CpuCoreKind::LowPower;
            }
        }
        assert forall|i: int, j: int|
            0 <= i < ks.len() && 0 <= j < ks.len() && (#[trigger] counts[i]) == (#[trigger] counts[j])
                implies ks[i] == ks[j] by {
            assert(vals[i] == counts[i]->0 && vals[j] == counts[j]->0);
        }
        assert forall|i: int, j: int|
            0 <= i < ks.len() && 0 <= j < ks.len() && #[trigger] ks[i] == CpuCoreKind::Performance
                && #[trigger] ks[j] == CpuCoreKind::Efficiency implies counts[i]->0 > counts[j]->0 by {
            assert(vals[i] == counts[i]->0 && vals[j] == counts[j]->0);
            assert(seq_min_usize(vals) <= vals[i] <= seq_max_usize(vals));
        }
    }
}

/// A CPU-list item `a-b` is the inclusive range of CPUs from `a` to `b`,
/// and nothing valid when `b < a`; a lone number `a` is that one CPU.
pub proof fn law_cpu_range_item(a: usize, b: usize)
    ensures
        a <= b ==> ({
            let r = parse_list_item(dec_repr(a as nat) + "-"@ + dec_repr(b as nat));
            &&& r is Some
            &&& r->0.len() == b - a + 1
            &&& forall|i: int| 0 <= i < r->0.len() ==> #[trigger] r->0[i] == a + i
        }),
        b < a ==> parse_list_item(dec_repr(a as nat) + "-"@ + dec_repr(b as nat)) is None,
        parse_list_item(dec_repr(a as nat)) == Some(seq![a]),
{
    reveal_strlit("-");
    let da = dec_repr(a as nat);
    let db = dec_repr(b as nat);
    crate::text::lemma_dec_repr_digits(a as nat);
    crate::text::lemma_dec_repr_digits(b as nat);
    crate::text::lemma_trim_dec_repr(a as nat);
    crate::text::lemma_trim_dec_repr(b as nat);
    crate::text::lemma_parse_dec_repr(a as nat, usize::MAX as nat);
    crate::text::lemma_parse_dec_repr(b as nat, usize::MAX as nat);
    let t = da + "-"@ + db;
    assert forall|j: int| 0 <= j < da.len() implies da[j] != '-' by {
        assert(crate::text::is_digit(da[j]));
    }
    assert forall|j: int| 0 <= j < da.len() implies t[j] != '-' by {
        assert(t[j] == da[j]);
    }
    assert(t[da.len() as int] == '-');
    crate::text::lemma_first_index_found(t, '-', da.len() as int);
    assert(t.take(da.len() as int) =~= da);
    assert(t.skip(da.len() as int + 1) =~= db);
    crate::text::lemma_first_index_absent(da, '-');
    if a <= b {
        let r = parse_list_item(t)->0;
        assert(r == range_seq(a as nat, b as nat));
    }
}

} // verus!
