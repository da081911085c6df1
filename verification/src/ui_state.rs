//! Interactive state of the process table: sorting, grouping by program,
//! pinning, selection, keyboard navigation, scrolling and mouse hits.
//!
//! Everything here is decided from plain values: processes carry their CPU
//! load in thousandths of a percent, time is a monotonic nanosecond count,
//! and screen areas are [`Rect`]s of terminal cells.

use vstd::prelude::*;

use crate::order::{
    first_index, lemma_first_index_at, lemma_first_index_none, lemma_first_index_props, lex_lt,
    lex_lt_exec,
};
use crate::text::{chars_of, eq_chars, str_eq};
use crate::text::{append_str, dec_repr, push_dec, string_of};
use crate::ui::{process_sort_name, sort_name_spec, ProcessSortKey};

verus! {

/// A rectangle of terminal cells.
#[derive(Clone, Copy, Debug, Default, PartialEq, Eq)]
pub struct Rect {
    pub x: u16,
    pub y: u16,
    pub width: u16,
    pub height: u16,
}

impl Rect {
    pub fn new(x: u16, y: u16, width: u16, height: u16) -> (r: Self)
        ensures
            r == (Rect { x, y, width, height }),
    {
        Rect { x, y, width, height }
    }
}

pub open spec fn sat_add16(a: u16, b: u16) -> int {
    if a + b > u16::MAX {
        u16::MAX as int
    } else {
        a + b
    }
}

/// The cell `(x, y)` lies inside `rect` (edges saturate at the screen's
/// coordinate limit).
pub open spec fn rect_contains_spec(rect: Rect, x: u16, y: u16) -> bool {
    x >= rect.x && x < sat_add16(rect.x, rect.width) && y >= rect.y && y < sat_add16(
        rect.y,
        rect.height,
    )
}

pub fn rect_contains(rect: Rect, x: u16, y: u16) -> (r: bool)
    ensures
        r == rect_contains_spec(rect, x, y),
{
    x >= rect.x && x < rect.x.saturating_add(rect.width) && y >= rect.y && y
        < rect.y.saturating_add(rect.height)
}

/// One process as the table shows it.
#[derive(Clone, Debug, Default)]
pub struct ProcessStats {
    pub pid: u32,
    pub program: String,
    pub command: String,
    /// CPU load in thousandths of a percent (100% of one core = 100_000).
    pub cpu_millipct: u64,
    pub memory_bytes: u64,
    pub threads: usize,
}

/// What a table row stands for.
#[derive(Clone, Debug, PartialEq, Eq)]
pub enum ProcessRowTarget {
    Process(u32),
    Group(String),
}

pub enum TargetModel {
    Process(u32),
    Group(Seq<char>),
}

pub open spec fn target_view(t: ProcessRowTarget) -> TargetModel {
    match t {
        ProcessRowTarget::Process(p) => TargetModel::Process(p),
        ProcessRowTarget::Group(g) => TargetModel::Group(g@),
    }
}

pub open spec fn targets_view(v: Seq<ProcessRowTarget>) -> Seq<TargetModel> {
    v.map_values(|t: ProcessRowTarget| target_view(t))
}

// ---------------------------------------------------------------------------
// Stable insertion order
// ---------------------------------------------------------------------------

/// Where `x` goes in `s`: after every element it does not strictly precede.
pub open spec fn ins_pos<T>(s: Seq<T>, x: T, lt: spec_fn(T, T) -> bool) -> int
    decreases s.len(),
{
    if s.len() == 0 {
        0
    } else if lt(x, s[0]) {
        0
    } else {
        1 + ins_pos(s.drop_first(), x, lt)
    }
}

/// Stable insertion sort under the strict order `lt`: elements that do not
/// precede one another keep their input order.
pub open spec fn ins_sort<T>(s: Seq<T>, lt: spec_fn(T, T) -> bool) -> Seq<T>
    decreases s.len(),
{
    if s.len() == 0 {
        s
    } else {
        let t = ins_sort(s.drop_last(), lt);
        t.insert(ins_pos(t, s.last(), lt), s.last())
    }
}

pub proof fn lemma_ins_pos_bounds<T>(s: Seq<T>, x: T, lt: spec_fn(T, T) -> bool)
    ensures
        0 <= ins_pos(s, x, lt) <= s.len(),
    decreases s.len(),
{
    if s.len() > 0 {
        lemma_ins_pos_bounds(s.drop_first(), x, lt);
    }
}

pub proof fn lemma_ins_sort_len<T>(s: Seq<T>, lt: spec_fn(T, T) -> bool)
    ensures
        ins_sort(s, lt).len() == s.len(),
    decreases s.len(),
{
    if s.len() > 0 {
        lemma_ins_sort_len(s.drop_last(), lt);
        lemma_ins_pos_bounds(ins_sort(s.drop_last(), lt), s.last(), lt);
    }
}

/// `ins_pos` is the first position whose element `x` strictly precedes.
pub proof fn lemma_ins_pos_at<T>(s: Seq<T>, x: T, lt: spec_fn(T, T) -> bool, i: int)
    requires
        0 <= i <= s.len(),
        forall|j: int| 0 <= j < i ==> !lt(x, #[trigger] s[j]),
        i == s.len() || lt(x, s[i]),
    ensures
        ins_pos(s, x, lt) == i,
    decreases s.len(),
{
    if s.len() > 0 && i > 0 {
        assert forall|j: int| 0 <= j < i - 1 implies !lt(x, #[trigger] s.drop_first()[j]) by {
            assert(s.drop_first()[j] == s[j + 1]);
        }
        lemma_ins_pos_at(s.drop_first(), x, lt, i - 1);
    }
}

/// `lt` is a strict order: irreflexive and transitive.
pub open spec fn strict_order<T>(lt: spec_fn(T, T) -> bool) -> bool {
    &&& forall|a: T| !#[trigger] lt(a, a)
    &&& forall|a: T, b: T, c: T| #[trigger] lt(a, b) && #[trigger] lt(b, c) ==> lt(a, c)
}

/// No element is placed after one it strictly precedes.
pub open spec fn ordered_by<T>(s: Seq<T>, lt: spec_fn(T, T) -> bool) -> bool {
    forall|i: int, j: int| 0 <= i < j < s.len() ==> !lt(#[trigger] s[j], #[trigger] s[i])
}

/// Insertion sort under a strict order gives an ordered permutation.
pub proof fn lemma_ins_sort_ordered<T>(s: Seq<T>, lt: spec_fn(T, T) -> bool)
    requires
        strict_order(lt),
    ensures
        ordered_by(ins_sort(s, lt), lt),
        ins_sort(s, lt).to_multiset() == s.to_multiset(),
    decreases s.len(),
{
    broadcast use vstd::seq_lib::to_multiset_build, vstd::seq_lib::to_multiset_insert;
    if s.len() > 0 {
        let t = ins_sort(s.drop_last(), lt);
        let x = s.last();
        lemma_ins_sort_ordered(s.drop_last(), lt);
        lemma_ins_pos_bounds(t, x, lt);
        let p = ins_pos(t, x, lt);
        lemma_ins_pos_first(t, x, lt);
        let r = t.insert(p, x);
        assert(s =~= s.drop_last().push(x));
        assert forall|i: int, j: int| 0 <= i < j < r.len() implies !lt(#[trigger] r[j], #[trigger] r[i]) by {
            if j < p {
                assert(r[i] == t[i] && r[j] == t[j]);
            } else if j == p {
                assert(r[i] == t[i]);
            } else if i == p {
                assert(r[j] == t[j - 1]);
                if lt(t[j - 1], x) {
                    if j - 1 == p {
                        assert(lt(t[p], t[p]));
                    } else {
                        assert(lt(t[j - 1], t[p]));
                    }
                }
            } else if i < p {
                assert(r[i] == t[i] && r[j] == t[j - 1]);
            } else {
                assert(r[i] == t[i - 1] && r[j] == t[j - 1]);
            }
        }
    }
}

/// `ins_pos` stops at the first element that `x` strictly precedes.
pub proof fn lemma_ins_pos_first<T>(s: Seq<T>, x: T, lt: spec_fn(T, T) -> bool)
    ensures
        forall|j: int| 0 <= j < ins_pos(s, x, lt) ==> !lt(x, #[trigger] s[j]),
        ins_pos(s, x, lt) < s.len() ==> lt(x, s[ins_pos(s, x, lt)]),
    decreases s.len(),
{
    lemma_ins_pos_bounds(s, x, lt);
    if s.len() > 0 && !lt(x, s[0]) {
        lemma_ins_pos_first(s.drop_first(), x, lt);
        lemma_ins_pos_bounds(s.drop_first(), x, lt);
        let q = ins_pos(s.drop_first(), x, lt);
        if q < s.len() - 1 {
            assert(s[q + 1] == s.drop_first()[q]);
        }
        assert forall|j: int| 0 <= j < ins_pos(s, x, lt) implies !lt(x, #[trigger] s[j]) by {
            if j > 0 {
                assert(s[j] == s.drop_first()[j - 1]);
            }
        }
    }
}

// ---------------------------------------------------------------------------
// Sorting processes
// ---------------------------------------------------------------------------

/// -1, 0 or 1 as `a` is below, equal to or above `b`.
pub open spec fn order3(a: int, b: int) -> int {
    if a < b {
        -1
    } else if a == b {
        0
    } else {
        1
    }
}

pub open spec fn text_order3(a: Seq<char>, b: Seq<char>) -> int {
    if lex_lt(a, b) {
        -1
    } else if a == b {
        0
    } else {
        1
    }
}

/// Comparison of two processes on the sort column.
pub open spec fn column_order(a: ProcessStats, b: ProcessStats, key: ProcessSortKey) -> int {
    match key {
        ProcessSortKey::Pid => order3(a.pid as int, b.pid as int),
        ProcessSortKey::Program => text_order3(a.program@, b.program@),
        ProcessSortKey::Cpu => order3(a.cpu_millipct as int, b.cpu_millipct as int),
        ProcessSortKey::Memory => order3(a.memory_bytes as int, b.memory_bytes as int),
        ProcessSortKey::Threads => order3(a.threads as int, b.threads as int),
    }
}

/// `a` is listed strictly before `b`: by the sort column (reversed when
/// descending), then by ascending PID.
pub open spec fn process_before(a: ProcessStats, b: ProcessStats, key: ProcessSortKey, descending: bool) -> bool {
    let o = if descending {
        -column_order(a, b, key)
    } else {
        column_order(a, b, key)
    };
    o < 0 || (o == 0 && a.pid < b.pid)
}

pub open spec fn index_before(ps: Seq<ProcessStats>, key: ProcessSortKey, descending: bool) -> spec_fn(
    usize,
    usize,
) -> bool {
    |i: usize, j: usize| process_before(ps[i as int], ps[j as int], key, descending)
}

/// `0, 1, ..., n - 1`.
pub open spec fn indices(n: nat) -> Seq<usize> {
    Seq::new(n, |i: int| i as usize)
}

/// Positions of the processes in display order.
pub open spec fn sorted_spec(ps: Seq<ProcessStats>, key: ProcessSortKey, descending: bool) -> Seq<usize> {
    ins_sort(indices(ps.len()), index_before(ps, key, descending))
}

fn order3_exec(a: u64, b: u64) -> (r: i8)
    ensures
        r == order3(a as int, b as int),
{
    if a < b {
        -1
    } else if a == b {
        0
    } else {
        1
    }
}

fn column_order_exec(a: &ProcessStats, b: &ProcessStats, key: ProcessSortKey) -> (r: i8)
    ensures
        r == column_order(*a, *b, key),
{
    match key {
        ProcessSortKey::Pid => order3_exec(a.pid as u64, b.pid as u64),
        ProcessSortKey::Program => {
            let av = chars_of(a.program.as_str());
            let bv = chars_of(b.program.as_str());
            if lex_lt_exec(av.as_slice(), bv.as_slice()) {
                -1
            } else if eq_chars(av.as_slice(), bv.as_slice()) {
                0
            } else {
                1
            }
        },
        ProcessSortKey::Cpu => order3_exec(a.cpu_millipct, b.cpu_millipct),
        ProcessSortKey::Memory => order3_exec(a.memory_bytes, b.memory_bytes),
        ProcessSortKey::Threads => order3_exec(a.threads as u64, b.threads as u64),
    }
}

fn process_before_exec(a: &ProcessStats, b: &ProcessStats, key: ProcessSortKey, descending: bool) -> (r: bool)
    ensures
        r == process_before(*a, *b, key, descending),
{
    let c = column_order_exec(a, b, key);
    let o: i8 = if descending {
        -c
    } else {
        c
    };
    o < 0 || (o == 0 && a.pid < b.pid)
}

/// Positions of `processes` in display order: by the sort column (reversed
/// when descending), ties by ascending PID, otherwise stable.
/// The text comparison is antisymmetric: swapping the two sides negates it.
proof fn lemma_text_order3_swap(a: Seq<char>, b: Seq<char>)
    ensures
        text_order3(b, a) == -text_order3(a, b),
{
    crate::order::lemma_lex_asymmetric(a, b);
    crate::order::lemma_lex_irreflexive(a);
    if a != b {
        crate::order::lemma_lex_total(a, b);
    }
}

proof fn lemma_text_order3_trans(a: Seq<char>, b: Seq<char>, c: Seq<char>)
    requires
        text_order3(a, b) <= 0,
        text_order3(b, c) <= 0,
    ensures
        text_order3(a, c) <= 0,
        text_order3(a, c) == 0 ==> text_order3(a, b) == 0 && text_order3(b, c) == 0,
{
    crate::order::lemma_lex_irreflexive(a);
    if lex_lt(a, b) && lex_lt(b, c) {
        crate::order::lemma_lex_transitive(a, b, c);
    }
    if a == c && lex_lt(a, b) {
        crate::order::lemma_lex_asymmetric(a, b);
    }
}

/// The column comparison, read in the display direction, is antisymmetric
/// and transitive.
proof fn lemma_column_order_props(
    a: ProcessStats,
    b: ProcessStats,
    c: ProcessStats,
    key: ProcessSortKey,
)
    ensures
        column_order(b, a, key) == -column_order(a, b, key),
        column_order(a, b, key) <= 0 && column_order(b, c, key) <= 0 ==> column_order(a, c, key)
            <= 0 && (column_order(a, c, key) == 0 ==> column_order(a, b, key) == 0
            && column_order(b, c, key) == 0),
        column_order(a, a, key) == 0,
{
    match key {
        ProcessSortKey::Program => {
            lemma_text_order3_swap(a.program@, b.program@);
            crate::order::lemma_lex_irreflexive(a.program@);
            if column_order(a, b, key) <= 0 && column_order(b, c, key) <= 0 {
                lemma_text_order3_trans(a.program@, b.program@, c.program@);
            }
        },
        _ => {},
    }
}

/// The display order of processes is a strict order.
pub proof fn lemma_process_before_strict(ps: Seq<ProcessStats>, key: ProcessSortKey, descending: bool)
    ensures
        strict_order(index_before(ps, key, descending)),
{
    let lt = index_before(ps, key, descending);
    assert forall|i: usize| !#[trigger] lt(i, i) by {
        lemma_column_order_props(ps[i as int], ps[i as int], ps[i as int], key);
    }
    assert forall|i: usize, j: usize, k: usize| #[trigger] lt(i, j) && #[trigger] lt(j, k) implies lt(
        i,
        k,
    ) by {
        let a = ps[i as int];
        let b = ps[j as int];
        let c = ps[k as int];
        lemma_column_order_props(a, b, c, key);
        lemma_column_order_props(c, b, a, key);
        lemma_column_order_props(b, a, c, key);
        lemma_column_order_props(a, c, b, key);
    }
}

/// The process table lists every process exactly once, and never lists a
/// process after one that it precedes by the sort column (reversed when
/// descending) and then by PID.
pub proof fn law_sorted_processes_ordered(ps: Seq<ProcessStats>, key: ProcessSortKey, descending: bool)
    ensures
        sorted_spec(ps, key, descending).to_multiset() == indices(ps.len()).to_multiset(),
        forall|i: int, j: int|
            0 <= i < j < sorted_spec(ps, key, descending).len() ==> !process_before(
                ps[sorted_spec(ps, key, descending)[j] as int],
                ps[sorted_spec(ps, key, descending)[i] as int],
                key,
                descending,
            ),
{
    let lt = index_before(ps, key, descending);
    lemma_process_before_strict(ps, key, descending);
    lemma_ins_sort_ordered(indices(ps.len()), lt);
    let r = sorted_spec(ps, key, descending);
    assert forall|i: int, j: int| 0 <= i < j < r.len() implies !process_before(
        ps[r[j] as int],
        ps[r[i] as int],
        key,
        descending,
    ) by {
        assert(!lt(r[j], r[i]));
    }
}

pub fn sorted_processes(processes: &[ProcessStats], key: ProcessSortKey, descending: bool) -> (r:
    Vec<usize>)
    ensures
        r@ == sorted_spec(processes@, key, descending),
{
    let ghost ps = processes@;
    let ghost lt = index_before(ps, key, descending);
    let ghost all = indices(ps.len());
    let mut out: Vec<usize> = Vec::new();
    assert(all.take(0) =~= seq![]);
    for i in 0..processes.len()
        invariant
            ps == processes@,
            lt == index_before(ps, key, descending),
            all == indices(ps.len()),
            out@ == ins_sort(all.take(i as int), lt),
            forall|j: int| 0 <= j < out@.len() ==> #[trigger] out@[j] < i,
    {
        let ghost pre = all.take(i as int);
        assert(all.take(i + 1).drop_last() =~= pre);
        assert(all.take(i + 1).last() == i);
        proof {
            lemma_ins_sort_len(pre, lt);
        }
        let mut pos: usize = 0;
        while pos < out.len() && !process_before_exec(&processes[i], &processes[out[pos]], key, descending)
            invariant
                0 <= pos <= out@.len(),
                i < ps.len(),
                ps == processes@,
                lt == index_before(ps, key, descending),
                forall|j: int| 0 <= j < out@.len() ==> #[trigger] out@[j] < i,
                forall|j: int| 0 <= j < pos ==> !lt(i, #[trigger] out@[j]),
            decreases out@.len() - pos,
        {
            pos = pos + 1;
        }
        proof {
            lemma_ins_pos_at(out@, i, lt, pos as int);
        }
        let ghost before = out@;
        out.insert(pos, i);
        assert(out@ =~= ins_sort(all.take(i + 1), lt));
        assert forall|j: int| 0 <= j < out@.len() implies #[trigger] out@[j] < i + 1 by {
            if j < pos {
                assert(out@[j] == before[j]);
            } else if j > pos {
                assert(out@[j] == before[j - 1]);
            }
        }
    }
    assert(all.take(processes@.len() as int) =~= all);
    out
}


/// The pinned process's position, if it is present, and the other
/// positions in display order.
pub open spec fn with_pin_spec(
    ps: Seq<ProcessStats>,
    key: ProcessSortKey,
    descending: bool,
    pinned_pid: Option<u32>,
) -> (Option<usize>, Seq<usize>) {
    let s = sorted_spec(ps, key, descending);
    match pinned_pid {
        Some(pid) => match first_pid_pos(ps, s, pid) {
            Some(k) => (Some(s[k]), s.remove(k)),
            None => (None, s),
        },
        None => (None, s),
    }
}

/// First position in `s` whose process has PID `pid`.
pub open spec fn first_pid_pos(ps: Seq<ProcessStats>, s: Seq<usize>, pid: u32) -> Option<int>
    decreases s.len(),
{
    if s.len() == 0 {
        None
    } else if ps[s[0] as int].pid == pid {
        Some(0)
    } else {
        match first_pid_pos(ps, s.drop_first(), pid) {
            Some(k) => Some(k + 1),
            None => None,
        }
    }
}

proof fn lemma_first_pid_pos_at(ps: Seq<ProcessStats>, s: Seq<usize>, pid: u32, k: int)
    requires
        0 <= k < s.len(),
        ps[s[k] as int].pid == pid,
        forall|j: int| 0 <= j < k ==> ps[#[trigger] s[j] as int].pid != pid,
    ensures
        first_pid_pos(ps, s, pid) == Some(k),
    decreases s.len(),
{
    if k > 0 {
        assert forall|j: int| 0 <= j < k - 1 implies ps[#[trigger] s.drop_first()[j] as int].pid
            != pid by {
            assert(s.drop_first()[j] == s[j + 1]);
        }
        lemma_first_pid_pos_at(ps, s.drop_first(), pid, k - 1);
    }
}

proof fn lemma_first_pid_pos_none(ps: Seq<ProcessStats>, s: Seq<usize>, pid: u32)
    requires
        forall|j: int| 0 <= j < s.len() ==> ps[#[trigger] s[j] as int].pid != pid,
    ensures
        first_pid_pos(ps, s, pid) is None,
    decreases s.len(),
{
    if s.len() > 0 {
        assert forall|j: int| 0 <= j < s.len() - 1 implies ps[#[trigger] s.drop_first()[j] as int].pid
            != pid by {
            assert(s.drop_first()[j] == s[j + 1]);
        }
        lemma_first_pid_pos_none(ps, s.drop_first(), pid);
    }
}

proof fn lemma_sorted_in_range(ps: Seq<ProcessStats>, key: ProcessSortKey, descending: bool)
    ensures
        sorted_spec(ps, key, descending).len() == ps.len(),
        forall|j: int|
            0 <= j < sorted_spec(ps, key, descending).len() ==> #[trigger] sorted_spec(
                ps,
                key,
                descending,
            )[j] < ps.len(),
{
    lemma_ins_sort_len(indices(ps.len()), index_before(ps, key, descending));
    lemma_ins_sort_members(indices(ps.len()), index_before(ps, key, descending), ps.len());
}

/// A property of every input element holds of every sorted element.
pub proof fn lemma_ins_sort_all<T>(s: Seq<T>, lt: spec_fn(T, T) -> bool, p: spec_fn(T) -> bool)
    requires
        forall|j: int| 0 <= j < s.len() ==> p(#[trigger] s[j]),
    ensures
        forall|j: int| 0 <= j < ins_sort(s, lt).len() ==> p(#[trigger] ins_sort(s, lt)[j]),
    decreases s.len(),
{
    if s.len() > 0 {
        let t = ins_sort(s.drop_last(), lt);
        assert forall|j: int| 0 <= j < s.drop_last().len() implies p(#[trigger] s.drop_last()[j]) by {
            assert(s.drop_last()[j] == s[j]);
        }
        lemma_ins_sort_all(s.drop_last(), lt, p);
        lemma_ins_pos_bounds(t, s.last(), lt);
        let q = ins_pos(t, s.last(), lt);
        let r = t.insert(q, s.last());
        assert forall|j: int| 0 <= j < r.len() implies p(#[trigger] r[j]) by {
            if j < q {
                assert(r[j] == t[j]);
            } else if j > q {
                assert(r[j] == t[j - 1]);
            }
        }
    }
}

/// Every element of the sorted sequence is below `n` when every input is.
proof fn lemma_ins_sort_members(s: Seq<usize>, lt: spec_fn(usize, usize) -> bool, n: nat)
    requires
        forall|j: int| 0 <= j < s.len() ==> #[trigger] s[j] < n,
    ensures
        forall|j: int| 0 <= j < ins_sort(s, lt).len() ==> #[trigger] ins_sort(s, lt)[j] < n,
    decreases s.len(),
{
    if s.len() > 0 {
        let t = ins_sort(s.drop_last(), lt);
        assert forall|j: int| 0 <= j < s.drop_last().len() implies #[trigger] s.drop_last()[j]
            < n by {
            assert(s.drop_last()[j] == s[j]);
        }
        lemma_ins_sort_members(s.drop_last(), lt, n);
        lemma_ins_pos_bounds(t, s.last(), lt);
        let p = ins_pos(t, s.last(), lt);
        let r = t.insert(p, s.last());
        assert forall|j: int| 0 <= j < r.len() implies #[trigger] r[j] < n by {
            if j < p {
                assert(r[j] == t[j]);
            } else if j > p {
                assert(r[j] == t[j - 1]);
            }
        }
    }
}

/// The pinned process (when present) taken out of the display order.
pub fn sorted_processes_with_pin(
    processes: &[ProcessStats],
    key: ProcessSortKey,
    descending: bool,
    pinned_pid: Option<u32>,
) -> (r: (Option<usize>, Vec<usize>))
    ensures
        (r.0, r.1@) == with_pin_spec(processes@, key, descending, pinned_pid),
        forall|j: int| 0 <= j < r.1@.len() ==> #[trigger] r.1@[j] < processes@.len(),
        match r.0 {
            Some(i) => i < processes@.len(),
            None => true,
        },
{
    let mut sorted = sorted_processes(processes, key, descending);
    let ghost s = sorted@;
    proof {
        lemma_sorted_in_range(processes@, key, descending);
    }
    let pid = match pinned_pid {
        Some(p) => p,
        None => return (None, sorted),
    };
    let mut k: usize = 0;
    while k < sorted.len()
        invariant
            sorted@ == s,
            pinned_pid == Some(pid),
            s == sorted_spec(processes@, key, descending),
            forall|j: int| 0 <= j < s.len() ==> #[trigger] s[j] < processes@.len(),
            0 <= k <= s.len(),
            forall|j: int| 0 <= j < k ==> processes@[#[trigger] s[j] as int].pid != pid,
        decreases s.len() - k,
    {
        if processes[sorted[k]].pid == pid {
            proof {
                lemma_first_pid_pos_at(processes@, s, pid, k as int);
            }
            let idx = sorted.remove(k);
            assert(sorted@ =~= s.remove(k as int));
            assert forall|j: int| 0 <= j < sorted@.len() implies #[trigger] sorted@[j] < processes@.len() by {
                if j < k {
                    assert(sorted@[j] == s[j]);
                } else {
                    assert(sorted@[j] == s[j + 1]);
                }
            }
            return (Some(idx), sorted);
        }
        k = k + 1;
    }
    proof {
        lemma_first_pid_pos_none(processes@, s, pid);
    }
    (None, sorted)
}


// ---------------------------------------------------------------------------
// Grouping by program
// ---------------------------------------------------------------------------

/// Processes with the same program, as positions in display order.
pub open spec fn groups_of(ps: Seq<ProcessStats>, u: Seq<usize>) -> Seq<(Seq<char>, Seq<usize>)>
    decreases u.len(),
{
    if u.len() == 0 {
        seq![]
    } else {
        let gs = groups_of(ps, u.drop_last());
        let i = u.last();
        let prog = ps[i as int].program@;
        match first_index(gs, prog) {
            Some(g) => gs.update(g, (prog, gs[g].1.push(i))),
            None => gs.push((prog, seq![i])),
        }
    }
}

pub open spec fn sat_add64(a: u64, b: u64) -> u64 {
    if a + b > u64::MAX {
        u64::MAX
    } else {
        (a + b) as u64
    }
}

pub open spec fn sat_add_size(a: usize, b: usize) -> usize {
    if a + b > usize::MAX {
        usize::MAX
    } else {
        (a + b) as usize
    }
}

pub open spec fn sum_cpu(ps: Seq<ProcessStats>, ms: Seq<usize>) -> u64
    decreases ms.len(),
{
    if ms.len() == 0 {
        0
    } else {
        sat_add64(sum_cpu(ps, ms.drop_last()), ps[ms.last() as int].cpu_millipct)
    }
}

pub open spec fn sum_memory(ps: Seq<ProcessStats>, ms: Seq<usize>) -> u64
    decreases ms.len(),
{
    if ms.len() == 0 {
        0
    } else {
        sat_add64(sum_memory(ps, ms.drop_last()), ps[ms.last() as int].memory_bytes)
    }
}

pub open spec fn sum_threads(ps: Seq<ProcessStats>, ms: Seq<usize>) -> usize
    decreases ms.len(),
{
    if ms.len() == 0 {
        0
    } else {
        sat_add_size(sum_threads(ps, ms.drop_last()), ps[ms.last() as int].threads)
    }
}

pub open spec fn min_pid(ps: Seq<ProcessStats>, ms: Seq<usize>) -> u32
    decreases ms.len(),
{
    if ms.len() == 0 {
        0
    } else if ms.len() == 1 {
        ps[ms[0] as int].pid
    } else {
        let m = min_pid(ps, ms.drop_last());
        let p = ps[ms.last() as int].pid;
        if p < m {
            p
        } else {
            m
        }
    }
}

/// A group with its summed metrics (saturating) and smallest PID.
pub struct ProcessGroup {
    pub program: String,
    pub members: Vec<usize>,
    pub cpu_millipct: u64,
    pub memory_bytes: u64,
    pub threads: usize,
    pub min_pid: u32,
}

pub struct GroupInfo {
    pub program: Seq<char>,
    pub members: Seq<usize>,
    pub cpu_millipct: u64,
    pub memory_bytes: u64,
    pub threads: usize,
    pub min_pid: u32,
}

pub open spec fn group_view(g: ProcessGroup) -> GroupInfo {
    GroupInfo {
        program: g.program@,
        members: g.members@,
        cpu_millipct: g.cpu_millipct,
        memory_bytes: g.memory_bytes,
        threads: g.threads,
        min_pid: g.min_pid,
    }
}

pub open spec fn info_of(ps: Seq<ProcessStats>, g: (Seq<char>, Seq<usize>)) -> GroupInfo {
    GroupInfo {
        program: g.0,
        members: g.1,
        cpu_millipct: sum_cpu(ps, g.1),
        memory_bytes: sum_memory(ps, g.1),
        threads: sum_threads(ps, g.1),
        min_pid: min_pid(ps, g.1),
    }
}

pub open spec fn group_column_order(a: GroupInfo, b: GroupInfo, key: ProcessSortKey) -> int {
    match key {
        ProcessSortKey::Pid => order3(a.min_pid as int, b.min_pid as int),
        ProcessSortKey::Program => text_order3(a.program, b.program),
        ProcessSortKey::Cpu => order3(a.cpu_millipct as int, b.cpu_millipct as int),
        ProcessSortKey::Memory => order3(a.memory_bytes as int, b.memory_bytes as int),
        ProcessSortKey::Threads => order3(a.threads as int, b.threads as int),
    }
}

/// `a` is listed strictly before `b`: by the sort column (reversed when
/// descending), then by program, then by smallest PID.
pub open spec fn group_before(a: GroupInfo, b: GroupInfo, key: ProcessSortKey, descending: bool) -> bool {
    let o = if descending {
        -group_column_order(a, b, key)
    } else {
        group_column_order(a, b, key)
    };
    o < 0 || (o == 0 && (lex_lt(a.program, b.program) || (a.program == b.program && a.min_pid
        < b.min_pid)))
}

pub open spec fn group_before_fn(key: ProcessSortKey, descending: bool) -> spec_fn(
    GroupInfo,
    GroupInfo,
) -> bool {
    |a: GroupInfo, b: GroupInfo| group_before(a, b, key, descending)
}

/// The groups of the positions `u`, in display order.
pub open spec fn sorted_groups(
    ps: Seq<ProcessStats>,
    u: Seq<usize>,
    key: ProcessSortKey,
    descending: bool,
) -> Seq<GroupInfo> {
    ins_sort(
        groups_of(ps, u).map_values(|g: (Seq<char>, Seq<usize>)| info_of(ps, g)),
        group_before_fn(key, descending),
    )
}

pub open spec fn groups_view(v: Seq<(Vec<char>, Vec<usize>)>) -> Seq<(Seq<char>, Seq<usize>)> {
    v.map_values(|p: (Vec<char>, Vec<usize>)| (p.0@, p.1@))
}

fn find_group(v: &Vec<(Vec<char>, Vec<usize>)>, k: &[char]) -> (r: Option<usize>)
    ensures
        match r {
            Some(i) => first_index(groups_view(v@), k@) == Some(i as int),
            None => first_index(groups_view(v@), k@) is None,
        },
{
    let ghost gv = groups_view(v@);
    let mut i: usize = 0;
    while i < v.len()
        invariant
            i <= v@.len(),
            gv == groups_view(v@),
            forall|j: int| 0 <= j < i ==> (#[trigger] gv[j]).0 != k@,
        decreases v@.len() - i,
    {
        assert(gv[i as int].0 == v@[i as int].0@);
        if eq_chars(v[i].0.as_slice(), k) {
            proof {
                lemma_first_index_at(gv, k@, i as int);
            }
            return Some(i);
        }
        i = i + 1;
    }
    proof {
        lemma_first_index_none(gv, k@);
    }
    None
}

fn build_groups(processes: &[ProcessStats], u: &Vec<usize>) -> (r: Vec<(Vec<char>, Vec<usize>)>)
    requires
        forall|j: int| 0 <= j < u@.len() ==> #[trigger] u@[j] < processes@.len(),
    ensures
        groups_view(r@) == groups_of(processes@, u@),
{
    let mut gs: Vec<(Vec<char>, Vec<usize>)> = Vec::new();
    assert(groups_view(gs@) =~= groups_of(processes@, u@.take(0)));
    for t in 0..u.len()
        invariant
            forall|j: int| 0 <= j < u@.len() ==> #[trigger] u@[j] < processes@.len(),
            groups_view(gs@) == groups_of(processes@, u@.take(t as int)),
    {
        assert(u@.take(t + 1).drop_last() =~= u@.take(t as int));
        assert(u@.take(t + 1).last() == u@[t as int]);
        let i = u[t];
        let prog = chars_of(processes[i].program.as_str());
        let ghost before = groups_view(gs@);
        proof {
            lemma_first_index_props(before, prog@);
        }
        match find_group(&gs, prog.as_slice()) {
            Some(g) => {
                let (k, mut ms) = gs.remove(g);
                ms.push(i);
                gs.insert(g, (k, ms));
                assert(groups_view(gs@) =~= before.update(g as int, (prog@, before[g as int].1.push(i))));
            },
            None => {
                let mut ms: Vec<usize> = Vec::new();
                ms.push(i);
                gs.push((prog, ms));
                assert(groups_view(gs@) =~= before.push((prog@, seq![i])));
            },
        }
    }
    assert(u@.take(u@.len() as int) =~= u@);
    gs
}

fn group_info_exec(processes: &[ProcessStats], program: Vec<char>, members: Vec<usize>) -> (r: ProcessGroup)
    requires
        forall|j: int| 0 <= j < members@.len() ==> #[trigger] members@[j] < processes@.len(),
    ensures
        group_view(r) == info_of(processes@, (program@, members@)),
{
    let mut cpu: u64 = 0;
    let mut mem: u64 = 0;
    let mut threads: usize = 0;
    let mut mp: u32 = 0;
    for t in 0..members.len()
        invariant
            forall|j: int| 0 <= j < members@.len() ==> #[trigger] members@[j] < processes@.len(),
            cpu == sum_cpu(processes@, members@.take(t as int)),
            mem == sum_memory(processes@, members@.take(t as int)),
            threads == sum_threads(processes@, members@.take(t as int)),
            mp == min_pid(processes@, members@.take(t as int)),
    {
        let ghost pre = members@.take(t as int);
        assert(members@.take(t + 1).drop_last() =~= pre);
        assert(members@.take(t + 1).last() == members@[t as int]);
        let p = &processes[members[t]];
        cpu = cpu.saturating_add(p.cpu_millipct);
        mem = mem.saturating_add(p.memory_bytes);
        threads = threads.saturating_add(p.threads);
        if t == 0 {
            assert(members@.take(1) =~= seq![members@[0]]);
            mp = p.pid;
        } else if p.pid < mp {
            mp = p.pid;
        }
    }
    assert(members@.take(members@.len() as int) =~= members@);
    ProcessGroup {
        program: crate::text::string_of(program.as_slice()),
        members,
        cpu_millipct: cpu,
        memory_bytes: mem,
        threads,
        min_pid: mp,
    }
}

fn group_column_order_exec(a: &ProcessGroup, b: &ProcessGroup, key: ProcessSortKey) -> (r: i8)
    ensures
        r == group_column_order(group_view(*a), group_view(*b), key),
{
    match key {
        ProcessSortKey::Pid => order3_exec(a.min_pid as u64, b.min_pid as u64),
        ProcessSortKey::Program => {
            let av = chars_of(a.program.as_str());
            let bv = chars_of(b.program.as_str());
            if lex_lt_exec(av.as_slice(), bv.as_slice()) {
                -1
            } else if eq_chars(av.as_slice(), bv.as_slice()) {
                0
            } else {
                1
            }
        },
        ProcessSortKey::Cpu => order3_exec(a.cpu_millipct, b.cpu_millipct),
        ProcessSortKey::Memory => order3_exec(a.memory_bytes, b.memory_bytes),
        ProcessSortKey::Threads => order3_exec(a.threads as u64, b.threads as u64),
    }
}

fn group_before_exec(a: &ProcessGroup, b: &ProcessGroup, key: ProcessSortKey, descending: bool) -> (r: bool)
    ensures
        r == group_before(group_view(*a), group_view(*b), key, descending),
{
    let c = group_column_order_exec(a, b, key);
    let o: i8 = if descending {
        -c
    } else {
        c
    };
    if o < 0 {
        return true;
    }
    if o > 0 {
        return false;
    }
    let av = chars_of(a.program.as_str());
    let bv = chars_of(b.program.as_str());
    lex_lt_exec(av.as_slice(), bv.as_slice()) || (eq_chars(av.as_slice(), bv.as_slice()) && a.min_pid
        < b.min_pid)
}

proof fn lemma_groups_in_range(ps: Seq<ProcessStats>, u: Seq<usize>)
    requires
        forall|j: int| 0 <= j < u.len() ==> #[trigger] u[j] < ps.len(),
    ensures
        forall|g: int, j: int|
            0 <= g < groups_of(ps, u).len() && 0 <= j < groups_of(ps, u)[g].1.len()
                ==> #[trigger] groups_of(ps, u)[g].1[j] < ps.len(),
    decreases u.len(),
{
    if u.len() > 0 {
        let d = u.drop_last();
        assert forall|j: int| 0 <= j < d.len() implies #[trigger] d[j] < ps.len() by {
            assert(d[j] == u[j]);
        }
        lemma_groups_in_range(ps, d);
        let gs = groups_of(ps, d);
        let i = u.last();
        let prog = ps[i as int].program@;
        lemma_first_index_props(gs, prog);
        let r = groups_of(ps, u);
        assert forall|g: int, j: int| 0 <= g < r.len() && 0 <= j < r[g].1.len() implies #[trigger] r[g].1[j]
            < ps.len() by {
            match first_index(gs, prog) {
                Some(k) => {
                    if g == k {
                        if j < gs[k].1.len() {
                            assert(r[g].1[j] == gs[k].1[j]);
                        }
                    } else {
                        assert(r[g] == gs[g]);
                    }
                },
                None => {
                    if g < gs.len() {
                        assert(r[g] == gs[g]);
                    }
                },
            }
        }
    }
}

pub open spec fn infos_view(v: Seq<ProcessGroup>) -> Seq<GroupInfo> {
    v.map_values(|g: ProcessGroup| group_view(g))
}

/// Groups of the processes at positions `u`, in display order.
pub fn sort_groups(processes: &[ProcessStats], u: &Vec<usize>, key: ProcessSortKey, descending: bool) -> (r: Vec<ProcessGroup>)
    requires
        forall|j: int| 0 <= j < u@.len() ==> #[trigger] u@[j] < processes@.len(),
    ensures
        infos_view(r@) == sorted_groups(processes@, u@, key, descending),
        forall|g: int, j: int|
            0 <= g < r@.len() && 0 <= j < r@[g].members@.len() ==> #[trigger] r@[g].members@[j]
                < processes@.len(),
{
    let ghost ps = processes@;
    let gs = build_groups(processes, u);
    let ghost src = groups_of(ps, u@).map_values(|g: (Seq<char>, Seq<usize>)| info_of(ps, g));
    let ghost lt = group_before_fn(key, descending);
    proof {
        lemma_groups_in_range(ps, u@);
    }
    assert(groups_view(gs@) =~= groups_of(ps, u@).skip(0));
    let mut out: Vec<ProcessGroup> = Vec::new();
    let n = gs.len();
    let mut rest = gs;
    let mut i: usize = 0;
    assert(infos_view(out@) =~= ins_sort(src.take(0), lt));
    while i < n
        invariant
            n == groups_of(ps, u@).len(),
            ps == processes@,
            src == groups_of(ps, u@).map_values(|g: (Seq<char>, Seq<usize>)| info_of(ps, g)),
            lt == group_before_fn(key, descending),
            i <= n,
            groups_view(rest@) == groups_of(ps, u@).skip(i as int),
            forall|g: int, j: int| 0 <= g < groups_of(ps, u@).len() && 0 <= j < groups_of(ps, u@)[g].1.len() ==> #[trigger] groups_of(ps, u@)[g].1[j] < ps.len(),
            infos_view(out@) == ins_sort(src.take(i as int), lt),
        decreases n - i,
    {
        let ghost pre = src.take(i as int);
        assert(src.take(i + 1).drop_last() =~= pre);
        proof {
            lemma_ins_sort_len(pre, lt);
        }
        let ghost rv = groups_view(rest@);
        assert(rv.len() == rest@.len());
        assert(rv[0] == groups_of(ps, u@)[i as int]);
        let (prog, members) = rest.remove(0);
        assert(groups_view(rest@) =~= rv.drop_first());
        assert(rv.drop_first() =~= groups_of(ps, u@).skip(i + 1));
        assert((prog@, members@) == groups_of(ps, u@)[i as int]);
        assert forall|j: int| 0 <= j < members@.len() implies #[trigger] members@[j] < processes@.len() by {
            assert(groups_of(ps, u@)[i as int].1[j] < ps.len());
        }
        let g = group_info_exec(processes, prog, members);
        assert(src.take(i + 1).last() == group_view(g));
        let mut pos: usize = 0;
        while pos < out.len() && !group_before_exec(&g, &out[pos], key, descending)
            invariant
                0 <= pos <= out@.len(),
                lt == group_before_fn(key, descending),
                forall|j: int| 0 <= j < pos ==> !lt(group_view(g), #[trigger] infos_view(out@)[j]),
            decreases out@.len() - pos,
        {
            pos = pos + 1;
        }
        proof {
            lemma_ins_pos_at(infos_view(out@), group_view(g), lt, pos as int);
        }
        let ghost before = infos_view(out@);
        out.insert(pos, g);
        assert(infos_view(out@) =~= before.insert(pos as int, group_view(g)));
        i = i + 1;
    }
    assert(src.take(n as int) =~= src);
    proof {
        let pr = |g: GroupInfo| forall|j: int| 0 <= j < g.members.len() ==> #[trigger] g.members[j] < ps.len();
        assert forall|g: int| 0 <= g < src.len() implies pr(#[trigger] src[g]) by {
            assert forall|j: int| 0 <= j < src[g].members.len() implies #[trigger] src[g].members[j] < ps.len() by {
                assert(src[g].members[j] == groups_of(ps, u@)[g].1[j]);
            }
        }
        lemma_ins_sort_all(src, lt, pr);
        assert(infos_view(out@) == ins_sort(src, lt));
        assert forall|g: int, j: int| 0 <= g < out@.len() && 0 <= j < out@[g].members@.len() implies #[trigger] out@[g].members@[j]
            < processes@.len() by {
            assert(infos_view(out@)[g] == group_view(out@[g]));
            let m = ins_sort(src, lt)[g].members;
            assert(m == out@[g].members@);
            assert(pr(ins_sort(src, lt)[g]));
            assert(m[j] < ps.len());
        }
    }
    out
}


// ---------------------------------------------------------------------------
// Table rows
// ---------------------------------------------------------------------------

/// One row of the process table.
#[derive(Clone, Debug, PartialEq, Eq)]
pub enum ProcessDisplayRow {
    /// The process at this position of the process list; `child` when it is
    /// shown under its expanded group.
    Process { index: usize, child: bool },
    /// Several processes of one program, with summed metrics.
    Group {
        program: String,
        count: usize,
        cpu_millipct: u64,
        memory_bytes: u64,
        threads: usize,
        expanded: bool,
    },
}

pub enum RowModel {
    Process { index: usize, child: bool },
    Group {
        program: Seq<char>,
        count: nat,
        cpu_millipct: u64,
        memory_bytes: u64,
        threads: usize,
        expanded: bool,
    },
}

pub open spec fn row_view(r: ProcessDisplayRow) -> RowModel {
    match r {
        ProcessDisplayRow::Process { index, child } => RowModel::Process { index, child },
        ProcessDisplayRow::Group { program, count, cpu_millipct, memory_bytes, threads, expanded } =>
            RowModel::Group {
            program: program@,
            count: count as nat,
            cpu_millipct,
            memory_bytes,
            threads,
            expanded,
        },
    }
}

pub open spec fn rows_view(v: Seq<ProcessDisplayRow>) -> Seq<RowModel> {
    v.map_values(|r: ProcessDisplayRow| row_view(r))
}

pub open spec fn strings_view(v: Seq<String>) -> Seq<Seq<char>> {
    v.map_values(|s: String| s@)
}

/// The rows of one group: a lone process stands alone; otherwise a group
/// row, followed by its members when the group is expanded.
pub open spec fn rows_for(g: GroupInfo, expanded: Seq<Seq<char>>) -> Seq<RowModel> {
    if g.members.len() == 1 {
        seq![RowModel::Process { index: g.members[0], child: false }]
    } else {
        let exp = expanded.contains(g.program);
        seq![
            RowModel::Group {
                program: g.program,
                count: g.members.len(),
                cpu_millipct: g.cpu_millipct,
                memory_bytes: g.memory_bytes,
                threads: g.threads,
                expanded: exp,
            },
        ] + if exp {
            g.members.map_values(|i: usize| RowModel::Process { index: i, child: true })
        } else {
            seq![]
        }
    }
}

pub open spec fn rows_from(gs: Seq<GroupInfo>, expanded: Seq<Seq<char>>) -> Seq<RowModel>
    decreases gs.len(),
{
    if gs.len() == 0 {
        seq![]
    } else {
        rows_from(gs.drop_last(), expanded) + rows_for(gs.last(), expanded)
    }
}

/// The pinned process (if present) and the table rows of the others.
pub open spec fn grouped_rows_spec(
    ps: Seq<ProcessStats>,
    key: ProcessSortKey,
    descending: bool,
    pinned_pid: Option<u32>,
    expanded: Seq<Seq<char>>,
) -> (Option<usize>, Seq<RowModel>) {
    let wp = with_pin_spec(ps, key, descending, pinned_pid);
    (wp.0, rows_from(sorted_groups(ps, wp.1, key, descending), expanded))
}

fn contains_string(v: &[String], s: &str) -> (r: bool)
    ensures
        r == strings_view(v@).contains(s@),
{
    let ghost sv = strings_view(v@);
    for i in 0..v.len()
        invariant
            sv == strings_view(v@),
            forall|j: int| 0 <= j < i ==> sv[j] != s@,
    {
        if str_eq(v[i].as_str(), s) {
            assert(sv[i as int] == s@);
            return true;
        }
    }
    false
}

/// Every process row points into a list of `n` processes.
pub open spec fn rows_in_range(rows: Seq<RowModel>, n: nat) -> bool {
    forall|j: int| 0 <= j < rows.len() ==> match #[trigger] rows[j] {
        RowModel::Process { index, .. } => index < n,
        RowModel::Group { .. } => true,
    }
}

fn rows_for_exec(g: &ProcessGroup, expanded: &[String], out: &mut Vec<ProcessDisplayRow>, Ghost(n): Ghost<nat>)
    requires
        rows_in_range(rows_view(old(out)@), n),
        forall|j: int| 0 <= j < g.members@.len() ==> #[trigger] g.members@[j] < n,
    ensures
        rows_view(final(out)@) == rows_view(old(out)@) + rows_for(group_view(*g), strings_view(expanded@)),
        rows_in_range(rows_view(final(out)@), n),
{
    let ghost before = rows_view(out@);
    if g.members.len() == 1 {
        out.push(ProcessDisplayRow::Process { index: g.members[0], child: false });
        assert(rows_view(out@) =~= before + rows_for(group_view(*g), strings_view(expanded@)));
        assert(rows_in_range(rows_view(out@), n)) by {
            assert forall|j: int| 0 <= j < rows_view(out@).len() implies match #[trigger] rows_view(out@)[j] {
                RowModel::Process { index, .. } => index < n,
                RowModel::Group { .. } => true,
            } by {
                if j < before.len() {
                    assert(rows_view(out@)[j] == before[j]);
                }
            }
        }
        return;
    }
    let exp = contains_string(expanded, g.program.as_str());
    out.push(
        ProcessDisplayRow::Group {
            program: g.program.clone(),
            count: g.members.len(),
            cpu_millipct: g.cpu_millipct,
            memory_bytes: g.memory_bytes,
            threads: g.threads,
            expanded: exp,
        },
    );
    let ghost head = rows_view(out@);
    assert(rows_in_range(head, n)) by {
        assert forall|j: int| 0 <= j < head.len() implies match #[trigger] head[j] {
            RowModel::Process { index, .. } => index < n,
            RowModel::Group { .. } => true,
        } by {
            if j < before.len() {
                assert(head[j] == before[j]);
            }
        }
    }
    let ghost kids = g.members@.map_values(|i: usize| RowModel::Process { index: i, child: true });
    if exp {
        for t in 0..g.members.len()
            invariant
                kids == g.members@.map_values(|i: usize| RowModel::Process { index: i, child: true }),
                rows_view(out@) == head + kids.take(t as int),
                rows_in_range(rows_view(out@), n),
                forall|j: int| 0 <= j < g.members@.len() ==> #[trigger] g.members@[j] < n,
        {
            let ghost pre = rows_view(out@);
            out.push(ProcessDisplayRow::Process { index: g.members[t], child: true });
            assert(rows_view(out@) =~= pre.push(kids[t as int]));
            assert(rows_in_range(rows_view(out@), n)) by {
                assert forall|j: int| 0 <= j < rows_view(out@).len() implies match #[trigger] rows_view(out@)[j] {
                    RowModel::Process { index, .. } => index < n,
                    RowModel::Group { .. } => true,
                } by {
                    if j < pre.len() {
                        assert(rows_view(out@)[j] == pre[j]);
                    }
                }
            }
            assert(kids.take(t + 1) =~= kids.take(t as int).push(kids[t as int]));
        }
        assert(kids.take(g.members@.len() as int) =~= kids);
    }
    assert(rows_view(out@) =~= before + rows_for(group_view(*g), strings_view(expanded@)));
}

/// The pinned process (when present) and the table rows of the others:
/// processes grouped by program in display order; a group of one process
/// is shown as that process, a larger group as one row followed by its
/// members when it is expanded.
pub fn grouped_process_rows(
    processes: &[ProcessStats],
    key: ProcessSortKey,
    descending: bool,
    pinned_pid: Option<u32>,
    expanded_groups: &[String],
) -> (r: (Option<usize>, Vec<ProcessDisplayRow>))
    ensures
        (r.0, rows_view(r.1@)) == grouped_rows_spec(
            processes@,
            key,
            descending,
            pinned_pid,
            strings_view(expanded_groups@),
        ),
        rows_in_range(rows_view(r.1@), processes@.len()),
        match r.0 {
            Some(i) => i < processes@.len(),
            None => true,
        },
{
    let (pinned, unpinned) = sorted_processes_with_pin(processes, key, descending, pinned_pid);
    let groups = sort_groups(processes, &unpinned, key, descending);
    let ghost gv = infos_view(groups@);
    let ghost ev = strings_view(expanded_groups@);
    let mut rows: Vec<ProcessDisplayRow> = Vec::new();
    assert(rows_view(rows@) =~= rows_from(gv.take(0), ev));
    for i in 0..groups.len()
        invariant
            gv == infos_view(groups@),
            ev == strings_view(expanded_groups@),
            rows_view(rows@) == rows_from(gv.take(i as int), ev),
            rows_in_range(rows_view(rows@), processes@.len()),
            forall|g: int, j: int|
                0 <= g < groups@.len() && 0 <= j < groups@[g].members@.len()
                    ==> #[trigger] groups@[g].members@[j] < processes@.len(),
    {
        assert(gv.take(i + 1).drop_last() =~= gv.take(i as int));
        assert(gv.take(i + 1).last() == group_view(groups@[i as int]));
        rows_for_exec(&groups[i], expanded_groups, &mut rows, Ghost(processes@.len()));
    }
    assert(gv.take(groups@.len() as int) =~= gv);
    (pinned, rows)
}


pub open spec fn is_group_row(r: RowModel, name: Seq<char>) -> bool {
    match r {
        RowModel::Group { program, .. } => program == name,
        RowModel::Process { .. } => false,
    }
}

/// A member row shown under the expanded group `name`.
pub open spec fn is_child_row(ps: Seq<ProcessStats>, r: RowModel, name: Seq<char>) -> bool {
    match r {
        RowModel::Process { index, child } => child && index < ps.len() && ps[index as int].program@
            == name,
        RowModel::Group { .. } => false,
    }
}

pub open spec fn first_group_row(rows: Seq<RowModel>, name: Seq<char>) -> Option<int>
    decreases rows.len(),
{
    if rows.len() == 0 {
        None
    } else if is_group_row(rows[0], name) {
        Some(0)
    } else {
        match first_group_row(rows.drop_first(), name) {
            Some(k) => Some(k + 1),
            None => None,
        }
    }
}

/// Number of member rows of `name` that follow position `i` without a gap.
pub open spec fn child_run(ps: Seq<ProcessStats>, rows: Seq<RowModel>, i: int, name: Seq<char>) -> nat
    decreases rows.len() - i,
{
    if 0 <= i < rows.len() && is_child_row(ps, rows[i], name) {
        1 + child_run(ps, rows, i + 1, name)
    } else {
        0
    }
}

/// The rows left in the scrolling list, and the pinned group's rows (its
/// group row and the member rows right after it), taken out.
pub open spec fn take_pinned_spec(ps: Seq<ProcessStats>, rows: Seq<RowModel>, pinned: Option<Seq<char>>) -> (
    Seq<RowModel>,
    Seq<RowModel>,
) {
    match pinned {
        None => (rows, seq![]),
        Some(name) => match first_group_row(rows, name) {
            None => (rows, seq![]),
            Some(k) => {
                let end = k + 1 + child_run(ps, rows, k + 1, name);
                (rows.take(k) + rows.skip(end), rows.subrange(k, end))
            },
        },
    }
}

proof fn lemma_first_group_row_bounds(rows: Seq<RowModel>, name: Seq<char>)
    ensures
        match first_group_row(rows, name) {
            Some(k) => 0 <= k < rows.len(),
            None => true,
        },
    decreases rows.len(),
{
    if rows.len() > 0 {
        lemma_first_group_row_bounds(rows.drop_first(), name);
    }
}

proof fn lemma_child_run_bounds(ps: Seq<ProcessStats>, rows: Seq<RowModel>, i: int, name: Seq<char>)
    requires
        0 <= i <= rows.len(),
    ensures
        i + child_run(ps, rows, i, name) <= rows.len(),
    decreases rows.len() - i,
{
    if i < rows.len() && is_child_row(ps, rows[i], name) {
        lemma_child_run_bounds(ps, rows, i + 1, name);
    }
}

proof fn lemma_rows_in_range_sub(rows: Seq<RowModel>, n: nat, a: int, b: int)
    requires
        rows_in_range(rows, n),
        0 <= a <= b <= rows.len(),
    ensures
        rows_in_range(rows.subrange(a, b), n),
{
    assert forall|j: int| 0 <= j < rows.subrange(a, b).len() implies match #[trigger] rows.subrange(a, b)[j] {
        RowModel::Process { index, .. } => index < n,
        RowModel::Group { .. } => true,
    } by {
        assert(rows.subrange(a, b)[j] == rows[a + j]);
    }
}

proof fn lemma_rows_in_range_concat(x: Seq<RowModel>, y: Seq<RowModel>, n: nat)
    requires
        rows_in_range(x, n),
        rows_in_range(y, n),
    ensures
        rows_in_range(x + y, n),
{
    assert forall|j: int| 0 <= j < (x + y).len() implies match #[trigger] (x + y)[j] {
        RowModel::Process { index, .. } => index < n,
        RowModel::Group { .. } => true,
    } by {
        if j < x.len() {
            assert((x + y)[j] == x[j]);
        } else {
            assert((x + y)[j] == y[j - x.len()]);
        }
    }
}

proof fn lemma_first_group_row_at(rows: Seq<RowModel>, name: Seq<char>, k: int)
    requires
        0 <= k < rows.len(),
        is_group_row(rows[k], name),
        forall|j: int| 0 <= j < k ==> !is_group_row(#[trigger] rows[j], name),
    ensures
        first_group_row(rows, name) == Some(k),
    decreases rows.len(),
{
    if k > 0 {
        assert forall|j: int| 0 <= j < k - 1 implies !is_group_row(#[trigger] rows.drop_first()[j], name) by {
            assert(rows.drop_first()[j] == rows[j + 1]);
        }
        lemma_first_group_row_at(rows.drop_first(), name, k - 1);
    }
}

proof fn lemma_first_group_row_none(rows: Seq<RowModel>, name: Seq<char>)
    requires
        forall|j: int| 0 <= j < rows.len() ==> !is_group_row(#[trigger] rows[j], name),
    ensures
        first_group_row(rows, name) is None,
    decreases rows.len(),
{
    if rows.len() > 0 {
        assert forall|j: int| 0 <= j < rows.len() - 1 implies !is_group_row(#[trigger] rows.drop_first()[j], name) by {
            assert(rows.drop_first()[j] == rows[j + 1]);
        }
        lemma_first_group_row_none(rows.drop_first(), name);
    }
}

proof fn lemma_child_run(ps: Seq<ProcessStats>, rows: Seq<RowModel>, i: int, t: int, name: Seq<char>)
    requires
        0 <= i,
        0 <= t,
        i + t <= rows.len(),
        forall|j: int| i <= j < i + t ==> is_child_row(ps, #[trigger] rows[j], name),
        i + t == rows.len() || !is_child_row(ps, rows[i + t], name),
    ensures
        child_run(ps, rows, i, name) == t,
    decreases t,
{
    if t > 0 {
        lemma_child_run(ps, rows, i + 1, t - 1, name);
    }
}

fn is_group_row_exec(r: &ProcessDisplayRow, name: &str) -> (b: bool)
    ensures
        b == is_group_row(row_view(*r), name@),
{
    match r {
        ProcessDisplayRow::Group { program, .. } => str_eq(program.as_str(), name),
        ProcessDisplayRow::Process { .. } => false,
    }
}

fn is_child_row_exec(processes: &[ProcessStats], r: &ProcessDisplayRow, name: &str) -> (b: bool)
    ensures
        b == is_child_row(processes@, row_view(*r), name@),
{
    match r {
        ProcessDisplayRow::Process { index, child } => *child && *index < processes.len() && str_eq(
            processes[*index].program.as_str(),
            name,
        ),
        ProcessDisplayRow::Group { .. } => false,
    }
}

/// Take the pinned group's rows (its group row and the member rows right
/// after it) out of `rows`; nothing when no group is pinned or it has no
/// group row.
pub fn take_pinned_group_rows(
    rows: &mut Vec<ProcessDisplayRow>,
    processes: &[ProcessStats],
    pinned_group: Option<&str>,
) -> (r: Vec<ProcessDisplayRow>)
    ensures
        (rows_view(final(rows)@), rows_view(r@)) == take_pinned_spec(
            processes@,
            rows_view(old(rows)@),
            match pinned_group {
                Some(g) => Some(g@),
                None => None::<Seq<char>>,
            },
        ),
        rows_in_range(rows_view(old(rows)@), processes@.len()) ==> rows_in_range(
            rows_view(final(rows)@),
            processes@.len(),
        ) && rows_in_range(rows_view(r@), processes@.len()),
{
    proof {
        let o = rows_view(rows@);
        let t = take_pinned_spec(processes@, o, match pinned_group {
            Some(g) => Some(g@),
            None => None::<Seq<char>>,
        });
        if rows_in_range(o, processes@.len()) {
            match pinned_group {
                Some(g) => match first_group_row(o, g@) {
                    Some(k) => {
                        lemma_first_group_row_bounds(o, g@);
                        let end = k + 1 + child_run(processes@, o, k + 1, g@);
                        lemma_child_run_bounds(processes@, o, k + 1, g@);
                        lemma_rows_in_range_sub(o, processes@.len(), 0, k);
                        lemma_rows_in_range_sub(o, processes@.len(), end, o.len() as int);
                        lemma_rows_in_range_sub(o, processes@.len(), k, end);
                        lemma_rows_in_range_concat(o.subrange(0, k), o.subrange(end, o.len() as int), processes@.len());
                        assert(o.take(k) =~= o.subrange(0, k));
                        assert(o.skip(end) =~= o.subrange(end, o.len() as int));
                    },
                    None => {},
                },
                None => {},
            }
        }
    }

    let ghost orig = rows_view(rows@);
    let mut taken: Vec<ProcessDisplayRow> = Vec::new();
    let name = match pinned_group {
        Some(g) => g,
        None => {
            assert(rows_view(taken@) =~= seq![]);
            return taken;
        },
    };
    let mut k: usize = 0;
    while k < rows.len() && !is_group_row_exec(&rows[k], name)
        invariant
            orig == rows_view(rows@),
            k <= rows@.len(),
            forall|j: int| 0 <= j < k ==> !is_group_row(#[trigger] orig[j], name@),
        decreases rows@.len() - k,
    {
        k = k + 1;
    }
    if k == rows.len() {
        proof {
            lemma_first_group_row_none(orig, name@);
        }
        assert(rows_view(taken@) =~= seq![]);
        return taken;
    }
    proof {
        lemma_first_group_row_at(orig, name@, k as int);
    }
    let head = rows.remove(k);
    taken.push(head);
    assert(rows_view(rows@) =~= orig.take(k as int) + orig.skip(k + 1));
    assert(rows_view(taken@) =~= orig.subrange(k as int, k + 1));
    let ghost mut t: int = 0;
    while k < rows.len() && is_child_row_exec(processes, &rows[k], name)
        invariant
            0 <= t,
            k + 1 + t <= orig.len(),
            rows_view(rows@) == orig.take(k as int) + orig.skip(k + 1 + t),
            rows_view(taken@) == orig.subrange(k as int, k + 1 + t),
            forall|j: int| k + 1 <= j < k + 1 + t ==> is_child_row(processes@, #[trigger] orig[j], name@),
        decreases rows@.len() - k,
    {
        let ghost before_rows = rows_view(rows@);
        let ghost before_taken = rows_view(taken@);
        assert(before_rows[k as int] == orig[k + 1 + t]);
        let row = rows.remove(k);
        assert(row_view(row) == before_rows[k as int]);
        assert(rows_view(rows@) =~= before_rows.remove(k as int));
        taken.push(row);
        assert(rows_view(taken@) =~= before_taken.push(before_rows[k as int]));
        assert(rows_view(rows@) =~= orig.take(k as int) + orig.skip(k + 1 + t + 1));
        assert(rows_view(taken@) =~= orig.subrange(k as int, k + 1 + t + 1));
        proof {
            t = t + 1;
        }
    }
    proof {
        if k + 1 + t < orig.len() {
            assert(rows_view(rows@)[k as int] == orig[k + 1 + t]);
        }
        lemma_child_run(processes@, orig, k + 1, t, name@);
    }
    taken
}


// ---------------------------------------------------------------------------
// State
// ---------------------------------------------------------------------------

/// One history sample: when it was taken (monotonic ns) and its value.
#[derive(Clone, Copy, Debug, PartialEq, Eq)]
pub struct TimedSample {
    pub at_ns: u64,
    pub value: u64,
}

/// A clickable sort button of the table header.
#[derive(Clone, Copy, Debug, PartialEq, Eq)]
pub struct ProcessHeaderHit {
    pub rect: Rect,
    pub key: ProcessSortKey,
}

/// The table body as last drawn: its area and what each line stands for.
#[derive(Clone, Debug)]
pub struct ProcessRowsHit {
    pub rect: Rect,
    pub targets: Vec<ProcessRowTarget>,
}

/// Interactive state of the monitor's views.
pub struct UiState {
    pub gpu_history: Vec<TimedSample>,
    pub vram_history: Vec<TimedSample>,
    pub cpu_history: Vec<TimedSample>,
    pub ram_history: Vec<TimedSample>,
    pub process_selected_pid: Option<u32>,
    pub process_pinned_pid: Option<u32>,
    /// PID and time (ns) of the last click on a process row.
    pub last_process_click: Option<(u32, u64)>,
    pub process_selected_group: Option<String>,
    pub process_pinned_group: Option<String>,
    /// Program and time (ns) of the last click on a group row.
    pub last_process_group_click: Option<(String, u64)>,
    pub expanded_process_groups: Vec<String>,
    pub process_scroll: usize,
    pub process_display_total: usize,
    pub process_sort_key: ProcessSortKey,
    pub process_sort_desc: bool,
    pub process_header_hits: Vec<ProcessHeaderHit>,
    pub process_pane: Option<Rect>,
    pub process_rows: Option<ProcessRowsHit>,
    pub help_open: bool,
}

pub struct UiModel {
    pub gpu_history: Seq<TimedSample>,
    pub vram_history: Seq<TimedSample>,
    pub cpu_history: Seq<TimedSample>,
    pub ram_history: Seq<TimedSample>,
    pub selected_pid: Option<u32>,
    pub pinned_pid: Option<u32>,
    pub last_click: Option<(u32, u64)>,
    pub selected_group: Option<Seq<char>>,
    pub pinned_group: Option<Seq<char>>,
    pub last_group_click: Option<(Seq<char>, u64)>,
    pub expanded: Seq<Seq<char>>,
    pub scroll: usize,
    pub display_total: usize,
    pub sort_key: ProcessSortKey,
    pub sort_desc: bool,
    pub header_hits: Seq<ProcessHeaderHit>,
    pub pane: Option<Rect>,
    pub rows_hit: Option<(Rect, Seq<TargetModel>)>,
    pub help_open: bool,
}

pub open spec fn sview(s: Option<String>) -> Option<Seq<char>> {
    match s {
        Some(t) => Some(t@),
        None => None,
    }
}

impl View for UiState {
    type V = UiModel;

    open spec fn view(&self) -> UiModel {
        UiModel {
            gpu_history: self.gpu_history@,
            vram_history: self.vram_history@,
            cpu_history: self.cpu_history@,
            ram_history: self.ram_history@,
            selected_pid: self.process_selected_pid,
            pinned_pid: self.process_pinned_pid,
            last_click: self.last_process_click,
            selected_group: sview(self.process_selected_group),
            pinned_group: sview(self.process_pinned_group),
            last_group_click: match self.last_process_group_click {
                Some(c) => Some((c.0@, c.1)),
                None => None,
            },
            expanded: strings_view(self.expanded_process_groups@),
            scroll: self.process_scroll,
            display_total: self.process_display_total,
            sort_key: self.process_sort_key,
            sort_desc: self.process_sort_desc,
            header_hits: self.process_header_hits@,
            pane: self.process_pane,
            rows_hit: match self.process_rows {
                Some(h) => Some((h.rect, targets_view(h.targets@))),
                None => None,
            },
            help_open: self.help_open,
        }
    }
}

impl Default for UiState {
    /// Empty histories, nothing selected, sorted by CPU descending.
    fn default() -> (r: Self)
        ensures
            r@ == (UiModel {
                gpu_history: seq![],
                vram_history: seq![],
                cpu_history: seq![],
                ram_history: seq![],
                selected_pid: None,
                pinned_pid: None,
                last_click: None,
                selected_group: None,
                pinned_group: None,
                last_group_click: None,
                expanded: seq![],
                scroll: 0,
                display_total: 0,
                sort_key: ProcessSortKey::Cpu,
                sort_desc: true,
                header_hits: seq![],
                pane: None,
                rows_hit: None,
                help_open: false,
            }),
    {
        let r = UiState {
            gpu_history: Vec::new(),
            vram_history: Vec::new(),
            cpu_history: Vec::new(),
            ram_history: Vec::new(),
            process_selected_pid: None,
            process_pinned_pid: None,
            last_process_click: None,
            process_selected_group: None,
            process_pinned_group: None,
            last_process_group_click: None,
            expanded_process_groups: Vec::new(),
            process_scroll: 0,
            process_display_total: 0,
            process_sort_key: ProcessSortKey::Cpu,
            process_sort_desc: true,
            process_header_hits: Vec::new(),
            process_pane: None,
            process_rows: None,
            help_open: false,
        };
        assert(r@.expanded =~= seq![]);
        r
    }
}

pub open spec fn row_target(ps: Seq<ProcessStats>, r: RowModel) -> TargetModel {
    match r {
        RowModel::Process { index, .. } => TargetModel::Process(ps[index as int].pid),
        RowModel::Group { program, .. } => TargetModel::Group(program),
    }
}

pub open spec fn row_targets(ps: Seq<ProcessStats>, rows: Seq<RowModel>) -> Seq<TargetModel> {
    rows.map_values(|r: RowModel| row_target(ps, r))
}

/// What the keyboard moves through: the pinned process, the pinned group's
/// rows, then the scrolling rows.
pub open spec fn nav_targets_spec(m: UiModel, ps: Seq<ProcessStats>) -> Seq<TargetModel> {
    let g = grouped_rows_spec(ps, m.sort_key, m.sort_desc, m.pinned_pid, m.expanded);
    let t = take_pinned_spec(ps, g.1, m.pinned_group);
    (match g.0 {
        Some(i) => seq![TargetModel::Process(ps[i as int].pid)],
        None => seq![],
    }) + row_targets(ps, t.1) + row_targets(ps, t.0)
}

pub open spec fn current_target_spec(m: UiModel) -> Option<TargetModel> {
    match m.selected_pid {
        Some(pid) => Some(TargetModel::Process(pid)),
        None => match m.selected_group {
            Some(p) => Some(TargetModel::Group(p)),
            None => None,
        },
    }
}

/// The state with `t` selected.
pub open spec fn select_spec(m: UiModel, t: TargetModel) -> UiModel {
    match t {
        TargetModel::Process(pid) => UiModel { selected_pid: Some(pid), selected_group: None, ..m },
        TargetModel::Group(p) => UiModel { selected_pid: None, selected_group: Some(p), ..m },
    }
}

pub open spec fn first_target_pos(ts: Seq<TargetModel>, t: TargetModel) -> Option<int>
    decreases ts.len(),
{
    if ts.len() == 0 {
        None
    } else if ts[0] == t {
        Some(0)
    } else {
        match first_target_pos(ts.drop_first(), t) {
            Some(k) => Some(k + 1),
            None => None,
        }
    }
}

/// Selection after moving `delta` rows (clamped to the list).
pub open spec fn move_spec(m: UiModel, ps: Seq<ProcessStats>, delta: int) -> UiModel {
    let ts = nav_targets_spec(m, ps);
    if ts.len() == 0 {
        UiModel { selected_pid: None, selected_group: None, scroll: 0, ..m }
    } else {
        let fallback = if m.scroll < ts.len() - 1 {
            m.scroll as int
        } else {
            ts.len() - 1
        };
        let cur = match current_target_spec(m) {
            Some(t) => match first_target_pos(ts, t) {
                Some(k) => k,
                None => fallback,
            },
            None => fallback,
        };
        let idx = if delta < 0 {
            if cur + delta < 0 {
                0
            } else {
                cur + delta
            }
        } else if cur + delta < ts.len() - 1 {
            cur + delta
        } else {
            ts.len() - 1
        };
        select_spec(m, ts[idx])
    }
}

pub open spec fn home_spec(m: UiModel, ps: Seq<ProcessStats>) -> UiModel {
    let ts = nav_targets_spec(m, ps);
    let sel = if ts.len() > 0 {
        select_spec(m, ts[0])
    } else {
        UiModel { selected_pid: None, selected_group: None, ..m }
    };
    UiModel { scroll: 0, ..sel }
}

pub open spec fn end_spec(m: UiModel, ps: Seq<ProcessStats>) -> UiModel {
    let ts = nav_targets_spec(m, ps);
    let sel = if ts.len() > 0 {
        select_spec(m, ts[ts.len() - 1])
    } else {
        UiModel { selected_pid: None, selected_group: None, ..m }
    };
    let scroll: usize = if ts.len() > 0 {
        (ts.len() - 1) as usize
    } else {
        0
    };
    UiModel { scroll, ..sel }
}

/// Scroll position after scrolling `delta` rows, clamped to the rows last
/// drawn.
pub open spec fn scroll_spec(m: UiModel, delta: int) -> UiModel {
    let scroll: usize = if m.display_total == 0 {
        0
    } else if delta < 0 {
        if m.scroll + delta < 0 {
            0
        } else {
            (m.scroll + delta) as usize
        }
    } else if m.scroll + delta < m.display_total - 1 {
        (m.scroll + delta) as usize
    } else {
        (m.display_total - 1) as usize
    };
    UiModel { scroll, ..m }
}

pub open spec fn clear_selection_spec(m: UiModel) -> UiModel {
    UiModel {
        selected_pid: None,
        pinned_pid: None,
        last_click: None,
        selected_group: None,
        pinned_group: None,
        last_group_click: None,
        ..m
    }
}

pub open spec fn pane_contains_spec(m: UiModel, x: u16, y: u16) -> bool {
    match m.pane {
        Some(p) => rect_contains_spec(p, x, y),
        None => false,
    }
}

pub open spec fn with_help(m: UiModel, open: bool) -> UiModel {
    UiModel { help_open: open, ..m }
}

/// `-delta` of a negative offset.
fn neg_magnitude(delta: isize) -> (r: usize)
    requires
        delta < 0,
    ensures
        r == -delta,
{
    if delta == isize::MIN {
        (isize::MAX as usize) + 1
    } else {
        (-delta) as usize
    }
}

fn clone_target(t: &ProcessRowTarget) -> (r: ProcessRowTarget)
    ensures
        target_view(r) == target_view(*t),
{
    match t {
        ProcessRowTarget::Process(p) => ProcessRowTarget::Process(*p),
        ProcessRowTarget::Group(g) => ProcessRowTarget::Group(g.clone()),
    }
}

fn same_target(a: &ProcessRowTarget, b: &ProcessRowTarget) -> (r: bool)
    ensures
        r == (target_view(*a) == target_view(*b)),
{
    match (a, b) {
        (ProcessRowTarget::Process(x), ProcessRowTarget::Process(y)) => *x == *y,
        (ProcessRowTarget::Group(x), ProcessRowTarget::Group(y)) => str_eq(x.as_str(), y.as_str()),
        _ => false,
    }
}

fn row_target_exec(processes: &[ProcessStats], r: &ProcessDisplayRow) -> (t: ProcessRowTarget)
    requires
        match row_view(*r) {
            RowModel::Process { index, .. } => index < processes@.len(),
            RowModel::Group { .. } => true,
        },
    ensures
        target_view(t) == row_target(processes@, row_view(*r)),
{
    match r {
        ProcessDisplayRow::Process { index, .. } => ProcessRowTarget::Process(processes[*index].pid),
        ProcessDisplayRow::Group { program, .. } => ProcessRowTarget::Group(program.clone()),
    }
}

fn push_row_targets(processes: &[ProcessStats], rows: &Vec<ProcessDisplayRow>, out: &mut Vec<ProcessRowTarget>)
    requires
        rows_in_range(rows_view(rows@), processes@.len()),
    ensures
        targets_view(final(out)@) == targets_view(old(out)@) + row_targets(processes@, rows_view(rows@)),
{
    let ghost start = targets_view(out@);
    let ghost rt = row_targets(processes@, rows_view(rows@));
    for i in 0..rows.len()
        invariant
            rows_in_range(rows_view(rows@), processes@.len()),
            rt == row_targets(processes@, rows_view(rows@)),
            targets_view(out@) == start + rt.take(i as int),
    {
        assert(rows_view(rows@)[i as int] == row_view(rows@[i as int]));
        let t = row_target_exec(processes, &rows[i]);
        let ghost pre = targets_view(out@);
        out.push(t);
        assert(targets_view(out@) =~= pre.push(target_view(t)));
        assert(rt.take(i + 1) =~= rt.take(i as int).push(rt[i as int]));
    }
    assert(rt.take(rows@.len() as int) =~= rt);
}

impl UiState {
    fn current_process_target(&self) -> (r: Option<ProcessRowTarget>)
        ensures
            match r {
                Some(t) => current_target_spec(self@) == Some(target_view(t)),
                None => current_target_spec(self@) is None,
            },
    {
        if let Some(pid) = self.process_selected_pid {
            Some(ProcessRowTarget::Process(pid))
        } else {
            match &self.process_selected_group {
                Some(program) => Some(ProcessRowTarget::Group(program.clone())),
                None => None,
            }
        }
    }

    fn select_process_target(&mut self, target: &ProcessRowTarget)
        ensures
            final(self)@ == select_spec(old(self)@, target_view(*target)),
    {
        match target {
            ProcessRowTarget::Process(pid) => {
                self.process_selected_pid = Some(*pid);
                self.process_selected_group = None;
            },
            ProcessRowTarget::Group(program) => {
                self.process_selected_pid = None;
                self.process_selected_group = Some(program.clone());
            },
        }
    }

    /// Rows the keyboard moves through, in display order.
    pub fn process_navigation_targets(&self, processes: &[ProcessStats]) -> (r: Vec<ProcessRowTarget>)
        ensures
            targets_view(r@) == nav_targets_spec(self@, processes@),
    {
        let (pinned, mut rows) = grouped_process_rows(
            processes,
            self.process_sort_key,
            self.process_sort_desc,
            self.process_pinned_pid,
            self.expanded_process_groups.as_slice(),
        );
        let pinned_group_rows = match &self.process_pinned_group {
            Some(g) => take_pinned_group_rows(&mut rows, processes, Some(g.as_str())),
            None => take_pinned_group_rows(&mut rows, processes, None),
        };
        let mut targets: Vec<ProcessRowTarget> = Vec::new();
        if let Some(i) = pinned {
            targets.push(ProcessRowTarget::Process(processes[i].pid));
        }
        let ghost head = targets_view(targets@);
        assert(head =~= (match pinned {
            Some(i) => seq![TargetModel::Process(processes@[i as int].pid)],
            None => seq![],
        }));
        push_row_targets(processes, &pinned_group_rows, &mut targets);
        push_row_targets(processes, &rows, &mut targets);
        targets
    }

    /// Move the selection `delta` rows up (negative) or down, clamped to
    /// the list; from the current row, or else the scroll position. An
    /// empty list clears the selection and the scroll.
    pub fn move_process_selection(&mut self, delta: isize, processes: &[ProcessStats])
        ensures
            final(self)@ == move_spec(old(self)@, processes@, delta as int),
    {
        let targets = self.process_navigation_targets(processes);
        let ghost ts = targets_view(targets@);
        if targets.len() == 0 {
            self.process_selected_pid = None;
            self.process_selected_group = None;
            self.process_scroll = 0;
            return;
        }
        let last = targets.len() - 1;
        let fallback = if self.process_scroll < last {
            self.process_scroll
        } else {
            last
        };
        let current = match self.current_process_target() {
            Some(selected) => {
                let mut k: usize = 0;
                while k < targets.len() && !same_target(&targets[k], &selected)
                    invariant
                        ts == targets_view(targets@),
                        k <= targets@.len(),
                        forall|j: int| 0 <= j < k ==> #[trigger] ts[j] != target_view(selected),
                    decreases targets@.len() - k,
                {
                    k = k + 1;
                }
                proof {
                    lemma_first_target_pos(ts, target_view(selected), k as int);
                }
                if k < targets.len() {
                    k
                } else {
                    fallback
                }
            },
            None => fallback,
        };
        let target = if delta < 0 {
            let back = neg_magnitude(delta);
            current.saturating_sub(back)
        } else {
            let fwd = current.saturating_add(delta as usize);
            if fwd < last {
                fwd
            } else {
                last
            }
        };
        let t = clone_target(&targets[target]);
        self.select_process_target(&t);
    }

    /// Select the first row and scroll to the top.
    pub fn process_home(&mut self, processes: &[ProcessStats])
        ensures
            final(self)@ == home_spec(old(self)@, processes@),
    {
        let targets = self.process_navigation_targets(processes);
        if targets.len() > 0 {
            let t = clone_target(&targets[0]);
            self.select_process_target(&t);
        } else {
            self.process_selected_pid = None;
            self.process_selected_group = None;
        }
        self.process_scroll = 0;
    }

    /// Select the last row and scroll to the bottom.
    pub fn process_end(&mut self, processes: &[ProcessStats])
        ensures
            final(self)@ == end_spec(old(self)@, processes@),
    {
        let targets = self.process_navigation_targets(processes);
        let n = targets.len();
        if n > 0 {
            let t = clone_target(&targets[n - 1]);
            self.select_process_target(&t);
        } else {
            self.process_selected_pid = None;
            self.process_selected_group = None;
        }
        self.process_scroll = n.saturating_sub(1);
    }

    /// Scroll the table `delta` rows, clamped to the rows last drawn.
    pub fn scroll_processes(&mut self, delta: isize)
        ensures
            final(self)@ == scroll_spec(old(self)@, delta as int),
    {
        let total = self.process_display_total;
        if total == 0 {
            self.process_scroll = 0;
            return;
        }
        self.process_scroll = if delta < 0 {
            self.process_scroll.saturating_sub(neg_magnitude(delta))
        } else {
            let fwd = self.process_scroll.saturating_add(delta as usize);
            if fwd < total - 1 {
                fwd
            } else {
                total - 1
            }
        };
    }

    /// Forget selections, pins and pending double clicks.
    pub fn clear_process_selection(&mut self)
        ensures
            final(self)@ == clear_selection_spec(old(self)@),
    {
        self.process_selected_pid = None;
        self.process_pinned_pid = None;
        self.last_process_click = None;
        self.process_selected_group = None;
        self.process_pinned_group = None;
        self.last_process_group_click = None;
    }

    /// The cell lies inside the process pane as last drawn.
    pub fn process_pane_contains(&self, x: u16, y: u16) -> (r: bool)
        ensures
            r == pane_contains_spec(self@, x, y),
    {
        match self.process_pane {
            Some(pane) => rect_contains(pane, x, y),
            None => false,
        }
    }

    pub fn toggle_help(&mut self)
        ensures
            final(self)@ == with_help(old(self)@, !old(self)@.help_open),
    {
        self.help_open = !self.help_open;
    }

    pub fn close_help(&mut self)
        ensures
            final(self)@ == with_help(old(self)@, false),
    {
        self.help_open = false;
    }

    pub fn is_help_open(&self) -> (r: bool)
        ensures
            r == self@.help_open,
    {
        self.help_open
    }
}

proof fn lemma_first_target_pos(ts: Seq<TargetModel>, t: TargetModel, k: int)
    requires
        0 <= k <= ts.len(),
        forall|j: int| 0 <= j < k ==> #[trigger] ts[j] != t,
        k == ts.len() || ts[k] == t,
    ensures
        first_target_pos(ts, t) == (if k < ts.len() {
            Some(k)
        } else {
            None::<int>
        }),
    decreases ts.len(),
{
    if ts.len() > 0 && k > 0 {
        assert forall|j: int| 0 <= j < k - 1 implies #[trigger] ts.drop_first()[j] != t by {
            assert(ts.drop_first()[j] == ts[j + 1]);
        }
        lemma_first_target_pos(ts.drop_first(), t, k - 1);
    }
}


// ---------------------------------------------------------------------------
// Keeping the selection valid, mouse clicks, history
// ---------------------------------------------------------------------------

pub open spec fn has_pid(ps: Seq<ProcessStats>, pid: u32) -> bool {
    exists|i: int| 0 <= i < ps.len() && #[trigger] ps[i].pid == pid
}

pub open spec fn has_program(ps: Seq<ProcessStats>, p: Seq<char>) -> bool {
    exists|i: int| 0 <= i < ps.len() && #[trigger] ps[i].program@ == p
}

pub open spec fn keep_pid(ps: Seq<ProcessStats>, v: Option<u32>) -> Option<u32> {
    match v {
        Some(pid) => if has_pid(ps, pid) {
            v
        } else {
            None
        },
        None => None,
    }
}

pub open spec fn keep_program(ps: Seq<ProcessStats>, v: Option<Seq<char>>) -> Option<Seq<char>> {
    match v {
        Some(p) => if has_program(ps, p) {
            v
        } else {
            None
        },
        None => None,
    }
}

/// Expanded programs that still have a process, in order.
pub open spec fn retain_programs(es: Seq<Seq<char>>, ps: Seq<ProcessStats>) -> Seq<Seq<char>>
    decreases es.len(),
{
    if es.len() == 0 {
        es
    } else {
        let rest = retain_programs(es.drop_last(), ps);
        if has_program(ps, es.last()) {
            rest.push(es.last())
        } else {
            rest
        }
    }
}

/// Drop selections, pins and expansions whose process or program is gone,
/// and keep the scroll within the rows last drawn.
pub open spec fn clamp_spec(m: UiModel, ps: Seq<ProcessStats>) -> UiModel {
    let last: int = if m.display_total >= 1 {
        m.display_total - 1
    } else {
        0
    };
    UiModel {
        selected_pid: keep_pid(ps, m.selected_pid),
        pinned_pid: keep_pid(ps, m.pinned_pid),
        selected_group: keep_program(ps, m.selected_group),
        pinned_group: keep_program(ps, m.pinned_group),
        expanded: retain_programs(m.expanded, ps),
        scroll: if m.scroll <= last {
            m.scroll
        } else {
            last as usize
        },
        ..m
    }
}

fn has_pid_exec(processes: &[ProcessStats], pid: u32) -> (r: bool)
    ensures
        r == has_pid(processes@, pid),
{
    for i in 0..processes.len()
        invariant
            forall|j: int| 0 <= j < i ==> processes@[j].pid != pid,
    {
        if processes[i].pid == pid {
            assert(processes@[i as int].pid == pid);
            return true;
        }
    }
    false
}

fn has_program_exec(processes: &[ProcessStats], p: &str) -> (r: bool)
    ensures
        r == has_program(processes@, p@),
{
    for i in 0..processes.len()
        invariant
            forall|j: int| 0 <= j < i ==> processes@[j].program@ != p@,
    {
        if str_eq(processes[i].program.as_str(), p) {
            assert(processes@[i as int].program@ == p@);
            return true;
        }
    }
    false
}

/// Remove every occurrence of `p`.
pub open spec fn remove_all(es: Seq<Seq<char>>, p: Seq<char>) -> Seq<Seq<char>>
    decreases es.len(),
{
    if es.len() == 0 {
        es
    } else {
        let rest = remove_all(es.drop_last(), p);
        if es.last() == p {
            rest
        } else {
            rest.push(es.last())
        }
    }
}

/// Expand a collapsed group, or collapse an expanded one.
pub open spec fn toggle_spec(es: Seq<Seq<char>>, p: Seq<char>) -> Seq<Seq<char>> {
    if es.contains(p) {
        remove_all(es, p)
    } else {
        es.push(p)
    }
}

proof fn lemma_push_contains(s: Seq<Seq<char>>, x: Seq<char>, q: Seq<char>)
    ensures
        s.push(x).contains(q) == (s.contains(q) || q == x),
{
    assert(s.push(x)[s.len() as int] == x);
    if s.push(x).contains(q) && q != x {
        let k = choose|k: int| 0 <= k < s.push(x).len() && s.push(x)[k] == q;
        assert(s[k] == q);
    }
    if s.contains(q) {
        let k = choose|k: int| 0 <= k < s.len() && s[k] == q;
        assert(s.push(x)[k] == q);
    }
}

proof fn lemma_remove_all_contains(es: Seq<Seq<char>>, p: Seq<char>, q: Seq<char>)
    ensures
        remove_all(es, p).contains(q) == (es.contains(q) && q != p),
    decreases es.len(),
{
    if es.len() == 0 {
        assert(!es.contains(q));
    } else {
        let init = es.drop_last();
        let rest = remove_all(init, p);
        lemma_remove_all_contains(init, p, q);
        assert(es =~= init.push(es.last()));
        lemma_push_contains(init, es.last(), q);
        lemma_push_contains(rest, es.last(), q);
    }
}

/// Expanding or collapsing a group flips whether that group is expanded and
/// leaves every other group as it was; so doing it twice restores the
/// groups that are expanded.
pub proof fn law_toggle_group_flips_only_it(es: Seq<Seq<char>>, p: Seq<char>, q: Seq<char>)
    ensures
        toggle_spec(es, p).contains(p) == !es.contains(p),
        q != p ==> toggle_spec(es, p).contains(q) == es.contains(q),
        toggle_spec(toggle_spec(es, p), p).contains(q) == es.contains(q),
{
    lemma_remove_all_contains(es, p, p);
    lemma_remove_all_contains(es, p, q);
    let t = toggle_spec(es, p);
    lemma_remove_all_contains(t, p, q);
    lemma_remove_all_contains(t, p, p);
    lemma_push_contains(es, p, q);
    lemma_push_contains(es, p, p);
    lemma_push_contains(t, p, q);
}

/// Time within which a second click on the same row counts as a double
/// click (ns).
pub const PROCESS_DOUBLE_CLICK_WINDOW_NS: u64 = 400_000_000;

pub open spec fn sat_sub64(a: u64, b: u64) -> u64 {
    if a >= b {
        (a - b) as u64
    } else {
        0
    }
}

/// The target under the cell, when it lies on a drawn row.
pub open spec fn hit_target(m: UiModel, x: u16, y: u16) -> Option<TargetModel> {
    match m.rows_hit {
        Some(h) => if rect_contains_spec(h.0, x, y) && ((y - h.0.y) as int) < h.1.len() {
            Some(h.1[(y - h.0.y) as int])
        } else {
            None
        },
        None => None,
    }
}

/// A click on a row selects it; a second click within the double-click
/// window pins it. Selecting a process clears any group selection and pin,
/// and a single click elsewhere releases a pin held by another row.
pub open spec fn click_row_spec(m: UiModel, t: TargetModel, now_ns: u64) -> UiModel {
    match t {
        TargetModel::Process(pid) => {
            let double = match m.last_click {
                Some(c) => c.0 == pid && sat_sub64(now_ns, c.1) <= PROCESS_DOUBLE_CLICK_WINDOW_NS,
                None => false,
            };
            let base = UiModel {
                selected_group: None,
                pinned_group: None,
                last_group_click: None,
                selected_pid: Some(pid),
                ..m
            };
            if double {
                UiModel { pinned_pid: Some(pid), last_click: None, ..base }
            } else {
                UiModel {
                    pinned_pid: if m.pinned_pid is Some && m.pinned_pid != Some(pid) {
                        None
                    } else {
                        m.pinned_pid
                    },
                    last_click: Some((pid, now_ns)),
                    ..base
                }
            }
        },
        TargetModel::Group(p) => {
            let double = match m.last_group_click {
                Some(c) => c.0 == p && sat_sub64(now_ns, c.1) <= PROCESS_DOUBLE_CLICK_WINDOW_NS,
                None => false,
            };
            let base = UiModel {
                selected_pid: None,
                pinned_pid: None,
                last_click: None,
                selected_group: Some(p),
                ..m
            };
            if double {
                UiModel { pinned_group: Some(p), last_group_click: None, ..base }
            } else {
                UiModel {
                    pinned_group: if m.pinned_group != Some(p) {
                        None
                    } else {
                        m.pinned_group
                    },
                    last_group_click: Some((p, now_ns)),
                    ..base
                }
            }
        },
    }
}

/// The header button under the cell.
pub open spec fn first_hit(hits: Seq<ProcessHeaderHit>, x: u16, y: u16) -> Option<int>
    decreases hits.len(),
{
    if hits.len() == 0 {
        None
    } else if rect_contains_spec(hits[0].rect, x, y) {
        Some(0)
    } else {
        match first_hit(hits.drop_first(), x, y) {
            Some(k) => Some(k + 1),
            None => None,
        }
    }
}

/// Clicking the active column flips the direction; another column becomes
/// active, descending for CPU, memory and threads. Without a selected
/// process the table scrolls back to the top.
pub open spec fn sort_click_spec(m: UiModel, key: ProcessSortKey) -> UiModel {
    let sorted = if m.sort_key == key {
        UiModel { sort_desc: !m.sort_desc, ..m }
    } else {
        UiModel {
            sort_key: key,
            sort_desc: key is Cpu || key is Memory || key is Threads,
            ..m
        }
    };
    if m.selected_pid is None {
        UiModel { scroll: 0, ..sorted }
    } else {
        sorted
    }
}

pub const HISTORY_MAX_SAMPLES: usize = 720;

/// The history without samples older than the window.
pub open spec fn drop_old(h: Seq<TimedSample>, now_ns: u64) -> Seq<TimedSample>
    decreases h.len(),
{
    if h.len() > 0 && sat_sub64(now_ns, h[0].at_ns) > crate::ui::HISTORY_WINDOW_NS {
        drop_old(h.drop_first(), now_ns)
    } else {
        h
    }
}

/// The history with `value` appended at `now_ns`, samples older than the
/// window dropped, and at most [`HISTORY_MAX_SAMPLES`] kept (the newest).
pub open spec fn push_history_spec(h: Seq<TimedSample>, value: u64, now_ns: u64) -> Seq<TimedSample> {
    let d = drop_old(h.push(TimedSample { at_ns: now_ns, value }), now_ns);
    if d.len() > HISTORY_MAX_SAMPLES {
        d.skip(d.len() - HISTORY_MAX_SAMPLES)
    } else {
        d
    }
}

proof fn lemma_drop_old_suffix(h: Seq<TimedSample>, now_ns: u64)
    requires
        h.len() > 0,
        sat_sub64(now_ns, h.last().at_ns) <= crate::ui::HISTORY_WINDOW_NS,
    ensures
        ({
            let d = drop_old(h, now_ns);
            &&& 0 < d.len() <= h.len()
            &&& d == h.skip(h.len() - d.len())
            &&& sat_sub64(now_ns, d[0].at_ns) <= crate::ui::HISTORY_WINDOW_NS
        }),
    decreases h.len(),
{
    if sat_sub64(now_ns, h[0].at_ns) > crate::ui::HISTORY_WINDOW_NS {
        assert(h.len() > 1);
        let t = h.drop_first();
        assert(t.last() == h.last());
        lemma_drop_old_suffix(t, now_ns);
        let d = drop_old(t, now_ns);
        assert(h.skip(h.len() - d.len()) =~= t.skip(t.len() - d.len()));
    } else {
        assert(h.skip(0) =~= h);
    }
}

/// Samples in the order of their times.
pub open spec fn time_ordered(h: Seq<TimedSample>) -> bool {
    forall|i: int, j: int| 0 <= i <= j < h.len() ==> #[trigger] h[i].at_ns <= #[trigger] h[j].at_ns
}

/// After a sample is pushed, the history ends with that sample and keeps at
/// most [`HISTORY_MAX_SAMPLES`] of the latest samples in their order; when
/// the samples came in time order, the oldest kept sample lies within the
/// window.
pub proof fn law_history_push_keeps_newest(h: Seq<TimedSample>, value: u64, now_ns: u64)
    ensures
        ({
            let full = h.push(TimedSample { at_ns: now_ns, value });
            let r = push_history_spec(h, value, now_ns);
            &&& 0 < r.len() <= HISTORY_MAX_SAMPLES
            &&& r.last() == TimedSample { at_ns: now_ns, value }
            &&& r == full.skip(full.len() - r.len())
            &&& time_ordered(full) ==> sat_sub64(now_ns, r[0].at_ns)
                <= crate::ui::HISTORY_WINDOW_NS
        }),
{
    let full = h.push(TimedSample { at_ns: now_ns, value });
    lemma_drop_old_suffix(full, now_ns);
    let d = drop_old(full, now_ns);
    let r = push_history_spec(h, value, now_ns);
    if d.len() > HISTORY_MAX_SAMPLES {
        assert(r =~= full.skip(full.len() - r.len()));
        assert(r.last() == d.last());
        let k0 = full.len() - d.len();
        let k = full.len() - r.len();
        assert(d[0] == full[k0]);
        assert(r[0] == full[k]);
        if time_ordered(full) {
            assert(full[k0].at_ns <= full[k].at_ns);
        }
    }
}

/// Append a sample and drop what fell out of the window or over the cap.
pub fn push_history_at(history: &mut Vec<TimedSample>, value: u64, now_ns: u64)
    ensures
        final(history)@ == push_history_spec(old(history)@, value, now_ns),
{
    let ghost h0 = history@.push(TimedSample { at_ns: now_ns, value });
    history.push(TimedSample { at_ns: now_ns, value });
    while history.len() > 0 && now_ns.saturating_sub(history[0].at_ns) > crate::ui::HISTORY_WINDOW_NS
        invariant
            drop_old(history@, now_ns) == drop_old(h0, now_ns),
        decreases history@.len(),
    {
        let ghost before = history@;
        history.remove(0);
        assert(history@ =~= before.drop_first());
    }
    let ghost d = history@;
    assert(drop_old(d, now_ns) == d);
    assert(d == drop_old(h0, now_ns));
    assert(d.skip(0) =~= d);
    while history.len() > HISTORY_MAX_SAMPLES
        invariant
            d.len() >= history@.len(),
            history@.len() >= (if d.len() > HISTORY_MAX_SAMPLES {
                HISTORY_MAX_SAMPLES as int
            } else {
                d.len() as int
            }),
            history@ == d.skip(d.len() - history@.len()),
        decreases history@.len(),
    {
        let ghost before = history@;
        history.remove(0);
        assert(history@ =~= d.skip(d.len() - history@.len()));
    }
}

impl UiState {
    /// Drop selections, pins and expansions whose process or program is
    /// gone, and keep the scroll within the rows last drawn.
    pub fn clamp_process_selection(&mut self, processes: &[ProcessStats])
        ensures
            final(self)@ == clamp_spec(old(self)@, processes@),
    {
        if let Some(pid) = self.process_selected_pid {
            if !has_pid_exec(processes, pid) {
                self.process_selected_pid = None;
            }
        }
        if let Some(pid) = self.process_pinned_pid {
            if !has_pid_exec(processes, pid) {
                self.process_pinned_pid = None;
            }
        }
        let drop_selected = match &self.process_selected_group {
            Some(p) => !has_program_exec(processes, p.as_str()),
            None => false,
        };
        if drop_selected {
            self.process_selected_group = None;
        }
        let drop_pinned = match &self.process_pinned_group {
            Some(p) => !has_program_exec(processes, p.as_str()),
            None => false,
        };
        if drop_pinned {
            self.process_pinned_group = None;
        }
        let ghost es = strings_view(self.expanded_process_groups@);
        let mut kept: Vec<String> = Vec::new();
        assert(strings_view(kept@) =~= retain_programs(es.take(0), processes@));
        for i in 0..self.expanded_process_groups.len()
            invariant
                es == strings_view(self.expanded_process_groups@),
                strings_view(kept@) == retain_programs(es.take(i as int), processes@),
        {
            assert(es.take(i + 1).drop_last() =~= es.take(i as int));
            assert(es.take(i + 1).last() == self.expanded_process_groups@[i as int]@);
            if has_program_exec(processes, self.expanded_process_groups[i].as_str()) {
                let ghost before = strings_view(kept@);
                kept.push(self.expanded_process_groups[i].clone());
                assert(strings_view(kept@) =~= before.push(es[i as int]));
            }
        }
        assert(es.take(es.len() as int) =~= es);
        self.expanded_process_groups = kept;
        let last = self.process_display_total.saturating_sub(1);
        if self.process_scroll > last {
            self.process_scroll = last;
        }
    }

    /// Sort by the header button under the cell; `false` when there is none.
    pub fn click_process_sort(&mut self, x: u16, y: u16) -> (r: bool)
        ensures
            r == first_hit(old(self)@.header_hits, x, y) is Some,
            final(self)@ == match first_hit(old(self)@.header_hits, x, y) {
                Some(k) => sort_click_spec(old(self)@, old(self)@.header_hits[k].key),
                None => old(self)@,
            },
    {
        let ghost hs = self.process_header_hits@;
        let mut k: usize = 0;
        while k < self.process_header_hits.len() && !rect_contains(self.process_header_hits[k].rect, x, y)
            invariant
                hs == self.process_header_hits@,
                k <= hs.len(),
                forall|j: int| 0 <= j < k ==> !rect_contains_spec(#[trigger] hs[j].rect, x, y),
            decreases hs.len() - k,
        {
            k = k + 1;
        }
        proof {
            lemma_first_hit(hs, x, y, k as int);
        }
        if k == self.process_header_hits.len() {
            return false;
        }
        let key = self.process_header_hits[k].key;
        if self.process_sort_key == key {
            self.process_sort_desc = !self.process_sort_desc;
        } else {
            self.process_sort_key = key;
            self.process_sort_desc = match key {
                ProcessSortKey::Cpu | ProcessSortKey::Memory | ProcessSortKey::Threads => true,
                _ => false,
            };
        }
        if self.process_selected_pid.is_none() {
            self.process_scroll = 0;
        }
        true
    }

    fn hit_row(&self, x: u16, y: u16) -> (r: Option<ProcessRowTarget>)
        ensures
            match r {
                Some(t) => hit_target(self@, x, y) == Some(target_view(t)),
                None => hit_target(self@, x, y) is None,
            },
    {
        match &self.process_rows {
            Some(rows) => {
                if !rect_contains(rows.rect, x, y) {
                    return None;
                }
                let row = (y - rows.rect.y) as usize;
                if row < rows.targets.len() {
                    assert(targets_view(rows.targets@)[row as int] == target_view(rows.targets@[row as int]));
                    Some(clone_target(&rows.targets[row]))
                } else {
                    None
                }
            },
            None => None,
        }
    }

    /// Select (first click) or pin (double click) the row under the cell at
    /// time `now_ns`; `false` when no row is there.
    pub fn click_process_row(&mut self, x: u16, y: u16, now_ns: u64) -> (r: bool)
        ensures
            r == hit_target(old(self)@, x, y) is Some,
            final(self)@ == match hit_target(old(self)@, x, y) {
                Some(t) => click_row_spec(old(self)@, t, now_ns),
                None => old(self)@,
            },
    {
        let target = match self.hit_row(x, y) {
            Some(t) => t,
            None => return false,
        };
        match target {
            ProcessRowTarget::Process(pid) => {
                let is_double_click = match self.last_process_click {
                    Some((last_pid, at)) => last_pid == pid && now_ns.saturating_sub(at)
                        <= PROCESS_DOUBLE_CLICK_WINDOW_NS,
                    None => false,
                };
                self.process_selected_group = None;
                self.process_pinned_group = None;
                self.last_process_group_click = None;
                self.process_selected_pid = Some(pid);
                if is_double_click {
                    self.process_pinned_pid = Some(pid);
                    self.last_process_click = None;
                } else {
                    let release = match self.process_pinned_pid {
                        Some(p) => p != pid,
                        None => false,
                    };
                    if release {
                        self.process_pinned_pid = None;
                    }
                    self.last_process_click = Some((pid, now_ns));
                }
            },
            ProcessRowTarget::Group(program) => {
                let is_double_click = match &self.last_process_group_click {
                    Some((last_program, at)) => str_eq(last_program.as_str(), program.as_str())
                        && now_ns.saturating_sub(*at) <= PROCESS_DOUBLE_CLICK_WINDOW_NS,
                    None => false,
                };
                self.process_selected_pid = None;
                self.process_pinned_pid = None;
                self.last_process_click = None;
                self.process_selected_group = Some(program.clone());
                if is_double_click {
                    self.process_pinned_group = Some(program);
                    self.last_process_group_click = None;
                } else {
                    let keep = match &self.process_pinned_group {
                        Some(p) => str_eq(p.as_str(), program.as_str()),
                        None => false,
                    };
                    if !keep {
                        self.process_pinned_group = None;
                    }
                    self.last_process_group_click = Some((program, now_ns));
                }
            },
        }
        true
    }

    /// Expand or collapse the group under the cell; `false` when no group
    /// row is there.
    pub fn right_click_process_group(&mut self, x: u16, y: u16) -> (r: bool)
        ensures
            r == (hit_target(old(self)@, x, y) matches Some(TargetModel::Group(_))),
            final(self)@ == match hit_target(old(self)@, x, y) {
                Some(TargetModel::Group(p)) => UiModel {
                    expanded: toggle_spec(old(self)@.expanded, p),
                    ..old(self)@
                },
                _ => old(self)@,
            },
    {
        let program = match self.hit_row(x, y) {
            Some(ProcessRowTarget::Group(p)) => p,
            _ => return false,
        };
        let ghost es = strings_view(self.expanded_process_groups@);
        if contains_string(self.expanded_process_groups.as_slice(), program.as_str()) {
            let mut kept: Vec<String> = Vec::new();
            assert(strings_view(kept@) =~= remove_all(es.take(0), program@));
            for i in 0..self.expanded_process_groups.len()
                invariant
                    es == strings_view(self.expanded_process_groups@),
                    strings_view(kept@) == remove_all(es.take(i as int), program@),
            {
                assert(es.take(i + 1).drop_last() =~= es.take(i as int));
                assert(es.take(i + 1).last() == self.expanded_process_groups@[i as int]@);
                if !str_eq(self.expanded_process_groups[i].as_str(), program.as_str()) {
                    let ghost before = strings_view(kept@);
                    kept.push(self.expanded_process_groups[i].clone());
                    assert(strings_view(kept@) =~= before.push(es[i as int]));
                }
            }
            assert(es.take(es.len() as int) =~= es);
            self.expanded_process_groups = kept;
        } else {
            self.expanded_process_groups.push(program);
            assert(strings_view(self.expanded_process_groups@) =~= es.push(program@));
        }
        true
    }

    /// Forget the mouse targets of the last drawn frame.
    pub fn clear_process_interaction(&mut self)
        ensures
            final(self)@ == (UiModel { header_hits: seq![], pane: None, rows_hit: None, ..old(self)@ }),
    {
        self.process_header_hits = Vec::new();
        self.process_pane = None;
        self.process_rows = None;
    }

    /// Record one sample of each history (percent values) at `now_ns`.
    pub fn push_sample(&mut self, gpu_pct: u64, vram_pct: u64, cpu_pct: u64, ram_pct: u64, now_ns: u64)
        ensures
            final(self)@ == (UiModel {
                gpu_history: push_history_spec(old(self)@.gpu_history, gpu_pct, now_ns),
                vram_history: push_history_spec(old(self)@.vram_history, vram_pct, now_ns),
                cpu_history: push_history_spec(old(self)@.cpu_history, cpu_pct, now_ns),
                ram_history: push_history_spec(old(self)@.ram_history, ram_pct, now_ns),
                ..old(self)@
            }),
    {
        push_history_at(&mut self.gpu_history, gpu_pct, now_ns);
        push_history_at(&mut self.vram_history, vram_pct, now_ns);
        push_history_at(&mut self.cpu_history, cpu_pct, now_ns);
        push_history_at(&mut self.ram_history, ram_pct, now_ns);
    }
}

proof fn lemma_first_hit(hs: Seq<ProcessHeaderHit>, x: u16, y: u16, k: int)
    requires
        0 <= k <= hs.len(),
        forall|j: int| 0 <= j < k ==> !rect_contains_spec(#[trigger] hs[j].rect, x, y),
        k == hs.len() || rect_contains_spec(hs[k].rect, x, y),
    ensures
        first_hit(hs, x, y) == (if k < hs.len() {
            Some(k)
        } else {
            None::<int>
        }),
    decreases hs.len(),
{
    if hs.len() > 0 && k > 0 {
        assert forall|j: int| 0 <= j < k - 1 implies !rect_contains_spec(#[trigger] hs.drop_first()[j].rect, x, y) by {
            assert(hs.drop_first()[j] == hs[j + 1]);
        }
        lemma_first_hit(hs.drop_first(), x, y, k - 1);
    }
}


// ---------------------------------------------------------------------------
// Laying out the process table
// ---------------------------------------------------------------------------

pub open spec fn sat16(a: int) -> u16 {
    if a > u16::MAX {
        u16::MAX
    } else if a < 0 {
        0
    } else {
        a as u16
    }
}

/// Width left after `used` columns, but at least `min`.
pub open spec fn rest_width(w: u16, used: int, min: int) -> u16 {
    let r = if w > used {
        w - used
    } else {
        0
    };
    if r >= min {
        r as u16
    } else {
        min as u16
    }
}

/// Clickable sort buttons of the header line: PID, program (the command
/// column sits between program and CPU in the wide layout), CPU, memory,
/// threads.
pub open spec fn header_hits_spec(inner: Rect, table_width: u16, wide: bool) -> Seq<ProcessHeaderHit> {
    let y = inner.y;
    let x1 = sat16(inner.x + 7);
    let prog = if wide {
        Rect { x: x1, y, width: 16, height: 1 }
    } else {
        Rect { x: x1, y, width: rest_width(table_width, 29, 8), height: 1 }
    };
    let x2 = if wide {
        sat16(sat16(x1 + 16) + rest_width(table_width, 46, 12))
    } else {
        sat16(x1 + rest_width(table_width, 29, 8))
    };
    let x3 = sat16(x2 + 6);
    let x4 = sat16(x3 + 9);
    seq![
        ProcessHeaderHit { rect: Rect { x: inner.x, y, width: 7, height: 1 }, key: ProcessSortKey::Pid },
        ProcessHeaderHit { rect: prog, key: ProcessSortKey::Program },
        ProcessHeaderHit { rect: Rect { x: x2, y, width: 6, height: 1 }, key: ProcessSortKey::Cpu },
        ProcessHeaderHit { rect: Rect { x: x3, y, width: 9, height: 1 }, key: ProcessSortKey::Memory },
        ProcessHeaderHit { rect: Rect { x: x4, y, width: 6, height: 1 }, key: ProcessSortKey::Threads },
    ]
}

fn rest_width_exec(w: u16, used: u16, min: u16) -> (r: u16)
    ensures
        r == rest_width(w, used as int, min as int),
{
    let r = w.saturating_sub(used);
    if r >= min {
        r
    } else {
        min
    }
}

/// Sort buttons of the header line drawn in `inner` with `table_width`
/// columns.
pub fn process_header_hits(inner: Rect, table_width: u16, wide: bool) -> (r: Vec<ProcessHeaderHit>)
    ensures
        r@ == header_hits_spec(inner, table_width, wide),
{
    let mut hits: Vec<ProcessHeaderHit> = Vec::new();
    let mut x = inner.x;
    hits.push(ProcessHeaderHit { rect: Rect::new(x, inner.y, 7, 1), key: ProcessSortKey::Pid });
    x = x.saturating_add(7);
    if wide {
        hits.push(ProcessHeaderHit { rect: Rect::new(x, inner.y, 16, 1), key: ProcessSortKey::Program });
        x = x.saturating_add(16);
        let command_width = rest_width_exec(table_width, 46, 12);
        x = x.saturating_add(command_width);
    } else {
        let program_width = rest_width_exec(table_width, 29, 8);
        hits.push(
            ProcessHeaderHit { rect: Rect::new(x, inner.y, program_width, 1), key: ProcessSortKey::Program },
        );
        x = x.saturating_add(program_width);
    }
    hits.push(ProcessHeaderHit { rect: Rect::new(x, inner.y, 6, 1), key: ProcessSortKey::Cpu });
    x = x.saturating_add(6);
    hits.push(ProcessHeaderHit { rect: Rect::new(x, inner.y, 9, 1), key: ProcessSortKey::Memory });
    x = x.saturating_add(9);
    hits.push(ProcessHeaderHit { rect: Rect::new(x, inner.y, 6, 1), key: ProcessSortKey::Threads });
    assert(hits@ =~= header_hits_spec(inner, table_width, wide));
    hits
}

/// The table as drawn inside the pane.
pub struct ProcessTable {
    pub table_width: u16,
    /// Wide layout (with the command column).
    pub wide: bool,
    /// Where the rows go (below the header line).
    pub body: Rect,
    /// Visible rows: the pinned process, the pinned group's rows, then the
    /// scrolled window of the other rows.
    pub rows: Vec<ProcessDisplayRow>,
    pub has_scrollbar: bool,
    /// Where the scrollbar goes, when there is one.
    pub scrollbar: Rect,
}

/// What drawing the process pane needs.
pub struct ProcessLayout {
    pub title: String,
    /// The pane inside its border.
    pub inner: Rect,
    /// `None` when the pane is too small for a table.
    pub table: Option<ProcessTable>,
}

/// Inside of a bordered block.
pub open spec fn inner_spec(area: Rect) -> Rect {
    Rect {
        x: sat16(area.x + 1),
        y: sat16(area.y + 1),
        width: sat16(area.width - 2),
        height: sat16(area.height - 2),
    }
}

pub open spec fn arrow_spec(desc: bool) -> Seq<char> {
    if desc {
        "↓"@
    } else {
        "↑"@
    }
}

/// The pane title: sort column, pinned process or group, visible range of
/// the rows and the process count.
pub open spec fn title_spec(
    key: ProcessSortKey,
    desc: bool,
    process_total: nat,
    pinned_pid: Option<u32>,
    pinned_group: Option<Seq<char>>,
    start: nat,
    end: nat,
    scroll_visible: nat,
    row_total: nat,
) -> Seq<char> {
    let sort = " · SORT "@ + sort_name_spec(key) + " "@ + arrow_spec(desc);
    let range = if scroll_visible == 0 || row_total == 0 {
        "0"@
    } else {
        dec_repr(start + 1) + "–"@ + dec_repr(end)
    };
    let counts = " · "@ + range + "/"@ + dec_repr(row_total) + " · "@ + dec_repr(process_total)
        + " PROC "@;
    if process_total == 0 {
        " PROCESSES"@ + sort + " · 0 "@
    } else {
        match pinned_pid {
            Some(pid) => " PROCESSES · PIN "@ + dec_repr(pid as nat) + sort + counts,
            None => match pinned_group {
                Some(p) => " PROCESSES · PIN GROUP "@ + p + sort + counts,
                None => " PROCESSES"@ + sort + counts,
            },
        }
    }
}

fn title_exec(
    key: ProcessSortKey,
    desc: bool,
    process_total: usize,
    pinned_pid: Option<u32>,
    pinned_group: &Option<String>,
    start: usize,
    end: usize,
    scroll_visible: usize,
    row_total: usize,
) -> (r: String)
    requires
        scroll_visible == 0 || row_total == 0 || start < row_total,
    ensures
        r@ == title_spec(
            key,
            desc,
            process_total as nat,
            pinned_pid,
            sview(*pinned_group),
            start as nat,
            end as nat,
            scroll_visible as nat,
            row_total as nat,
        ),
{
    let mut sort = chars_of(" · SORT ");
    append_str(&mut sort, process_sort_name(key));
    append_str(&mut sort, " ");
    let arrow = if desc {
        "↓"
    } else {
        "↑"
    };
    append_str(&mut sort, arrow);
    let mut out = chars_of(" PROCESSES");
    if process_total == 0 {
        crate::text::append_chars(&mut out, sort.as_slice());
        append_str(&mut out, " · 0 ");
        return string_of(out.as_slice());
    }
    let mut range: Vec<char>;
    if scroll_visible == 0 || row_total == 0 {
        range = chars_of("0");
    } else {
        range = Vec::new();
        push_dec(&mut range, (start + 1) as u64);
        append_str(&mut range, "–");
        push_dec(&mut range, end as u64);
        assert(range@ =~= dec_repr((start + 1) as nat) + "–"@ + dec_repr(end as nat));
    }
    let mut counts = chars_of(" · ");
    crate::text::append_chars(&mut counts, range.as_slice());
    append_str(&mut counts, "/");
    push_dec(&mut counts, row_total as u64);
    append_str(&mut counts, " · ");
    push_dec(&mut counts, process_total as u64);
    append_str(&mut counts, " PROC ");
    match pinned_pid {
        Some(pid) => {
            out = chars_of(" PROCESSES · PIN ");
            push_dec(&mut out, pid as u64);
        },
        None => match pinned_group {
            Some(p) => {
                out = chars_of(" PROCESSES · PIN GROUP ");
                append_str(&mut out, p.as_str());
            },
            None => {},
        },
    }
    crate::text::append_chars(&mut out, sort.as_slice());
    crate::text::append_chars(&mut out, counts.as_slice());
    string_of(out.as_slice())
}


pub struct TableModel {
    pub table_width: u16,
    pub wide: bool,
    pub body: Rect,
    pub rows: Seq<RowModel>,
    pub has_scrollbar: bool,
    pub scrollbar: Rect,
}

pub struct LayoutModel {
    pub title: Seq<char>,
    pub inner: Rect,
    pub table: Option<TableModel>,
}

pub open spec fn table_view(t: ProcessTable) -> TableModel {
    TableModel {
        table_width: t.table_width,
        wide: t.wide,
        body: t.body,
        rows: rows_view(t.rows@),
        has_scrollbar: t.has_scrollbar,
        scrollbar: t.scrollbar,
    }
}

pub open spec fn layout_view(l: ProcessLayout) -> LayoutModel {
    LayoutModel {
        title: l.title@,
        inner: l.inner,
        table: match l.table {
            Some(t) => Some(table_view(t)),
            None => None,
        },
    }
}

pub open spec fn min_int(a: int, b: int) -> int {
    if a <= b {
        a
    } else {
        b
    }
}

pub open spec fn sub0(a: int, b: int) -> int {
    if a > b {
        a - b
    } else {
        0
    }
}

/// How drawing the process pane into `area` lays it out, and the state it
/// leaves: pins whose process or group is gone are released, the scroll is
/// clamped to the rows that fit, and the mouse targets are recorded.
pub open spec fn layout_spec(m: UiModel, area: Rect, ps: Seq<ProcessStats>) -> (UiModel, LayoutModel) {
    let g = grouped_rows_spec(ps, m.sort_key, m.sort_desc, m.pinned_pid, m.expanded);
    let pinned_pid = if m.pinned_pid is Some && g.0 is None {
        None
    } else {
        m.pinned_pid
    };
    let t = take_pinned_spec(ps, g.1, m.pinned_group);
    let pinned_group = if m.pinned_group is Some && t.1.len() == 0 {
        None
    } else {
        m.pinned_group
    };
    let rows = t.0;
    let visible = sub0(area.height as int, 3);
    let pinned_rows = min_int(
        (if g.0 is Some && visible > 0 {
            1int
        } else {
            0int
        }) + t.1.len(),
        usize::MAX as int,
    );
    let scroll_visible = sub0(visible, pinned_rows);
    let max_start = sub0(rows.len() as int, scroll_visible);
    let start = min_int(m.scroll as int, max_start);
    let end = min_int(min_int(start + scroll_visible, usize::MAX as int), rows.len() as int);
    let title = title_spec(
        m.sort_key,
        m.sort_desc,
        ps.len(),
        match g.0 {
            Some(i) => Some(ps[i as int].pid),
            None => None,
        },
        pinned_group,
        start as nat,
        end as nat,
        scroll_visible as nat,
        rows.len(),
    );
    let inner = inner_spec(area);
    let base = UiModel {
        pane: Some(area),
        pinned_pid,
        pinned_group,
        display_total: rows.len() as usize,
        scroll: start as usize,
        ..m
    };
    if inner.width < 30 || inner.height < 2 {
        (base, LayoutModel { title, inner, table: None })
    } else {
        let tm = table_spec(ps, inner, g.0, t.1, rows, start, end, pinned_rows, scroll_visible);
        (
            UiModel {
                header_hits: header_hits_spec(inner, tm.table_width, tm.wide),
                rows_hit: Some((tm.body, row_targets(ps, tm.rows))),
                ..base
            },
            LayoutModel { title, inner, table: Some(tm) },
        )
    }
}

/// The table inside `inner`: a scrollbar column when the rows overflow,
/// the header line, then the visible rows.
pub open spec fn table_spec(
    ps: Seq<ProcessStats>,
    inner: Rect,
    pinned: Option<usize>,
    pinned_group_rows: Seq<RowModel>,
    rows: Seq<RowModel>,
    start: int,
    end: int,
    pinned_rows: int,
    scroll_visible: int,
) -> TableModel {
    let has_scrollbar = rows.len() > scroll_visible && scroll_visible > 0;
    let table_width = sat16(inner.width - (if has_scrollbar {
        1int
    } else {
        0int
    }));
    let wide = table_width >= 96;
    let body = Rect {
        x: inner.x,
        y: sat16(inner.y + 1),
        width: table_width,
        height: sat16(inner.height - 1),
    };
    let shown = (match pinned {
        Some(i) => seq![RowModel::Process { index: i, child: false }],
        None => seq![],
    }) + pinned_group_rows + rows.subrange(start, end);
    let pr = sat16(pinned_rows);
    let scrollbar = Rect {
        x: sat16(inner.x + sat16(inner.width - 1)),
        y: sat16(body.y + pr),
        width: 1,
        height: sat16(body.height - pr),
    };
    TableModel { table_width, wide, body, rows: shown, has_scrollbar, scrollbar }
}

fn build_table(
    processes: &[ProcessStats],
    inner: Rect,
    pinned: Option<usize>,
    pinned_group_rows: &Vec<ProcessDisplayRow>,
    rows: &Vec<ProcessDisplayRow>,
    start: usize,
    end: usize,
    pinned_rows: usize,
    scroll_visible: usize,
) -> (r: (ProcessTable, Vec<ProcessHeaderHit>, ProcessRowsHit))
    requires
        start <= end <= rows@.len(),
        match pinned {
            Some(i) => i < processes@.len(),
            None => true,
        },
        rows_in_range(rows_view(rows@), processes@.len()),
        rows_in_range(rows_view(pinned_group_rows@), processes@.len()),
    ensures
        ({
            let tm = table_spec(
                processes@,
                inner,
                pinned,
                rows_view(pinned_group_rows@),
                rows_view(rows@),
                start as int,
                end as int,
                pinned_rows as int,
                scroll_visible as int,
            );
            &&& table_view(r.0) == tm
            &&& r.1@ == header_hits_spec(inner, tm.table_width, tm.wide)
            &&& r.2.rect == tm.body
            &&& targets_view(r.2.targets@) == row_targets(processes@, tm.rows)
        }),
{
    let has_scrollbar = rows.len() > scroll_visible && scroll_visible > 0;
    let bar: u16 = if has_scrollbar {
        1
    } else {
        0
    };
    let table_width = inner.width.saturating_sub(bar);
    let wide = table_width >= 96;
    let hits = process_header_hits(inner, table_width, wide);
    let body = Rect::new(inner.x, inner.y.saturating_add(1), table_width, inner.height.saturating_sub(1));
    let mut shown: Vec<ProcessDisplayRow> = Vec::new();
    if let Some(i) = pinned {
        shown.push(ProcessDisplayRow::Process { index: i, child: false });
    }
    let ghost head = rows_view(shown@);
    assert(head =~= (match pinned {
        Some(i) => seq![RowModel::Process { index: i, child: false }],
        None => seq![],
    }));
    let len_pg = pinned_group_rows.len();
    copy_rows(pinned_group_rows, 0, len_pg, &mut shown);
    assert(rows_view(pinned_group_rows@).subrange(0, len_pg as int) =~= rows_view(pinned_group_rows@));
    copy_rows(rows, start, end, &mut shown);
    assert(rows_view(shown@) == head + rows_view(pinned_group_rows@) + rows_view(rows@).subrange(start as int, end as int));
    proof {
        let n = processes@.len();
        assert(rows_in_range(head, n)) by {
            assert forall|j: int| 0 <= j < head.len() implies match #[trigger] head[j] {
                RowModel::Process { index, .. } => index < n,
                RowModel::Group { .. } => true,
            } by {}
        }
        lemma_rows_in_range_concat(head, rows_view(pinned_group_rows@), n);
        lemma_rows_in_range_sub(rows_view(rows@), n, start as int, end as int);
        lemma_rows_in_range_concat(
            head + rows_view(pinned_group_rows@),
            rows_view(rows@).subrange(start as int, end as int),
            n,
        );
    }
    let mut targets: Vec<ProcessRowTarget> = Vec::new();
    push_row_targets(processes, &shown, &mut targets);
    assert(targets_view(targets@) =~= row_targets(processes@, rows_view(shown@)));
    let pr: u16 = if pinned_rows > 65535 {
        65535
    } else {
        pinned_rows as u16
    };
    let scrollbar = Rect::new(
        inner.x.saturating_add(inner.width.saturating_sub(1)),
        body.y.saturating_add(pr),
        1,
        body.height.saturating_sub(pr),
    );
    (
        ProcessTable { table_width, wide, body, rows: shown, has_scrollbar, scrollbar },
        hits,
        ProcessRowsHit { rect: body, targets },
    )
}

fn copy_rows(rows: &Vec<ProcessDisplayRow>, start: usize, end: usize, out: &mut Vec<ProcessDisplayRow>)
    requires
        start <= end <= rows@.len(),
    ensures
        rows_view(final(out)@) == rows_view(old(out)@) + rows_view(rows@).subrange(start as int, end as int),
{
    let ghost base = rows_view(out@);
    let ghost rv = rows_view(rows@);
    let mut i = start;
    while i < end
        invariant
            start <= i <= end <= rows@.len(),
            rv == rows_view(rows@),
            rows_view(out@) == base + rv.subrange(start as int, i as int),
        decreases end - i,
    {
        let r = match &rows[i] {
            ProcessDisplayRow::Process { index, child } => ProcessDisplayRow::Process { index: *index, child: *child },
            ProcessDisplayRow::Group { program, count, cpu_millipct, memory_bytes, threads, expanded } =>
                ProcessDisplayRow::Group {
                program: program.clone(),
                count: *count,
                cpu_millipct: *cpu_millipct,
                memory_bytes: *memory_bytes,
                threads: *threads,
                expanded: *expanded,
            },
        };
        assert(row_view(r) == rv[i as int]);
        let ghost pre = rows_view(out@);
        out.push(r);
        assert(rows_view(out@) =~= pre.push(rv[i as int]));
        assert(rv.subrange(start as int, i + 1) =~= rv.subrange(start as int, i as int).push(rv[i as int]));
        i = i + 1;
    }
}

impl UiState {
    /// Records the pane, resolves the pinned process and group (releasing
    /// pins whose rows are gone) and counts the scrolling rows.
    fn plan_rows(&mut self, area: Rect, processes: &[ProcessStats]) -> (r: (
        Option<usize>,
        Vec<ProcessDisplayRow>,
        Vec<ProcessDisplayRow>,
    ))
        ensures
            ({
                let m = old(self)@;
                let g = grouped_rows_spec(processes@, m.sort_key, m.sort_desc, m.pinned_pid, m.expanded);
                let t = take_pinned_spec(processes@, g.1, m.pinned_group);
                &&& r.0 == g.0
                &&& rows_view(r.1@) == t.0
                &&& rows_view(r.2@) == t.1
                &&& rows_in_range(t.0, processes@.len())
                &&& rows_in_range(t.1, processes@.len())
                &&& match g.0 {
                    Some(i) => i < processes@.len(),
                    None => true,
                }
                &&& final(self)@ == (UiModel {
                    pane: Some(area),
                    pinned_pid: if m.pinned_pid is Some && g.0 is None {
                        None
                    } else {
                        m.pinned_pid
                    },
                    pinned_group: if m.pinned_group is Some && t.1.len() == 0 {
                        None
                    } else {
                        m.pinned_group
                    },
                    display_total: t.0.len() as usize,
                    ..m
                })
            }),
    {
        self.process_pane = Some(area);
        let (pinned, mut rows) = grouped_process_rows(
            processes,
            self.process_sort_key,
            self.process_sort_desc,
            self.process_pinned_pid,
            self.expanded_process_groups.as_slice(),
        );
        if self.process_pinned_pid.is_some() && pinned.is_none() {
            self.process_pinned_pid = None;
        }
        let pinned_group_rows = match &self.process_pinned_group {
            Some(g) => take_pinned_group_rows(&mut rows, processes, Some(g.as_str())),
            None => take_pinned_group_rows(&mut rows, processes, None),
        };
        if self.process_pinned_group.is_some() && pinned_group_rows.len() == 0 {
            self.process_pinned_group = None;
        }
        self.process_display_total = rows.len();
        (pinned, rows, pinned_group_rows)
    }

    /// Lay out the process pane drawn into `area` (see [`layout_spec`]).
    #[verifier::rlimit(100)]
    #[verifier::spinoff_prover]
    pub fn layout_processes(&mut self, area: Rect, processes: &[ProcessStats]) -> (r: ProcessLayout)
        ensures
            (final(self)@, layout_view(r)) == layout_spec(old(self)@, area, processes@),
    {
        let (pinned, rows, pinned_group_rows) = self.plan_rows(area, processes);
        let visible = area.height.saturating_sub(3) as usize;
        let pin_one: usize = if pinned.is_some() && visible > 0 {
            1
        } else {
            0
        };
        let pinned_rows = pin_one.saturating_add(pinned_group_rows.len());
        let scroll_visible = visible.saturating_sub(pinned_rows);
        let max_start = rows.len().saturating_sub(scroll_visible);
        let start = if self.process_scroll < max_start {
            self.process_scroll
        } else {
            max_start
        };
        self.process_scroll = start;
        let end_raw = start.saturating_add(scroll_visible);
        let end = if end_raw < rows.len() {
            end_raw
        } else {
            rows.len()
        };
        let pinned_pid_for_title = match pinned {
            Some(i) => Some(processes[i].pid),
            None => None,
        };
        let title = title_exec(
            self.process_sort_key,
            self.process_sort_desc,
            processes.len(),
            pinned_pid_for_title,
            &self.process_pinned_group,
            start,
            end,
            scroll_visible,
            rows.len(),
        );
        let inner = Rect::new(
            area.x.saturating_add(1),
            area.y.saturating_add(1),
            area.width.saturating_sub(2),
            area.height.saturating_sub(2),
        );
        if inner.width < 30 || inner.height < 2 {
            return ProcessLayout { title, inner, table: None };
        }
        let (table, hits, rows_hit) = build_table(
            processes,
            inner,
            pinned,
            &pinned_group_rows,
            &rows,
            start,
            end,
            pinned_rows,
            scroll_visible,
        );
        self.process_header_hits = hits;
        self.process_rows = Some(rows_hit);
        ProcessLayout { title, inner, table: Some(table) }
    }
}


/// `a / b` rounded to the nearest whole number, halves rounded up.
pub open spec fn round_div(a: nat, b: nat) -> nat {
    (2 * a + b) / (2 * b)
}

/// The scrollbar thumb on a track of `track` rows, for the window of
/// `visible` rows starting at row `start` of `total`: its first row and
/// its length. The thumb's length is the visible share of the track (at
/// least one row, at most the track) and its position the scrolled share
/// of what is left of the track. `None` when nothing is to be drawn: an
/// empty track or window, or every row in view.
pub open spec fn thumb_spec(track: nat, start: nat, visible: nat, total: nat) -> Option<(nat, nat)> {
    if track == 0 || visible == 0 || total <= visible {
        None
    } else {
        let raw = round_div(visible * track, total);
        let len = if raw < 1 {
            1
        } else if raw > track {
            track
        } else {
            raw
        };
        let max_start: nat = if total - visible > 1 {
            (total - visible) as nat
        } else {
            1
        };
        Some((round_div(start * (track - len) as nat, max_start), len))
    }
}

/// Rows of the process scrollbar's thumb (see [`thumb_spec`]); a first
/// row beyond `usize::MAX` is held at `usize::MAX`.
pub fn scrollbar_thumb(track: u16, start: usize, visible: usize, total: usize) -> (r: Option<(usize, usize)>)
    ensures
        match thumb_spec(track as nat, start as nat, visible as nat, total as nat) {
            None => r is None,
            Some(t) => r == Some(
                (
                    if t.0 > usize::MAX {
                        usize::MAX
                    } else {
                        t.0 as usize
                    },
                    t.1 as usize,
                ),
            ),
        },
{
    if track == 0 || visible == 0 || total <= visible {
        return None;
    }
    let tr = track as u128;
    let v = visible as u128;
    let t = total as u128;
    let s = start as u128;
    assert(v * tr <= 0x1_0000_0000_0000_0000 * 0x1_0000) by (nonlinear_arith)
        requires
            v < 0x1_0000_0000_0000_0000,
            tr < 0x1_0000,
    ;
    let area = v * tr;
    let raw = (2 * area + t) / (2 * t);
    assert(raw == round_div(visible as nat * track as nat, total as nat));
    let len: u128 = if raw < 1 {
        1
    } else if raw > tr {
        tr
    } else {
        raw
    };
    let max_start: u128 = if t - v > 1 {
        t - v
    } else {
        1
    };
    let span = tr - len;
    assert(s * span <= 0x1_0000_0000_0000_0000 * 0x1_0000) by (nonlinear_arith)
        requires
            s < 0x1_0000_0000_0000_0000,
            span < 0x1_0000,
    ;
    let scrolled = s * span;
    let top = (2 * scrolled + max_start) / (2 * max_start);
    assert(top == round_div(start as nat * span as nat, max_start as nat));
    let first = if top > usize::MAX as u128 {
        usize::MAX
    } else {
        top as usize
    };
    Some((first, len as usize))
}

// ---------------------------------------------------------------------------
// Refresh buttons
// ---------------------------------------------------------------------------

/// Width of the refresh-rate control in the header.
pub const REFRESH_CONTROL_WIDTH: u16 = 22;

/// The `-` and `+` buttons of the refresh-rate control.
#[derive(Clone, Copy, Debug, PartialEq, Eq)]
pub struct RefreshControls {
    pub minus: Rect,
    pub plus: Rect,
}

/// Where the refresh buttons sit in the header `area`: right-aligned on
/// its second line; `None` when the header is too small for them.
pub fn refresh_controls(area: Rect) -> (r: Option<RefreshControls>)
    requires
        area.height >= 3 && area.width >= REFRESH_CONTROL_WIDTH + 6 ==> area.x + area.width - 1
            <= u16::MAX && area.y + 1 <= u16::MAX,
    ensures
        match r {
            None => area.height < 3 || area.width < REFRESH_CONTROL_WIDTH + 6,
            Some(c) => {
                &&& area.height >= 3 && area.width >= REFRESH_CONTROL_WIDTH + 6
                &&& c.minus == (Rect {
                    x: (area.x + area.width - 1 - REFRESH_CONTROL_WIDTH + 1) as u16,
                    y: (area.y + 1) as u16,
                    width: 5,
                    height: 1,
                })
                &&& c.plus == (Rect {
                    x: (area.x + area.width - 1 - REFRESH_CONTROL_WIDTH + 17) as u16,
                    y: (area.y + 1) as u16,
                    width: 5,
                    height: 1,
                })
            },
        },
{
    if area.height < 3 || area.width < REFRESH_CONTROL_WIDTH + 6 {
        return None;
    }
    let inner_right = area.x + area.width.saturating_sub(1);
    let start_x = inner_right.saturating_sub(REFRESH_CONTROL_WIDTH);
    let y = area.y + 1;
    Some(
        RefreshControls {
            minus: Rect::new(start_x + 1, y, 5, 1),
            plus: Rect::new(start_x + 17, y, 5, 1),
        },
    )
}

} // verus!
