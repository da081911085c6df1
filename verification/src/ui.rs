//! Text and layout rules of the dashboard: compact labels, fitted cells,
//! braille plot cells and the resampling of the utilization history onto
//! plot columns. Drawing itself lives with the terminal front end.

use vstd::prelude::*;

use crate::text::{
    append_chars, append_str, chars_of, contains, contains_str, contains_vec, dec_repr, ends_with,
    ends_with_str, join_tokens, join_with, occurs_at, occurs_at_exec, push_dec, slice_vec,
    starts_with, starts_with_str, string_of, to_lower, to_lower_vec, tokens, tokens_of, trim,
    trim_start, trim_str, vecs_view,
};
use crate::cpu::{count_kind, has_kind, CpuCoreKind, CpuPhysicalCore, CpuTopology, CpuVendor};

pub use crate::ui_state::{
    rect_contains, refresh_controls, ProcessStats, RefreshControls, TimedSample, UiState,
};

verus! {

// ---------------------------------------------------------------------------
// Endpoints and labels
// ---------------------------------------------------------------------------

/// `s` with every leading copy of `p` removed (`str::trim_start_matches`).
pub open spec fn strip_prefixes(s: Seq<char>, p: Seq<char>) -> Seq<char>
    decreases s.len(),
{
    if p.len() > 0 && starts_with(s, p) {
        strip_prefixes(s.skip(p.len() as int), p)
    } else {
        s
    }
}

/// `s` with every trailing `c` removed.
pub open spec fn strip_trailing(s: Seq<char>, c: char) -> Seq<char>
    decreases s.len(),
{
    if s.len() > 0 && s.last() == c {
        strip_trailing(s.drop_last(), c)
    } else {
        s
    }
}

/// The endpoint without its scheme and trailing slashes.
pub open spec fn compact_endpoint_spec(server: Seq<char>) -> Seq<char> {
    strip_trailing(strip_prefixes(strip_prefixes(server, "http://"@), "https://"@), '/')
}

fn strip_prefixes_exec(v: Vec<char>, p: &str) -> (r: Vec<char>)
    ensures
        r@ == strip_prefixes(v@, p@),
{
    let pv = chars_of(p);
    let mut cur = v;
    if pv.len() == 0 {
        return cur;
    }
    while starts_with_str(cur.as_slice(), p)
        invariant
            pv@ == p@,
            pv@.len() > 0,
            strip_prefixes(v@, p@) == strip_prefixes(cur@, p@),
        decreases cur@.len(),
    {
        let n = cur.len();
        let rest = slice_vec(&cur, pv.len(), n);
        assert(rest@ =~= cur@.skip(p@.len() as int));
        cur = rest;
    }
    cur
}

/// The server endpoint as shown in the header (`127.0.0.1:8081`).
pub fn compact_endpoint(server: &str) -> (r: String)
    ensures
        r@ == compact_endpoint_spec(server@),
{
    let a = strip_prefixes_exec(chars_of(server), "http://");
    let mut b = strip_prefixes_exec(a, "https://");
    let ghost start = b@;
    while b.len() > 0 && b[b.len() - 1] == '/'
        invariant
            strip_trailing(start, '/') == strip_trailing(b@, '/'),
        decreases b@.len(),
    {
        b.pop();
    }
    string_of(b.as_slice())
}

/// Columns of a GPU meter bar for a terminal `width`.
pub fn gpu_bar_width(width: u16) -> (r: usize)
    ensures
        r == (if width <= 89 {
            14usize
        } else if width <= 119 {
            22usize
        } else {
            30usize
        }),
{
    if width <= 89 {
        14
    } else if width <= 119 {
        22
    } else {
        30
    }
}

/// Column of the process table a sort applies to.
#[derive(Copy, Clone, Debug, PartialEq, Eq, Structural)]
pub enum ProcessSortKey {
    Pid,
    Program,
    Cpu,
    Memory,
    Threads,
}

pub open spec fn sort_name_spec(key: ProcessSortKey) -> Seq<char> {
    match key {
        ProcessSortKey::Pid => "PID"@,
        ProcessSortKey::Program => "PROGRAM"@,
        ProcessSortKey::Cpu => "CPU"@,
        ProcessSortKey::Memory => "MEM"@,
        ProcessSortKey::Threads => "THR"@,
    }
}

/// Header label of a sort column.
pub fn process_sort_name(key: ProcessSortKey) -> (r: &'static str)
    ensures
        r@ == sort_name_spec(key),
{
    match key {
        ProcessSortKey::Pid => "PID",
        ProcessSortKey::Program => "PROGRAM",
        ProcessSortKey::Cpu => "CPU",
        ProcessSortKey::Memory => "MEM",
        ProcessSortKey::Threads => "THR",
    }
}

/// A process that belongs to the LLM stack (llama.cpp or this monitor).
pub open spec fn is_llm_process_spec(program: Seq<char>, command: Seq<char>) -> bool {
    let p = to_lower(program);
    let c = to_lower(command);
    contains(p, "llama"@) || contains(p, "orsiktop"@) || contains(c, "llama"@) || contains(
        c,
        "orsiktop"@,
    )
}

pub fn is_llm_process(program: &str, command: &str) -> (r: bool)
    ensures
        r == is_llm_process_spec(program@, command@),
{
    let p = to_lower_vec(chars_of(program).as_slice());
    let c = to_lower_vec(chars_of(command).as_slice());
    contains_str(p.as_slice(), "llama") || contains_str(p.as_slice(), "orsiktop") || contains_str(
        c.as_slice(),
        "llama",
    ) || contains_str(c.as_slice(), "orsiktop")
}

/// The footer text for an LLM polling error.
pub open spec fn friendly_llm_error_spec(error: Seq<char>) -> Seq<char> {
    let lower = to_lower(error);
    if contains(lower, "501"@) || contains(lower, "--metrics"@) || contains(lower, "metrics endpoint"@) {
        "LLAMA METRICS OFF · restart server with --metrics"@
    } else if contains(lower, "cannot reach"@) || contains(lower, "connection"@) {
        "LLAMA SERVER OFFLINE"@
    } else {
        "LLAMA · "@ + error
    }
}

pub fn friendly_llm_error(error: &str) -> (r: String)
    ensures
        r@ == friendly_llm_error_spec(error@),
{
    let lower = to_lower_vec(chars_of(error).as_slice());
    let l = lower.as_slice();
    if contains_str(l, "501") || contains_str(l, "--metrics") || contains_str(l, "metrics endpoint") {
        "LLAMA METRICS OFF · restart server with --metrics".to_string()
    } else if contains_str(l, "cannot reach") || contains_str(l, "connection") {
        "LLAMA SERVER OFFLINE".to_string()
    } else {
        let mut out = chars_of("LLAMA · ");
        append_str(&mut out, error);
        string_of(out.as_slice())
    }
}

/// The process table highlights a process whose program name or command
/// line mentions `llama` or `orsiktop`, in any case.
pub proof fn law_llm_process_by_name(program: Seq<char>, command: Seq<char>)
    ensures
        is_llm_process_spec(program, command) == (contains(to_lower(program), "llama"@) || contains(
            to_lower(program),
            "orsiktop"@,
        ) || contains(to_lower(command), "llama"@) || contains(to_lower(command), "orsiktop"@)),
{
}

/// The footer names a server without metrics when the error mentions `501`,
/// `--metrics` or `metrics endpoint`; else an offline server when it
/// mentions `cannot reach` or `connection` (any case); else it shows the
/// error itself after `LLAMA · `.
pub proof fn law_llm_error_footer(error: Seq<char>)
    ensures
        contains(to_lower(error), "501"@) || contains(to_lower(error), "--metrics"@) || contains(
            to_lower(error),
            "metrics endpoint"@,
        ) ==> friendly_llm_error_spec(error) == "LLAMA METRICS OFF · restart server with --metrics"@,
        !(contains(to_lower(error), "501"@) || contains(to_lower(error), "--metrics"@) || contains(
            to_lower(error),
            "metrics endpoint"@,
        )) && (contains(to_lower(error), "cannot reach"@) || contains(to_lower(error), "connection"@))
            ==> friendly_llm_error_spec(error) == "LLAMA SERVER OFFLINE"@,
        !(contains(to_lower(error), "501"@) || contains(to_lower(error), "--metrics"@) || contains(
            to_lower(error),
            "metrics endpoint"@,
        ) || contains(to_lower(error), "cannot reach"@) || contains(to_lower(error), "connection"@))
            ==> friendly_llm_error_spec(error) == "LLAMA · "@ + error,
{
}

// ---------------------------------------------------------------------------
// Fitting text
// ---------------------------------------------------------------------------

/// At most `width` characters; a cut text ends with `…`.
pub open spec fn fit_cell_spec(text: Seq<char>, width: nat) -> Seq<char> {
    if width == 0 {
        seq![]
    } else if text.len() <= width {
        text
    } else if width == 1 {
        seq!['…']
    } else {
        text.take(width - 1).push('…')
    }
}

pub fn fit_cell(text: &str, width: usize) -> (r: String)
    ensures
        r@ == fit_cell_spec(text@, width as nat),
{
    let v = chars_of(text);
    if width == 0 {
        return String::new();
    }
    if v.len() <= width {
        return string_of(v.as_slice());
    }
    if width == 1 {
        let mut o: Vec<char> = Vec::new();
        o.push('…');
        assert(o@ =~= seq!['…']);
        return string_of(o.as_slice());
    }
    let mut out = slice_vec(&v, 0, width - 1);
    out.push('…');
    assert(out@ =~= v@.take(width - 1).push('…'));
    string_of(out.as_slice())
}

/// A title cut to `max_len` characters, ending with `…` when cut.
pub open spec fn truncate_title_spec(title: Seq<char>, max_len: nat) -> Seq<char> {
    if title.len() <= max_len {
        title
    } else {
        title.take(if max_len >= 1 {
            max_len - 1
        } else {
            0
        }).push('…')
    }
}

pub fn truncate_title(title: &str, max_len: usize) -> (r: String)
    ensures
        r@ == truncate_title_spec(title@, max_len as nat),
{
    let v = chars_of(title);
    if v.len() <= max_len {
        return string_of(v.as_slice());
    }
    let keep = if max_len >= 1 {
        max_len - 1
    } else {
        0
    };
    let mut out = slice_vec(&v, 0, keep);
    out.push('…');
    assert(out@ =~= v@.take(keep as int).push('…'));
    string_of(out.as_slice())
}

/// A fitted cell is never wider than `width`: text that fits is kept as it
/// is, and longer text keeps its first `width - 1` characters followed by
/// `…` (just `…` in a one-character cell, nothing in an empty one).
pub proof fn law_fit_cell_width(text: Seq<char>, width: nat)
    ensures
        fit_cell_spec(text, width).len() == if text.len() <= width {
            text.len()
        } else {
            width
        },
        text.len() <= width ==> fit_cell_spec(text, width) == text,
        text.len() > width && width > 0 ==> fit_cell_spec(text, width).last() == '…' && forall|i: int|
            0 <= i < width - 1 ==> #[trigger] fit_cell_spec(text, width)[i] == text[i],
{
}

/// A cut title is exactly `max_len` characters (one, `…`, when `max_len` is
/// 0): its first `max_len - 1` characters followed by `…`. A title that
/// fits is kept as it is.
pub proof fn law_truncated_title(title: Seq<char>, max_len: nat)
    ensures
        title.len() <= max_len ==> truncate_title_spec(title, max_len) == title,
        title.len() > max_len ==> truncate_title_spec(title, max_len).len() == if max_len >= 1 {
            max_len
        } else {
            1
        } && truncate_title_spec(title, max_len).last() == '…' && forall|i: int|
            0 <= i < max_len - 1 ==> #[trigger] truncate_title_spec(title, max_len)[i] == title[i],
{
}

/// Separator before digit `i` of an `n`-digit number: a comma every three
/// digits from the right.
pub open spec fn group_sep(n: nat, i: nat) -> Seq<char> {
    if i > 0 && (n - i) % 3 == 0 {
        seq![',']
    } else {
        seq![]
    }
}

/// The first `k` digits of `raw` with thousands separators.
pub open spec fn grouped_prefix(raw: Seq<char>, k: nat) -> Seq<char>
    decreases k,
{
    if k == 0 {
        seq![]
    } else {
        grouped_prefix(raw, (k - 1) as nat) + group_sep(raw.len(), (k - 1) as nat) + seq![raw[k - 1]]
    }
}

/// Decimal digits of `value` with a comma between thousands.
pub open spec fn grouped_spec(value: u64) -> Seq<char> {
    grouped_prefix(dec_repr(value as nat), dec_repr(value as nat).len())
}

/// `s` with its commas taken out.
pub open spec fn without_commas(s: Seq<char>) -> Seq<char>
    decreases s.len(),
{
    if s.len() == 0 {
        seq![]
    } else if s.last() == ',' {
        without_commas(s.drop_last())
    } else {
        without_commas(s.drop_last()).push(s.last())
    }
}

proof fn lemma_without_commas_concat(a: Seq<char>, b: Seq<char>)
    ensures
        without_commas(a + b) == without_commas(a) + without_commas(b),
    decreases b.len(),
{
    if b.len() == 0 {
        assert(a + b =~= a);
        assert(without_commas(a) + without_commas(b) =~= without_commas(a));
    } else {
        lemma_without_commas_concat(a, b.drop_last());
        assert((a + b).drop_last() =~= a + b.drop_last());
        assert((a + b).last() == b.last());
        if b.last() == ',' {
        } else {
            assert(without_commas(a) + without_commas(b.drop_last()).push(b.last()) =~= (without_commas(a)
                + without_commas(b.drop_last())).push(b.last()));
        }
    }
}

proof fn lemma_grouped_prefix_digits(raw: Seq<char>, k: nat)
    requires
        k <= raw.len(),
        forall|i: int| 0 <= i < raw.len() ==> #[trigger] raw[i] != ',',
    ensures
        without_commas(grouped_prefix(raw, k)) == raw.take(k as int),
    decreases k,
{
    if k > 0 {
        let km = (k - 1) as nat;
        lemma_grouped_prefix_digits(raw, km);
        let a = grouped_prefix(raw, km);
        let sep = group_sep(raw.len(), km);
        let d = seq![raw[k - 1]];
        lemma_without_commas_concat(a + sep, d);
        lemma_without_commas_concat(a, sep);
        let e = Seq::<char>::empty();
        assert(without_commas(e) == e);
        assert(without_commas(sep) =~= seq![]) by {
            if sep.len() > 0 {
                assert(sep =~= seq![',']);
                assert(sep.drop_last() =~= e);
                assert(sep.last() == ',');
            } else {
                assert(sep =~= e);
            }
        }
        assert(d.drop_last() =~= e);
        assert(d.last() == raw[k - 1]);
        assert(raw[k - 1] != ',');
        assert(without_commas(d) == without_commas(d.drop_last()).push(d.last()));
        assert(without_commas(d) =~= d);
        assert(raw.take(km as int).push(raw[k - 1]) =~= raw.take(k as int));
        assert(without_commas(a) + seq![] =~= without_commas(a));
    }
}

/// Thousands grouping only adds commas: taking them out again gives the
/// plain decimal digits of the value.
pub proof fn law_grouping_only_adds_commas(value: u64)
    ensures
        without_commas(grouped_spec(value)) == dec_repr(value as nat),
{
    let raw = dec_repr(value as nat);
    crate::text::lemma_dec_repr_digits(value as nat);
    assert forall|i: int| 0 <= i < raw.len() implies #[trigger] raw[i] != ',' by {
        assert(crate::text::is_digit(raw[i]));
    }
    lemma_grouped_prefix_digits(raw, raw.len());
    assert(raw.take(raw.len() as int) =~= raw);
}

pub fn grouped_u64(value: u64) -> (r: String)
    ensures
        r@ == grouped_spec(value),
{
    let mut raw: Vec<char> = Vec::new();
    push_dec(&mut raw, value);
    assert(raw@ =~= dec_repr(value as nat));
    let n = raw.len();
    let mut out: Vec<char> = Vec::new();
    for i in 0..n
        invariant
            n == raw@.len(),
            raw@ == dec_repr(value as nat),
            out@ == grouped_prefix(raw@, i as nat),
    {
        if i > 0 && (n - i) % 3 == 0 {
            out.push(',');
        }
        out.push(raw[i]);
        assert(out@ =~= grouped_prefix(raw@, (i + 1) as nat));
    }
    string_of(out.as_slice())
}

// ---------------------------------------------------------------------------
// Braille plot cells
// ---------------------------------------------------------------------------

/// Dot bit of the braille cell at column `x` (0–1) and row `y` (0–3).
pub open spec fn braille_bit_spec(x: usize, y: usize) -> u8 {
    if x == 0 && y == 0 {
        0x01
    } else if x == 0 && y == 1 {
        0x02
    } else if x == 0 && y == 2 {
        0x04
    } else if x == 0 && y == 3 {
        0x40
    } else if x == 1 && y == 0 {
        0x08
    } else if x == 1 && y == 1 {
        0x10
    } else if x == 1 && y == 2 {
        0x20
    } else if x == 1 && y == 3 {
        0x80
    } else {
        0
    }
}

pub fn braille_bit(x: usize, y: usize) -> (r: u8)
    ensures
        r == braille_bit_spec(x, y),
{
    match (x, y) {
        (0, 0) => 0x01,
        (0, 1) => 0x02,
        (0, 2) => 0x04,
        (0, 3) => 0x40,
        (1, 0) => 0x08,
        (1, 1) => 0x10,
        (1, 2) => 0x20,
        (1, 3) => 0x80,
        _ => 0,
    }
}

/// The dot at column `x` (0–1) and row `y` (0–3) of a braille cell is the
/// Unicode braille bit of dot number `3x + y` for the top three rows and
/// `6 + x` for the bottom row; there are no other dots.
pub proof fn law_braille_dot_bits(x: usize, y: usize)
    ensures
        x < 2 && y < 4 ==> braille_bit_spec(x, y) == seq![1u8, 2, 4, 8, 16, 32, 64, 128][if y < 3 {
            3 * x + y
        } else {
            6 + x
        }],
        !(x < 2 && y < 4) ==> braille_bit_spec(x, y) == 0,
{
}

/// `char::from_u32`: the character with code point `code`; `None` for a
/// surrogate or a value above U+10FFFF, as the standard library documents.
#[verifier::external_body]
fn char_from_u32(code: u32) -> (r: Option<char>)
    ensures
        (r is Some) == (code <= 0xD7FF || (0xE000 <= code && code <= 0x10FFFF)),
        r is Some ==> r->0 as u32 == code,
{
    char::from_u32(code)
}

/// The braille character whose dots are `mask`; a blank for no dots.
pub fn braille_char(mask: u8) -> (r: char)
    ensures
        mask == 0 ==> r == ' ',
        mask != 0 ==> r as u32 == 0x2800 + mask as u32,
{
    if mask == 0 {
        ' '
    } else {
        match char_from_u32(0x2800 + mask as u32) {
            Some(c) => c,
            None => ' ',
        }
    }
}

// ---------------------------------------------------------------------------
// History resampling
// ---------------------------------------------------------------------------

/// Length of the history plot, in nanoseconds.
pub const HISTORY_WINDOW_NS: u64 = 60_000_000_000;

/// A sample's time offset from the window start is at or before plot column
/// `x` of `columns` (the first column is the window start, the last is now).
pub open spec fn at_or_before(offset: u64, x: int, columns: int) -> bool {
    if columns <= 1 {
        offset <= HISTORY_WINDOW_NS
    } else {
        offset * (columns - 1) <= x * HISTORY_WINDOW_NS
    }
}

/// The samples inside the window as `(offset from window start, value
/// capped at 100)`, oldest first; `samples` are `(age, value)` pairs.
pub open spec fn window_points(samples: Seq<(u64, u64)>) -> Seq<(u64, u64)>
    decreases samples.len(),
{
    if samples.len() == 0 {
        seq![]
    } else {
        let rest = window_points(samples.drop_last());
        let s = samples.last();
        if s.0 <= HISTORY_WINDOW_NS {
            rest.push(((HISTORY_WINDOW_NS - s.0) as u64, if s.1 > 100 {
                100
            } else {
                s.1
            }))
        } else {
            rest
        }
    }
}

/// How many leading points lie at or before column `x`.
pub open spec fn lead_count(pts: Seq<(u64, u64)>, x: int, columns: int) -> nat
    decreases pts.len(),
{
    if pts.len() == 0 {
        0
    } else if at_or_before(pts[0].0, x, columns) {
        1 + lead_count(pts.drop_first(), x, columns)
    } else {
        0
    }
}

/// Each column holds the value of the latest sample at or before it, or
/// nothing before the first sample; at least one column.
pub open spec fn resample_spec(samples: Seq<(u64, u64)>, columns: nat) -> Seq<Option<u64>> {
    let c = if columns == 0 {
        1
    } else {
        columns
    };
    let pts = window_points(samples);
    Seq::new(
        c,
        |x: int|
            {
                let k = lead_count(pts, x, c as int);
                if k == 0 {
                    None
                } else {
                    Some(pts[k - 1].1)
                }
            },
    )
}

proof fn lemma_lead_count_props(pts: Seq<(u64, u64)>, x: int, c: int)
    ensures
        lead_count(pts, x, c) <= pts.len(),
        forall|j: int| 0 <= j < lead_count(pts, x, c) ==> at_or_before(#[trigger] pts[j].0, x, c),
        lead_count(pts, x, c) < pts.len() ==> !at_or_before(pts[lead_count(pts, x, c) as int].0, x, c),
    decreases pts.len(),
{
    if pts.len() > 0 && at_or_before(pts[0].0, x, c) {
        lemma_lead_count_props(pts.drop_first(), x, c);
        assert forall|j: int| 0 <= j < lead_count(pts, x, c) implies at_or_before(#[trigger] pts[j].0, x, c) by {
            if j > 0 {
                assert(pts[j] == pts.drop_first()[j - 1]);
            }
        }
        if lead_count(pts, x, c) < pts.len() {
            assert(pts[lead_count(pts, x, c) as int] == pts.drop_first()[lead_count(pts.drop_first(), x, c) as int]);
        }
    }
}

proof fn lemma_lead_count_unique(pts: Seq<(u64, u64)>, x: int, c: int, k: int)
    requires
        0 <= k <= pts.len(),
        forall|j: int| 0 <= j < k ==> at_or_before(#[trigger] pts[j].0, x, c),
        k < pts.len() ==> !at_or_before(pts[k].0, x, c),
    ensures
        lead_count(pts, x, c) == k,
    decreases pts.len(),
{
    if pts.len() > 0 && k > 0 {
        let t = pts.drop_first();
        assert(at_or_before(pts[0].0, x, c));
        assert forall|j: int| 0 <= j < k - 1 implies at_or_before(#[trigger] t[j].0, x, c) by {
            assert(t[j] == pts[j + 1]);
        }
        if k - 1 < t.len() {
            assert(t[k - 1] == pts[k]);
        }
        lemma_lead_count_unique(t, x, c, k - 1);
    }
}

proof fn lemma_at_or_before_mono(offset: u64, x: int, c: int)
    requires
        0 <= x,
        at_or_before(offset, x, c),
    ensures
        at_or_before(offset, x + 1, c),
{
    if c > 1 {
        assert(x * HISTORY_WINDOW_NS <= (x + 1) * HISTORY_WINDOW_NS) by (nonlinear_arith)
            requires
                x >= 0,
        ;
    }
}

fn before_column(offset: u64, x: usize, c: usize) -> (r: bool)
    requires
        c >= 1,
    ensures
        r == at_or_before(offset, x as int, c as int),
{
    if c == 1 {
        offset <= HISTORY_WINDOW_NS
    } else {
        let off = offset as u128;
        let cols = (c - 1) as u128;
        let xx = x as u128;
        assert(off * cols <= 0xffff_ffff_ffff_ffff * 0xffff_ffff_ffff_ffff) by (nonlinear_arith)
            requires
                off <= 0xffff_ffff_ffff_ffff,
                cols <= 0xffff_ffff_ffff_ffff,
        ;
        assert(xx * 60_000_000_000 <= 0xffff_ffff_ffff_ffff * 60_000_000_000) by (nonlinear_arith)
            requires
                xx <= 0xffff_ffff_ffff_ffff,
        ;
        off * cols <= xx * (HISTORY_WINDOW_NS as u128)
    }
}

fn points_in_window(samples: &[(u64, u64)]) -> (r: Vec<(u64, u64)>)
    ensures
        r@ == window_points(samples@),
{
    let mut pts: Vec<(u64, u64)> = Vec::new();
    for i in 0..samples.len()
        invariant
            pts@ == window_points(samples@.take(i as int)),
    {
        let ghost nxt = samples@.take(i + 1);
        assert(nxt.drop_last() =~= samples@.take(i as int));
        let (age, value) = samples[i];
        if age <= HISTORY_WINDOW_NS {
            let v = if value > 100 {
                100
            } else {
                value
            };
            pts.push((HISTORY_WINDOW_NS - age, v));
        }
    }
    assert(samples@.take(samples@.len() as int) =~= samples@);
    pts
}

/// The history as plot columns: each column holds the latest sample taken
/// at or before the column's time. `samples` are `(age, value)` pairs,
/// oldest first, ages in nanoseconds; times are compared exactly.
pub fn resample_history(samples: &[(u64, u64)], columns: usize) -> (r: Vec<Option<u64>>)
    ensures
        r@ == resample_spec(samples@, columns as nat),
{
    let c: usize = if columns == 0 {
        1
    } else {
        columns
    };
    let pts = points_in_window(samples);
    let ghost spec = resample_spec(samples@, columns as nat);
    let mut result: Vec<Option<u64>> = Vec::new();
    let mut idx: usize = 0;
    let mut current: Option<u64> = None;
    for x in 0..c
        invariant
            c >= 1,
            c as nat == (if columns == 0 {
                1nat
            } else {
                columns as nat
            }),
            pts@ == window_points(samples@),
            spec == resample_spec(samples@, columns as nat),
            result@ == spec.take(x as int),
            idx <= pts@.len(),
            forall|j: int| 0 <= j < idx ==> at_or_before(#[trigger] pts@[j].0, x as int, c as int),
            current == (if idx == 0 {
                None::<u64>
            } else {
                Some(pts@[idx - 1].1)
            }),
    {
        while idx < pts.len() && before_column(pts[idx].0, x, c)
            invariant
                c >= 1,
                idx <= pts@.len(),
                forall|j: int| 0 <= j < idx ==> at_or_before(#[trigger] pts@[j].0, x as int, c as int),
                current == (if idx == 0 {
                    None::<u64>
                } else {
                    Some(pts@[idx - 1].1)
                }),
            decreases pts@.len() - idx,
        {
            current = Some(pts[idx].1);
            idx = idx + 1;
        }
        proof {
            lemma_lead_count_unique(pts@, x as int, c as int, idx as int);
            assert(spec[x as int] == current);
            assert forall|j: int| 0 <= j < idx implies at_or_before(#[trigger] pts@[j].0, x + 1, c as int) by {
                lemma_at_or_before_mono(pts@[j].0, x as int, c as int);
            }
        }
        result.push(current);
        assert(result@ =~= spec.take(x + 1));
    }
    assert(spec.take(c as int) =~= spec);
    result
}


// ---------------------------------------------------------------------------
// System panel title
// ---------------------------------------------------------------------------

/// Position of the first occurrence of `p` in `s` at or after `i`.
pub open spec fn find_from(s: Seq<char>, p: Seq<char>, i: int) -> Option<int>
    decreases s.len() + 1 - i,
{
    if i < 0 || i + p.len() > s.len() {
        None
    } else if occurs_at(s, p, i) {
        Some(i)
    } else {
        find_from(s, p, i + 1)
    }
}

/// `str::find` with a string pattern.
pub open spec fn find_sub(s: Seq<char>, p: Seq<char>) -> Option<int> {
    find_from(s, p, 0)
}

/// An Intel Core model number such as `i7-12700H`.
pub open spec fn is_intel_part(t: Seq<char>) -> bool {
    starts_with(t, "i3-"@) || starts_with(t, "i5-"@) || starts_with(t, "i7-"@) || starts_with(
        t,
        "i9-"@,
    )
}

pub open spec fn first_intel_part(ts: Seq<Seq<char>>) -> Option<Seq<char>>
    decreases ts.len(),
{
    if ts.len() == 0 {
        None
    } else if is_intel_part(ts[0]) {
        Some(ts[0])
    } else {
        first_intel_part(ts.drop_first())
    }
}

/// The words before the first one that contains `-Core`.
pub open spec fn before_core(ts: Seq<Seq<char>>) -> Seq<Seq<char>>
    decreases ts.len(),
{
    if ts.len() == 0 || contains(ts[0], "-Core"@) {
        seq![]
    } else {
        seq![ts[0]] + before_core(ts.drop_first())
    }
}

/// The first `n` words joined by single spaces.
pub open spec fn first_words(ts: Seq<Seq<char>>, n: nat) -> Seq<char> {
    join_with(ts.take(if ts.len() < n { ts.len() as int } else { n as int }), " "@)
}

/// A short CPU name: the Intel model number or `Core Ultra ...`, the AMD
/// `Ryzen ...` or `EPYC ...` words, else the first four words of the model;
/// the vendor label when the model is empty.
pub open spec fn compact_model_spec(vendor: CpuVendor, model: Seq<char>) -> Seq<char> {
    let m = trim(model);
    if m.len() == 0 {
        vendor.label_spec()
    } else if vendor == CpuVendor::Intel && first_intel_part(tokens(m)) is Some {
        first_intel_part(tokens(m))->0
    } else if vendor == CpuVendor::Intel && find_sub(m, "Core Ultra"@) is Some {
        first_words(tokens(m.skip(find_sub(m, "Core Ultra"@)->0)), 4)
    } else if vendor == CpuVendor::Amd && find_sub(m, "Ryzen"@) is Some {
        first_words(before_core(tokens(m.skip(find_sub(m, "Ryzen"@)->0))), 4)
    } else if vendor == CpuVendor::Amd && find_sub(m, "EPYC"@) is Some {
        first_words(tokens(m.skip(find_sub(m, "EPYC"@)->0)), 3)
    } else {
        first_words(tokens(m), 4)
    }
}

fn find_sub_exec(v: &Vec<char>, p: &str) -> (r: Option<usize>)
    ensures
        match r {
            Some(i) => find_sub(v@, p@) == Some(i as int) && i <= v@.len(),
            None => find_sub(v@, p@) is None,
        },
{
    let pv = chars_of(p);
    let mut i: usize = 0;
    while i <= v.len() && !occurs_at_exec(v.as_slice(), pv.as_slice(), i)
        invariant
            pv@ == p@,
            find_from(v@, p@, i as int) == find_from(v@, p@, 0),
        decreases v@.len() + 1 - i,
    {
        if pv.len() > v.len() - i {
            assert(find_from(v@, p@, i as int) is None);
            return None;
        }
        assert(pv@.len() > 0) by {
            if pv@.len() == 0 {
                assert(v@.subrange(i as int, i as int) =~= pv@);
            }
        }
        i = i + 1;
    }
    if i > v.len() {
        return None;
    }
    Some(i)
}

fn first_words_exec(ts: &Vec<Vec<char>>, n: usize) -> (r: Vec<char>)
    ensures
        r@ == first_words(vecs_view(ts@), n as nat),
{
    let k = if ts.len() < n {
        ts.len()
    } else {
        n
    };
    let mut head: Vec<Vec<char>> = Vec::new();
    for i in 0..k
        invariant
            k <= ts@.len(),
            vecs_view(head@) == vecs_view(ts@).take(i as int),
    {
        let ghost pre = vecs_view(head@);
        head.push(crate::paths::lit_clone(&ts[i]));
        assert(vecs_view(head@) =~= pre.push(ts@[i as int]@));
        assert(vecs_view(head@) =~= vecs_view(ts@).take(i + 1));
    }
    assert(vecs_view(head@) =~= head@.map_values(|t: Vec<char>| t@));
    join_tokens(&head, " ")
}

fn tokens_vec(v: &Vec<char>) -> (r: Vec<Vec<char>>)
    ensures
        vecs_view(r@) == tokens(v@),
{
    let r = tokens_of(v);
    assert(vecs_view(r@) =~= tokens(v@));
    r
}

proof fn lemma_first_intel_part(ts: Seq<Seq<char>>, k: int)
    requires
        0 <= k < ts.len(),
        is_intel_part(ts[k]),
        forall|j: int| 0 <= j < k ==> !is_intel_part(#[trigger] ts[j]),
    ensures
        first_intel_part(ts) == Some(ts[k]),
    decreases k,
{
    if k > 0 {
        let rest = ts.drop_first();
        assert forall|j: int| 0 <= j < k - 1 implies !is_intel_part(#[trigger] rest[j]) by {
            assert(rest[j] == ts[j + 1]);
        }
        lemma_first_intel_part(rest, k - 1);
    }
}

/// An Intel CPU is named by its Core model number: the first word of the
/// trimmed model that begins with `i3-`, `i5-`, `i7-` or `i9-`.
pub proof fn law_intel_model_number(model: Seq<char>, k: int)
    requires
        0 <= k < tokens(trim(model)).len(),
        ({
            let w = tokens(trim(model))[k];
            starts_with(w, "i3-"@) || starts_with(w, "i5-"@) || starts_with(w, "i7-"@)
                || starts_with(w, "i9-"@)
        }),
        forall|j: int|
            0 <= j < k ==> {
                let w = #[trigger] tokens(trim(model))[j];
                !(starts_with(w, "i3-"@) || starts_with(w, "i5-"@) || starts_with(w, "i7-"@)
                    || starts_with(w, "i9-"@))
            },
    ensures
        compact_model_spec(CpuVendor::Intel, model) == tokens(trim(model))[k],
{
    let m = trim(model);
    if m.len() == 0 {
        assert(trim_start(m).len() == 0);
        assert(tokens(m) =~= seq![]);
    }
    lemma_first_intel_part(tokens(m), k);
}

/// A blank model is shown as the vendor's name (`Intel`, `AMD`, else
/// `CPU`); a CPU of neither vendor is shown as the first four words of its
/// model, separated by single spaces.
pub proof fn law_compact_model_fallbacks(vendor: CpuVendor, model: Seq<char>)
    ensures
        trim(model).len() == 0 ==> compact_model_spec(vendor, model) == match vendor {
            CpuVendor::Intel => "Intel"@,
            CpuVendor::Amd => "AMD"@,
            _ => "CPU"@,
        },
        trim(model).len() > 0 && vendor != CpuVendor::Intel && vendor != CpuVendor::Amd
            ==> compact_model_spec(vendor, model) == join_with(
            tokens(trim(model)).take(
                if tokens(trim(model)).len() < 4 {
                    tokens(trim(model)).len() as int
                } else {
                    4
                },
            ),
            " "@,
        ),
{
}

/// A short CPU name for the system panel title (see [`compact_model_spec`]).
pub fn compact_cpu_model(topology: &CpuTopology) -> (r: String)
    ensures
        r@ == compact_model_spec(topology.vendor, topology.model@),
{
    let m = trim_str(topology.model.as_str());
    if m.len() == 0 {
        return topology.vendor.label().to_string();
    }
    let is_intel = match topology.vendor {
        CpuVendor::Intel => true,
        _ => false,
    };
    let is_amd = match topology.vendor {
        CpuVendor::Amd => true,
        _ => false,
    };
    let ts = tokens_vec(&m);
    if is_intel {
        let ghost tv = vecs_view(ts@);
        let mut i: usize = 0;
        assert(tv.skip(0) =~= tv);
        while i < ts.len()
            invariant
                tv == vecs_view(ts@),
                tv == tokens(trim(topology.model@)),
                topology.vendor == CpuVendor::Intel,
                trim(topology.model@).len() > 0,
                i <= tv.len(),
                first_intel_part(tv.skip(i as int)) == first_intel_part(tv),
            decreases tv.len() - i,
        {
            assert(tv.skip(i as int)[0] == ts@[i as int]@);
            assert(tv.skip(i as int).drop_first() =~= tv.skip(i + 1));
            let t = ts[i].as_slice();
            if starts_with_str(t, "i3-") || starts_with_str(t, "i5-") || starts_with_str(t, "i7-")
                || starts_with_str(t, "i9-") {
                assert(first_intel_part(tv) == Some(ts@[i as int]@));
                assert(topology.vendor == CpuVendor::Intel);
                assert(tv == tokens(trim(topology.model@)));
                let r = string_of(t);
                assert(r@ == compact_model_spec(topology.vendor, topology.model@));
                return r;
            }
            i = i + 1;
        }
        assert(tv.skip(i as int) =~= seq![]);
        if let Some(pos) = find_sub_exec(&m, "Core Ultra") {
            let rest = slice_vec(&m, pos, m.len());
            assert(rest@ =~= m@.skip(pos as int));
            let words = tokens_vec(&rest);
            return string_of(first_words_exec(&words, 4).as_slice());
        }
    }
    if is_amd {
        if let Some(pos) = find_sub_exec(&m, "Ryzen") {
            let rest = slice_vec(&m, pos, m.len());
            assert(rest@ =~= m@.skip(pos as int));
            let words = tokens_vec(&rest);
            let ghost wv = vecs_view(words@);
            let mut kept: Vec<Vec<char>> = Vec::new();
            let mut i: usize = 0;
            assert(wv.skip(0) =~= wv);
            assert(vecs_view(kept@) + before_core(wv) =~= before_core(wv));
            while i < words.len() && !contains_str(words[i].as_slice(), "-Core")
                invariant
                    wv == vecs_view(words@),
                    i <= wv.len(),
                    vecs_view(kept@) + before_core(wv.skip(i as int)) == before_core(wv),
                decreases wv.len() - i,
            {
                assert(wv.skip(i as int)[0] == words@[i as int]@);
                assert(wv.skip(i as int).drop_first() =~= wv.skip(i + 1));
                let ghost pre = vecs_view(kept@);
                kept.push(crate::paths::lit_clone(&words[i]));
                assert(vecs_view(kept@) =~= pre.push(wv[i as int]));
                assert(vecs_view(kept@) + before_core(wv.skip(i + 1)) =~= pre + before_core(wv.skip(i as int)));
                i = i + 1;
            }
            proof {
                if i < wv.len() {
                    assert(wv.skip(i as int)[0] == words@[i as int]@);
                }
            }
            assert(vecs_view(kept@) =~= before_core(wv));
            return string_of(first_words_exec(&kept, 4).as_slice());
        }
        if let Some(pos) = find_sub_exec(&m, "EPYC") {
            let rest = slice_vec(&m, pos, m.len());
            assert(rest@ =~= m@.skip(pos as int));
            let words = tokens_vec(&rest);
            return string_of(first_words_exec(&words, 3).as_slice());
        }
    }
    string_of(first_words_exec(&ts, 4).as_slice())
}


/// Core/thread summary: `8P+16E/32T` on hybrid CPUs (thread counts per
/// class when core counts are unknown), `8C/16T`, `16T`, or nothing.
pub open spec fn topology_text_spec(t: CpuTopology) -> Seq<char> {
    if has_kind(t.core_kinds@, CpuCoreKind::Performance) && has_kind(
        t.core_kinds@,
        CpuCoreKind::Efficiency,
    ) {
        match (t.performance_cores, t.efficiency_cores) {
            (Some(p), Some(e)) => dec_repr(p as nat) + "P+"@ + dec_repr(e as nat) + "E/"@ + dec_repr(
                t.logical_cpus as nat,
            ) + "T"@,
            _ => "P"@ + dec_repr(count_kind(t.core_kinds@, CpuCoreKind::Performance) as nat) + "T+E"@
                + dec_repr(count_kind(t.core_kinds@, CpuCoreKind::Efficiency) as nat) + "T"@,
        }
    } else {
        match t.physical_cores {
            Some(c) => dec_repr(c as nat) + "C/"@ + dec_repr(t.logical_cpus as nat) + "T"@,
            None => if t.logical_cpus > 0 {
                dec_repr(t.logical_cpus as nat) + "T"@
            } else {
                seq![]
            },
        }
    }
}

/// ` SYSTEM · <model> · <topology> `, cut with `…` to fit `width - 2`
/// columns (when more than four are left).
pub open spec fn panel_title_spec(t: CpuTopology, width: u16) -> Seq<char> {
    let text = topology_text_spec(t);
    let title = if text.len() == 0 {
        " SYSTEM · "@ + compact_model_spec(t.vendor, t.model@) + " "@
    } else {
        " SYSTEM · "@ + compact_model_spec(t.vendor, t.model@) + " · "@ + text + " "@
    };
    let max_len: nat = if width >= 2 {
        (width - 2) as nat
    } else {
        0
    };
    if title.len() > max_len && max_len > 4 {
        truncate_title_spec(title, max_len)
    } else {
        title
    }
}

fn topology_text(t: &CpuTopology) -> (r: Vec<char>)
    ensures
        r@ == topology_text_spec(*t),
{
    let mut out: Vec<char> = Vec::new();
    if t.is_hybrid() {
        match (t.performance_cores, t.efficiency_cores) {
            (Some(p), Some(e)) => {
                push_dec(&mut out, p as u64);
                append_str(&mut out, "P+");
                push_dec(&mut out, e as u64);
                append_str(&mut out, "E/");
                push_dec(&mut out, t.logical_cpus as u64);
                append_str(&mut out, "T");
            },
            _ => {
                append_str(&mut out, "P");
                push_dec(&mut out, t.performance_threads() as u64);
                append_str(&mut out, "T+E");
                push_dec(&mut out, t.efficiency_threads() as u64);
                append_str(&mut out, "T");
            },
        }
    } else if let Some(c) = t.physical_cores {
        push_dec(&mut out, c as u64);
        append_str(&mut out, "C/");
        push_dec(&mut out, t.logical_cpus as u64);
        append_str(&mut out, "T");
    } else if t.logical_cpus > 0 {
        push_dec(&mut out, t.logical_cpus as u64);
        append_str(&mut out, "T");
    }
    assert(out@ =~= topology_text_spec(*t));
    out
}

/// Title of the system panel (see [`panel_title_spec`]).
pub fn system_panel_title(topology: &CpuTopology, width: u16) -> (r: String)
    ensures
        r@ == panel_title_spec(*topology, width),
{
    let model = compact_cpu_model(topology);
    let text = topology_text(topology);
    let mut title = chars_of(" SYSTEM · ");
    append_str(&mut title, model.as_str());
    if text.len() == 0 {
        append_str(&mut title, " ");
    } else {
        append_str(&mut title, " · ");
        append_chars(&mut title, text.as_slice());
        append_str(&mut title, " ");
    }
    let t = string_of(title.as_slice());
    let max_len = width.saturating_sub(2) as usize;
    if title.len() > max_len && max_len > 4 {
        truncate_title(t.as_str(), max_len)
    } else {
        t
    }
}

// ---------------------------------------------------------------------------
// System panel height
// ---------------------------------------------------------------------------

/// The kinds of the physical cores, in order.
pub open spec fn group_kinds(gs: Seq<CpuPhysicalCore>) -> Seq<CpuCoreKind> {
    gs.map_values(|g: CpuPhysicalCore| g.kind)
}

/// Rows of the system panel: on a hybrid CPU with known physical cores, one
/// row per core of the larger class (performance or efficiency) plus nine,
/// at least twelve; twelve otherwise.
pub open spec fn panel_height_spec(t: CpuTopology) -> u16 {
    let ks = group_kinds(t.physical_core_groups@);
    if has_kind(t.core_kinds@, CpuCoreKind::Performance) && has_kind(t.core_kinds@, CpuCoreKind::Efficiency)
        && ks.len() > 0 {
        let p = count_kind(ks, CpuCoreKind::Performance);
        let e = count_kind(ks, CpuCoreKind::Efficiency);
        let rows = if p >= e {
            p
        } else {
            e
        };
        let rows = if rows >= 1 {
            rows
        } else {
            1
        };
        if rows + 9 >= 12 {
            (rows + 9) as u16
        } else {
            12
        }
    } else {
        12
    }
}

proof fn lemma_count_kind_le(ks: Seq<CpuCoreKind>, k: CpuCoreKind)
    ensures
        count_kind(ks, k) <= ks.len(),
    decreases ks.len(),
{
    if ks.len() > 0 {
        lemma_count_kind_le(ks.drop_last(), k);
    }
}

fn count_group_kind(gs: &[CpuPhysicalCore], k: CpuCoreKind) -> (r: usize)
    ensures
        r == count_kind(group_kinds(gs@), k),
{
    let ghost ks = group_kinds(gs@);
    let mut n: usize = 0;
    for i in 0..gs.len()
        invariant
            ks == group_kinds(gs@),
            n == count_kind(ks.take(i as int), k),
            n <= i,
    {
        assert(ks.take(i + 1).drop_last() =~= ks.take(i as int));
        assert(ks.take(i + 1).last() == gs@[i as int].kind);
        let hit = match (gs[i].kind, k) {
            (CpuCoreKind::Performance, CpuCoreKind::Performance) => true,
            (CpuCoreKind::Efficiency, CpuCoreKind::Efficiency) => true,
            (CpuCoreKind::LowPower, CpuCoreKind::LowPower) => true,
            (CpuCoreKind::Unknown, CpuCoreKind::Unknown) => true,
            _ => false,
        };
        if hit {
            n = n + 1;
        }
    }
    assert(ks.take(gs@.len() as int) =~= ks);
    n
}

/// Height of the system panel for the CPU `topology`.
pub fn system_panel_height(topology: &CpuTopology) -> (r: u16)
    requires
        topology.physical_core_groups@.len() + 9 <= u16::MAX,
    ensures
        r == panel_height_spec(*topology),
{
    let groups = topology.physical_core_groups.as_slice();
    if topology.is_hybrid() && groups.len() > 0 {
        let p = count_group_kind(groups, CpuCoreKind::Performance);
        let e = count_group_kind(groups, CpuCoreKind::Efficiency);
        proof {
            lemma_count_kind_le(group_kinds(groups@), CpuCoreKind::Performance);
            lemma_count_kind_le(group_kinds(groups@), CpuCoreKind::Efficiency);
        }
        let rows = if p >= e {
            p
        } else {
            e
        };
        let rows = if rows >= 1 {
            rows
        } else {
            1
        };
        let h = rows as u16 + 9;
        if h >= 12 {
            h
        } else {
            12
        }
    } else {
        12
    }
}

} // verus!
