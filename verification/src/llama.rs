//! llama.cpp server metrics: how a model path is shown.

use vstd::prelude::*;

use crate::paths::{file_name, file_name_of};
use crate::text::{
    chars_of, ends_with, ends_with_str, find_char, first_index, lines, lines_of, slice_vec,
    str_eq, string_of, tokens, tokens_of, trim, trim_vec,
};
use crate::ui::strip_trailing;

verus! {

/// `s` with every trailing copy of `p` removed (`str::trim_end_matches`).
pub open spec fn strip_suffixes(s: Seq<char>, p: Seq<char>) -> Seq<char>
    decreases s.len(),
{
    if p.len() > 0 && ends_with(s, p) {
        strip_suffixes(s.take(s.len() - p.len()), p)
    } else {
        s
    }
}

/// The model's file name without its `.gguf` extension.
pub open spec fn model_display_spec(value: Seq<char>) -> Seq<char> {
    let name = match file_name(value) {
        Some(n) => n,
        None => value,
    };
    strip_suffixes(name, ".gguf"@)
}

/// Short display name of a model path (`/models/x.gguf` → `x`).
pub fn model_display_name(value: &str) -> (r: String)
    ensures
        r@ == model_display_spec(value@),
{
    let mut name = match file_name_of(value) {
        Some(n) => n,
        None => chars_of(value),
    };
    proof {
        reveal_strlit(".gguf");
    }
    let ghost start = name@;
    while ends_with_str(name.as_slice(), ".gguf")
        invariant
            strip_suffixes(start, ".gguf"@) == strip_suffixes(name@, ".gguf"@),
        decreases name@.len(),
    {
        proof {
            reveal_strlit(".gguf");
        }
        let n = name.len();
        let shorter = slice_vec(&name, 0, n - 5);
        assert(shorter@ =~= name@.take(name@.len() - 5));
        name = shorter;
    }
    string_of(name.as_slice())
}


// ---------------------------------------------------------------------------
// Prometheus text format
// ---------------------------------------------------------------------------

/// One metric line: name, label set (without braces, `None` when empty or
/// absent) and the value exactly as written.
#[derive(Clone, Debug, PartialEq, Eq)]
pub struct RawMetric {
    pub name: String,
    pub labels: Option<String>,
    pub value: String,
}

pub type RawMetricModel = (Seq<char>, Option<Seq<char>>, Seq<char>);

pub open spec fn raw_metric_view(m: RawMetric) -> RawMetricModel {
    (m.name@, crate::domain::opt_view(m.labels), m.value@)
}

pub open spec fn raw_metrics_view(v: Seq<RawMetric>) -> Seq<RawMetricModel> {
    v.map_values(|m: RawMetric| raw_metric_view(m))
}

/// A sample line: not blank, not a `#` comment, with a name (optionally
/// followed by `{labels}`) and a value as its first two words.
pub open spec fn metric_line(line: Seq<char>) -> Option<RawMetricModel> {
    let l = trim(line);
    let ws = tokens(l);
    if l.len() == 0 || l[0] == '#' || ws.len() < 2 {
        None
    } else {
        match first_index(ws[0], '{') {
            Some(i) => {
                let labels = strip_trailing(ws[0].skip(i + 1), '}');
                Some(
                    (
                        ws[0].take(i),
                        if labels.len() == 0 {
                            None
                        } else {
                            Some(labels)
                        },
                        ws[1],
                    ),
                )
            },
            None => Some((ws[0], None, ws[1])),
        }
    }
}

pub open spec fn metric_lines(ls: Seq<Seq<char>>) -> Seq<RawMetricModel>
    decreases ls.len(),
{
    if ls.len() == 0 {
        seq![]
    } else {
        let rest = metric_lines(ls.drop_last());
        match metric_line(ls.last()) {
            Some(m) => rest.push(m),
            None => rest,
        }
    }
}

fn strip_closing_braces(v: Vec<char>) -> (r: Vec<char>)
    ensures
        r@ == strip_trailing(v@, '}'),
    decreases v@.len(),
{
    let n = v.len();
    if n > 0 && v[n - 1] == '}' {
        let shorter = slice_vec(&v, 0, n - 1);
        assert(shorter@ =~= v@.drop_last());
        strip_closing_braces(shorter)
    } else {
        v
    }
}

fn metric_line_exec(line: &Vec<char>) -> (r: Option<RawMetric>)
    ensures
        match r {
            Some(m) => metric_line(line@) == Some(raw_metric_view(m)),
            None => metric_line(line@) is None,
        },
{
    let l = trim_vec(line);
    let ws = tokens_of(&l);
    if l.len() == 0 || l[0] == '#' || ws.len() < 2 {
        return None;
    }
    let first = &ws[0];
    let value = string_of(ws[1].as_slice());
    assert(first@ == tokens(l@)[0]);
    assert(ws@[1]@ == tokens(l@)[1]);
    proof {
        crate::text::lemma_first_index_props(first@, '{');
    }
    match find_char(first.as_slice(), '{') {
        Some(i) => {
            assert(first_index(first@, '{') == Some(i as int));
            let name = slice_vec(first, 0, i);
            assert(name@ =~= first@.take(i as int));
            let rest = slice_vec(first, i + 1, first.len());
            assert(rest@ =~= first@.skip(i + 1));
            let labels = strip_closing_braces(rest);
            let l_opt = if labels.len() == 0 {
                None
            } else {
                Some(string_of(labels.as_slice()))
            };
            Some(RawMetric { name: string_of(name.as_slice()), labels: l_opt, value })
        },
        None => Some(RawMetric { name: string_of(first.as_slice()), labels: None, value }),
    }
}

/// The sample lines of a Prometheus text exposition, in order. Values are
/// left as written: the caller keeps those that parse as finite numbers.
pub fn parse_prometheus_lines(input: &str) -> (r: Vec<RawMetric>)
    ensures
        raw_metrics_view(r@) == metric_lines(lines(input@)),
{
    let text = chars_of(input);
    let ls = lines_of(&text);
    let mut out: Vec<RawMetric> = Vec::new();
    assert(raw_metrics_view(out@) =~= metric_lines(lines(input@).take(0)));
    for i in 0..ls.len()
        invariant
            ls@.len() == lines(input@).len(),
            forall|k: int| 0 <= k < ls@.len() ==> #[trigger] ls@[k]@ == lines(input@)[k],
            raw_metrics_view(out@) == metric_lines(lines(input@).take(i as int)),
    {
        assert(lines(input@).take(i + 1).drop_last() =~= lines(input@).take(i as int));
        assert(lines(input@).take(i + 1).last() == ls@[i as int]@);
        if let Some(m) = metric_line_exec(&ls[i]) {
            let ghost before = raw_metrics_view(out@);
            out.push(m);
            assert(raw_metrics_view(out@) =~= before.push(raw_metric_view(m)));
        }
    }
    assert(lines(input@).take(ls@.len() as int) =~= lines(input@));
    out
}

/// Position of the first sample named `name` that carries no labels.
pub open spec fn find_unlabelled(ms: Seq<RawMetricModel>, name: Seq<char>) -> Option<int>
    decreases ms.len(),
{
    if ms.len() == 0 {
        None
    } else if ms[0].0 == name && ms[0].1 is None {
        Some(0)
    } else {
        match find_unlabelled(ms.drop_first(), name) {
            Some(i) => Some(i + 1),
            None => None,
        }
    }
}

/// The sample a reading is taken from: for the first of `names` (in
/// priority order) that has one, its first unlabelled sample.
pub open spec fn pick_spec(ms: Seq<RawMetricModel>, names: Seq<Seq<char>>) -> Option<int>
    decreases names.len(),
{
    if names.len() == 0 {
        None
    } else {
        match find_unlabelled(ms, names[0]) {
            Some(i) => Some(i),
            None => pick_spec(ms, names.drop_first()),
        }
    }
}

pub open spec fn strs_view(names: Seq<&str>) -> Seq<Seq<char>> {
    names.map_values(|s: &str| s@)
}

fn find_unlabelled_exec(metrics: &[RawMetric], name: &str) -> (r: Option<usize>)
    ensures
        match find_unlabelled(raw_metrics_view(metrics@), name@) {
            Some(i) => r == Some(i as usize),
            None => r is None,
        },
{
    let ghost ms = raw_metrics_view(metrics@);
    let mut i: usize = 0;
    assert(ms.skip(0) =~= ms);
    while i < metrics.len()
        invariant
            0 <= i <= metrics@.len(),
            ms == raw_metrics_view(metrics@),
            find_unlabelled(ms, name@) == match find_unlabelled(ms.skip(i as int), name@) {
                Some(j) => Some(j + i),
                None => None,
            },
        decreases metrics.len() - i,
    {
        let ghost rest = ms.skip(i as int);
        assert(rest[0] == ms[i as int]);
        if str_eq(metrics[i].name.as_str(), name) && metrics[i].labels.is_none() {
            return Some(i);
        }
        assert(rest.drop_first() =~= ms.skip(i + 1));
        i = i + 1;
    }
    assert(ms.skip(i as int).len() == 0);
    None
}

/// Index of the sample a reading is taken from (see [`pick_spec`]); `None`
/// when none of `names` has an unlabelled sample.
pub fn pick_metric(metrics: &[RawMetric], names: &[&str]) -> (r: Option<usize>)
    ensures
        match pick_spec(raw_metrics_view(metrics@), strs_view(names@)) {
            Some(i) => r == Some(i as usize),
            None => r is None,
        },
{
    let ghost ms = raw_metrics_view(metrics@);
    let ghost ns = strs_view(names@);
    let mut k: usize = 0;
    assert(ns.skip(0) =~= ns);
    while k < names.len()
        invariant
            0 <= k <= names@.len(),
            ms == raw_metrics_view(metrics@),
            ns == strs_view(names@),
            pick_spec(ms, ns) == pick_spec(ms, ns.skip(k as int)),
        decreases names.len() - k,
    {
        let ghost rest = ns.skip(k as int);
        assert(rest[0] == names@[k as int]@);
        assert(rest.drop_first() =~= ns.skip(k + 1));
        if let Some(i) = find_unlabelled_exec(metrics, names[k]) {
            return Some(i);
        }
        k = k + 1;
    }
    assert(ns.skip(k as int).len() == 0);
    None
}

// ---------------------------------------------------------------------------
// Slots
// ---------------------------------------------------------------------------

/// What one entry of the `/slots` response says (absent fields read as
/// zero or false).
#[derive(Clone, Copy, Debug, Default, PartialEq, Eq)]
pub struct SlotInfo {
    pub n_ctx: u64,
    pub is_processing: bool,
    pub n_prompt_tokens: u64,
    pub n_prompt_tokens_processed: u64,
    /// Tokens decoded so far (`next_token.n_decoded`).
    pub n_decoded: u64,
}

/// Slot totals: count, busy count, context size (at least the one the
/// server reports) and the largest context in use.
#[derive(Clone, Copy, Debug, Default, PartialEq, Eq)]
pub struct SlotSummary {
    pub slot_count: u64,
    pub busy_slots: u64,
    pub context_size: u64,
    pub context_used: u64,
}

pub open spec fn sat_add64(a: u64, b: u64) -> u64 {
    if a + b > u64::MAX {
        u64::MAX
    } else {
        (a + b) as u64
    }
}

/// Context a slot uses: its prompt token count, or (older servers) the
/// processed prompt plus the decoded tokens.
pub open spec fn slot_used(s: SlotInfo) -> u64 {
    if s.n_prompt_tokens > 0 {
        s.n_prompt_tokens
    } else {
        sat_add64(s.n_prompt_tokens_processed, s.n_decoded)
    }
}

pub open spec fn max64(a: u64, b: u64) -> u64 {
    if a >= b {
        a
    } else {
        b
    }
}

pub open spec fn summary_spec(context_size: u64, slots: Seq<SlotInfo>) -> SlotSummary
    decreases slots.len(),
{
    if slots.len() == 0 {
        SlotSummary { slot_count: 0, busy_slots: 0, context_size, context_used: 0 }
    } else {
        let r = summary_spec(context_size, slots.drop_last());
        let s = slots.last();
        SlotSummary {
            slot_count: (r.slot_count + 1) as u64,
            busy_slots: if s.is_processing {
                (r.busy_slots + 1) as u64
            } else {
                r.busy_slots
            },
            context_size: max64(r.context_size, s.n_ctx),
            context_used: max64(r.context_used, slot_used(s)),
        }
    }
}

proof fn lemma_summary_counts(context_size: u64, slots: Seq<SlotInfo>)
    requires
        slots.len() <= u64::MAX,
    ensures
        summary_spec(context_size, slots).slot_count == slots.len(),
        summary_spec(context_size, slots).busy_slots <= slots.len(),
    decreases slots.len(),
{
    if slots.len() > 0 {
        lemma_summary_counts(context_size, slots.drop_last());
    }
}

/// Number of slots that are processing a request.
pub open spec fn busy_count(slots: Seq<SlotInfo>) -> nat
    decreases slots.len(),
{
    if slots.len() == 0 {
        0
    } else {
        busy_count(slots.drop_last()) + if slots.last().is_processing {
            1nat
        } else {
            0nat
        }
    }
}

/// What the slot summary says: one count per slot and one busy count per
/// processing slot; the context size is the largest of the reported one
/// and every slot's `n_ctx`; the context in use is the largest that any
/// slot uses (its prompt tokens when it reports them, else its processed
/// prompt plus decoded tokens, saturating), and 0 with no slots.
pub proof fn law_slot_summary(context_size: u64, slots: Seq<SlotInfo>)
    requires
        slots.len() <= u64::MAX,
    ensures
        ({
            let r = summary_spec(context_size, slots);
            let used = |s: SlotInfo|
                if s.n_prompt_tokens > 0 {
                    s.n_prompt_tokens as int
                } else if s.n_prompt_tokens_processed + s.n_decoded > u64::MAX {
                    u64::MAX as int
                } else {
                    s.n_prompt_tokens_processed + s.n_decoded
                };
            &&& r.slot_count == slots.len()
            &&& r.busy_slots == busy_count(slots)
            &&& r.context_size >= context_size
            &&& forall|i: int| 0 <= i < slots.len() ==> r.context_size >= (#[trigger] slots[i]).n_ctx
            &&& r.context_size == context_size || exists|i: int|
                0 <= i < slots.len() && r.context_size == (#[trigger] slots[i]).n_ctx
            &&& forall|i: int| 0 <= i < slots.len() ==> r.context_used >= used(#[trigger] slots[i])
            &&& slots.len() == 0 ==> r.context_used == 0
            &&& slots.len() > 0 ==> exists|i: int|
                0 <= i < slots.len() && r.context_used == used(#[trigger] slots[i])
        }),
    decreases slots.len(),
{
    lemma_summary_counts(context_size, slots);
    if slots.len() > 0 {
        let init = slots.drop_last();
        law_slot_summary(context_size, init);
        lemma_summary_counts(context_size, init);
        let r0 = summary_spec(context_size, init);
        let r = summary_spec(context_size, slots);
        let s = slots.last();
        let used = |s: SlotInfo|
            if s.n_prompt_tokens > 0 {
                s.n_prompt_tokens as int
            } else if s.n_prompt_tokens_processed + s.n_decoded > u64::MAX {
                u64::MAX as int
            } else {
                s.n_prompt_tokens_processed + s.n_decoded
            };
        assert(slot_used(s) == used(s));
        assert(slots[slots.len() - 1] == s);
        assert forall|i: int| 0 <= i < slots.len() implies r.context_size >= (#[trigger] slots[i]).n_ctx by {
            if i < init.len() {
                assert(slots[i] == init[i]);
            }
        }
        assert forall|i: int| 0 <= i < slots.len() implies r.context_used >= used(#[trigger] slots[i]) by {
            if i < init.len() {
                assert(slots[i] == init[i]);
            }
        }
        if r.context_size != context_size && r.context_size != s.n_ctx {
            let i = choose|i: int| 0 <= i < init.len() && r0.context_size == (#[trigger] init[i]).n_ctx;
            assert(slots[i] == init[i]);
        }
        if r.context_used != used(s) {
            let i = choose|i: int| 0 <= i < init.len() && r0.context_used == used(#[trigger] init[i]);
            assert(slots[i] == init[i]);
        }
    }
}

/// Totals over the `/slots` entries, starting from the context size the
/// server reports.
pub fn summarize_slots(context_size: u64, slots: &[SlotInfo]) -> (r: SlotSummary)
    ensures
        r == summary_spec(context_size, slots@),
{
    let mut r = SlotSummary { slot_count: 0, busy_slots: 0, context_size, context_used: 0 };
    for i in 0..slots.len()
        invariant
            r == summary_spec(context_size, slots@.take(i as int)),
            i <= slots@.len(),
    {
        assert(slots@.take(i + 1).drop_last() =~= slots@.take(i as int));
        proof {
            lemma_summary_counts(context_size, slots@.take(i as int));
        }
        let s = slots[i];
        let used = if s.n_prompt_tokens > 0 {
            s.n_prompt_tokens
        } else {
            s.n_prompt_tokens_processed.saturating_add(s.n_decoded)
        };
        r = SlotSummary {
            slot_count: r.slot_count + 1,
            busy_slots: if s.is_processing {
                r.busy_slots + 1
            } else {
                r.busy_slots
            },
            context_size: if r.context_size >= s.n_ctx {
                r.context_size
            } else {
                s.n_ctx
            },
            context_used: if r.context_used >= used {
                r.context_used
            } else {
                used
            },
        };
    }
    assert(slots@.take(slots@.len() as int) =~= slots@);
    r
}

} // verus!
