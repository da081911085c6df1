//! Rules of the running monitor: the refresh interval controls, the worker
//! cadence, the cache of stable per-process metadata, the `/proc/stat`
//! CPU time counters and how a failed llama.cpp poll is shown.

use vstd::prelude::*;

use crate::config::{clamp, MAX_PROCESS_REFRESH_MS, MIN_PROCESS_REFRESH_MS};
use crate::domain::{ProcessIdentity, MAX_REFRESH_MS, MIN_REFRESH_MS, REFRESH_STEP_MS};
use crate::system::Sys;
use crate::text::{
    chars_of, contains, contains_str, dec_repr, lines, lines_of, parse_uint, parse_uint_vec,
    slice_vec, starts_with, starts_with_str, string_of, to_lower, to_lower_vec, tokens, tokens_of,
    trim, trim_vec,
};

verus! {

// ---------------------------------------------------------------------------
// Refresh interval
// ---------------------------------------------------------------------------

/// The refresh interval after one press of `+` (`increase`) or `-`: one step
/// up to the maximum, or one step down to the minimum.
pub open spec fn changed_refresh(refresh_ms: u64, increase: bool) -> u64 {
    if increase {
        let up = if refresh_ms + REFRESH_STEP_MS > u64::MAX {
            u64::MAX
        } else {
            (refresh_ms + REFRESH_STEP_MS) as u64
        };
        if up > MAX_REFRESH_MS {
            MAX_REFRESH_MS
        } else {
            up
        }
    } else {
        let down = if refresh_ms >= REFRESH_STEP_MS {
            (refresh_ms - REFRESH_STEP_MS) as u64
        } else {
            0
        };
        if down < MIN_REFRESH_MS {
            MIN_REFRESH_MS
        } else {
            down
        }
    }
}

/// The refresh interval stays between 100 ms and 10 s whatever is pressed:
/// `+` never shortens it, `-` never lengthens it, and within the range each
/// press moves it by exactly one step unless a bound stops it.
pub proof fn law_refresh_stays_in_range(refresh_ms: u64, increase: bool)
    requires
        MIN_REFRESH_MS <= refresh_ms <= MAX_REFRESH_MS,
    ensures
        MIN_REFRESH_MS <= changed_refresh(refresh_ms, increase) <= MAX_REFRESH_MS,
        increase ==> changed_refresh(refresh_ms, increase) >= refresh_ms,
        !increase ==> changed_refresh(refresh_ms, increase) <= refresh_ms,
        increase && refresh_ms + REFRESH_STEP_MS <= MAX_REFRESH_MS ==> changed_refresh(
            refresh_ms,
            increase,
        ) == refresh_ms + REFRESH_STEP_MS,
        !increase && refresh_ms >= MIN_REFRESH_MS + REFRESH_STEP_MS ==> changed_refresh(
            refresh_ms,
            increase,
        ) == refresh_ms - REFRESH_STEP_MS,
{
}

/// Apply one refresh-control press to `refresh_ms` and return the new value
/// (which the caller publishes to the workers).
pub fn change_refresh(refresh_ms: &mut u64, increase: bool) -> (r: u64)
    ensures
        *final(refresh_ms) == changed_refresh(*old(refresh_ms), increase),
        r == *final(refresh_ms),
{
    let v = *refresh_ms;
    let next = if increase {
        let up = v.saturating_add(REFRESH_STEP_MS);
        if up > MAX_REFRESH_MS {
            MAX_REFRESH_MS
        } else {
            up
        }
    } else {
        let down = v.saturating_sub(REFRESH_STEP_MS);
        if down < MIN_REFRESH_MS {
            MIN_REFRESH_MS
        } else {
            down
        }
    };
    *refresh_ms = next;
    next
}

/// The length of the next worker cycle in milliseconds: the live refresh
/// value clamped to `[min_ms, MAX_REFRESH_MS]`, so a fast UI refresh cannot
/// drive a slower worker below its own floor.
pub fn next_cycle_target(refresh_ms: u64, min_ms: u64) -> (r: u64)
    requires
        min_ms <= MAX_REFRESH_MS,
    ensures
        r == (if refresh_ms < min_ms {
            min_ms
        } else if refresh_ms > MAX_REFRESH_MS {
            MAX_REFRESH_MS
        } else {
            refresh_ms
        }),
{
    if refresh_ms < min_ms {
        min_ms
    } else if refresh_ms > MAX_REFRESH_MS {
        MAX_REFRESH_MS
    } else {
        refresh_ms
    }
}

// ---------------------------------------------------------------------------
// Stable process metadata
// ---------------------------------------------------------------------------

/// Stable metadata of one process instance.
#[derive(Clone, Debug, PartialEq, Eq)]
pub struct CachedProcess {
    pub program: String,
    pub command: String,
    pub threads: usize,
}

/// Abstract value of a cache entry: identity, program, command, threads.
pub type CacheEntry = (ProcessIdentity, Seq<char>, Seq<char>, usize);

/// Cached stable process metadata, keyed by [`ProcessIdentity`].
///
/// The kernel recycles PIDs, so identity is `pid + start_time`. Once a
/// process has been seen, its stable metadata (program name, executable
/// path, thread count) is reused; only the dynamic counters are resampled.
/// The thread count comes from `/proc/<pid>/status`, the expensive read, so
/// it is read once per process instance.
pub struct ProcessCache {
    entries: Vec<(ProcessIdentity, CachedProcess)>,
}

pub open spec fn entry_view(e: (ProcessIdentity, CachedProcess)) -> CacheEntry {
    (e.0, e.1.program@, e.1.command@, e.1.threads)
}

pub open spec fn identities_unique(es: Seq<CacheEntry>) -> bool {
    forall|i: int, j: int| 0 <= i < j < es.len() ==> (#[trigger] es[i]).0 != (#[trigger] es[j]).0
}

/// The thread count that `/proc/<pid>/status` reports: the first
/// `Threads:` line whose value parses.
pub open spec fn threads_in(ls: Seq<Seq<char>>) -> Option<usize>
    decreases ls.len(),
{
    if ls.len() == 0 {
        None
    } else {
        let l = ls[0];
        if starts_with(l, "Threads:"@) && parse_uint(trim(l.skip(8)), usize::MAX as nat) is Some {
            Some(parse_uint(trim(l.skip(8)), usize::MAX as nat)->0 as usize)
        } else {
            threads_in(ls.drop_first())
        }
    }
}

/// `/proc/<pid>/status`.
pub open spec fn status_path(pid: u32) -> Seq<char> {
    "/proc/"@ + dec_repr(pid as nat) + "/status"@
}

/// Thread count of process `pid`, when its status file says.
pub open spec fn thread_count_spec<S: Sys>(sys: &S, pid: u32) -> Option<usize> {
    match sys.spec_file(status_path(pid)) {
        Some(t) => threads_in(lines(t)),
        None => None,
    }
}

pub fn read_process_thread_count<S: Sys>(sys: &S, pid: u32) -> (r: Option<usize>)
    ensures
        r == thread_count_spec(sys, pid),
{
    let mut p = chars_of("/proc/");
    crate::text::push_dec(&mut p, pid as u64);
    crate::text::append_str(&mut p, "/status");
    assert(p@ =~= status_path(pid));
    let path = string_of(p.as_slice());
    let text = match sys.read_to_string(path.as_str()) {
        Some(t) => t,
        None => return None,
    };
    let tv = chars_of(text.as_str());
    let ls = lines_of(&tv);
    let ghost lv = lines(text@);
    let mut i: usize = 0;
    assert(lv.skip(0) =~= lv);
    proof {
        reveal_strlit("Threads:");
    }
    while i < ls.len()
        invariant
            i <= ls@.len(),
            ls@.len() == lv.len(),
            lv == lines(text@),
            sys.spec_file(status_path(pid)) == Some(text@),
            forall|k: int| 0 <= k < ls@.len() ==> #[trigger] ls@[k]@ == lv[k],
            threads_in(lv) == threads_in(lv.skip(i as int)),
        decreases ls@.len() - i,
    {
        let ghost rest = lv.skip(i as int);
        assert(rest[0] == ls@[i as int]@);
        assert(rest.drop_first() =~= lv.skip(i + 1));
        proof {
            reveal_strlit("Threads:");
        }
        let l = &ls[i];
        if starts_with_str(l.as_slice(), "Threads:") {
            let v = slice_vec(l, 8, l.len());
            assert(v@ =~= l@.skip(8));
            let t = trim_vec(&v);
            if let Some(n) = parse_uint_vec(t.as_slice(), usize::MAX as u64) {
                return Some(n as usize);
            }
        }
        i = i + 1;
    }
    None
}

impl ProcessCache {
    pub closed spec fn model(&self) -> Seq<CacheEntry> {
        self.entries@.map_values(|e: (ProcessIdentity, CachedProcess)| entry_view(e))
    }

    /// Each identity occurs at most once.
    pub closed spec fn wf(&self) -> bool {
        identities_unique(self.model())
    }

    pub fn new() -> (r: Self)
        ensures
            r.model() == Seq::<CacheEntry>::empty(),
            r.wf(),
    {
        let r = ProcessCache { entries: Vec::new() };
        assert(r.model() =~= Seq::<CacheEntry>::empty());
        r
    }

    /// Number of cached process instances.
    pub fn len(&self) -> (r: usize)
        ensures
            r == self.model().len(),
    {
        self.entries.len()
    }

    /// Stable metadata of `identity`: the cached entry when the instance was
    /// seen before, else `program` and `command` as given with the thread
    /// count from its status file (1 when unknown), which is then cached.
    pub fn stable<S: Sys>(&mut self, sys: &S, identity: ProcessIdentity, program: &str, command: &str) -> (r: (String, String, usize))
        requires
            old(self).wf(),
        ensures
            final(self).wf(),
            match cache_lookup(old(self).model(), identity) {
                Some(e) => (r.0@, r.1@, r.2) == (e.1, e.2, e.3) && final(self).model() == old(self).model(),
                None => {
                    let threads = match thread_count_spec(sys, identity.pid) {
                        Some(n) => n,
                        None => 1usize,
                    };
                    &&& (r.0@, r.1@, r.2) == (program@, command@, threads)
                    &&& final(self).model() == old(self).model().push((identity, program@, command@, threads))
                },
            },
    {
        let ghost m = self.model();
        proof {
            lemma_lookup_props(m, identity);
        }
        for i in 0..self.entries.len()
            invariant
                m == self.model(),
                m == old(self).model(),
                identities_unique(m),
                self.entries@.len() == m.len(),
                forall|j: int| 0 <= j < i ==> (#[trigger] m[j]).0 != identity,
        {
            let e = &self.entries[i];
            assert(m[i as int] == entry_view(self.entries@[i as int]));
            if e.0.pid == identity.pid && e.0.start_time == identity.start_time {
                proof {
                    lemma_lookup_props(m, identity);
                    lemma_lookup_first(m, identity, i as int);
                }
                return (e.1.program.clone(), e.1.command.clone(), e.1.threads);
            }
        }
        proof {
            lemma_lookup_props(m, identity);
        }
        let threads = match read_process_thread_count(sys, identity.pid) {
            Some(n) => n,
            None => 1,
        };
        let entry = CachedProcess {
            program: program.to_string(),
            command: command.to_string(),
            threads,
        };
        self.entries.push((identity, entry));
        assert(self.model() =~= m.push((identity, program@, command@, threads)));
        (program.to_string(), command.to_string(), threads)
    }

    /// Drop entries for identities that no longer exist (exited processes).
    pub fn retain(&mut self, live: &[ProcessIdentity])
        requires
            old(self).wf(),
        ensures
            final(self).wf(),
            final(self).model() == old(self).model().filter(|e: CacheEntry| live@.contains(e.0)),
    {
        let ghost m = self.model();
        let mut kept: Vec<(ProcessIdentity, CachedProcess)> = Vec::new();
        let n = self.entries.len();
        let mut i: usize = 0;
        while i < n
            invariant
                n == self.entries@.len(),
                m == self.model(),
                i <= n,
                kept@.map_values(|e: (ProcessIdentity, CachedProcess)| entry_view(e)) == m.take(
                    i as int,
                ).filter(|e: CacheEntry| live@.contains(e.0)),
            decreases n - i,
        {
            let id = self.entries[i].0;
            let mut alive = false;
            for k in 0..live.len()
                invariant
                    alive == live@.take(k as int).contains(id),
            {
                proof {
                    let t = live@.take(k + 1);
                    let p = live@.take(k as int);
                    assert(t =~= p.push(live@[k as int]));
                    if p.contains(id) {
                        let w = choose|w: int| 0 <= w < p.len() && p[w] == id;
                        assert(t[w] == id);
                    }
                    if t.contains(id) && live@[k as int] != id {
                        let w = choose|w: int| 0 <= w < t.len() && t[w] == id;
                        assert(p[w] == id);
                    }
                    if live@[k as int] == id {
                        assert(t[k as int] == id);
                    }
                }
                if live[k].pid == id.pid && live[k].start_time == id.start_time {
                    alive = true;
                }
            }
            assert(live@.take(live@.len() as int) =~= live@);
            let ghost before = kept@;
            proof {
                let t = m.take(i + 1);
                assert(t.drop_last() =~= m.take(i as int));
                assert(t.last() == entry_view(self.entries@[i as int]));
            }
            if alive {
                let e = &self.entries[i];
                let copy = (e.0, CachedProcess { program: e.1.program.clone(), command: e.1.command.clone(), threads: e.1.threads });
                kept.push(copy);
                assert(kept@.map_values(|e: (ProcessIdentity, CachedProcess)| entry_view(e)) =~= before.map_values(
                    |e: (ProcessIdentity, CachedProcess)| entry_view(e),
                ).push(entry_view(self.entries@[i as int])));
            }
            proof {
                let t = m.take(i + 1);
                let f = |e: CacheEntry| live@.contains(e.0);
                assert(t =~= m.take(i as int).push(m[i as int]));
                reveal(Seq::filter);
                assert(t.drop_last() =~= m.take(i as int));
            }
            i = i + 1;
        }
        assert(m.take(n as int) =~= m);
        proof {
            lemma_filter_keeps_unique(m, live@);
        }
        self.entries = kept;
    }
}

/// The cached entry of `identity`, if any.
pub open spec fn cache_lookup(m: Seq<CacheEntry>, identity: ProcessIdentity) -> Option<CacheEntry>
    decreases m.len(),
{
    if m.len() == 0 {
        None
    } else if m[0].0 == identity {
        Some(m[0])
    } else {
        cache_lookup(m.drop_first(), identity)
    }
}

proof fn lemma_lookup_props(m: Seq<CacheEntry>, identity: ProcessIdentity)
    ensures
        cache_lookup(m, identity) is None <==> forall|j: int| 0 <= j < m.len() ==> (#[trigger] m[j]).0 != identity,
    decreases m.len(),
{
    if m.len() > 0 {
        lemma_lookup_props(m.drop_first(), identity);
        assert forall|j: int| 0 < j < m.len() implies m[j] == m.drop_first()[j - 1] by {}
        if cache_lookup(m.drop_first(), identity) is Some && m[0].0 != identity {
            let j = choose|j: int| 0 <= j < m.drop_first().len() && (#[trigger] m.drop_first()[j]).0 == identity;
            assert(m[j + 1].0 == identity);
        }
    }
}

proof fn lemma_lookup_first(m: Seq<CacheEntry>, identity: ProcessIdentity, i: int)
    requires
        0 <= i < m.len(),
        m[i].0 == identity,
        forall|j: int| 0 <= j < i ==> (#[trigger] m[j]).0 != identity,
    ensures
        cache_lookup(m, identity) == Some(m[i]),
    decreases m.len(),
{
    if i > 0 {
        let t = m.drop_first();
        assert forall|j: int| 0 <= j < i - 1 implies (#[trigger] t[j]).0 != identity by {
            assert(t[j] == m[j + 1]);
        }
        assert(t[i - 1] == m[i]);
        lemma_lookup_first(t, identity, i - 1);
    }
}

proof fn lemma_lookup_push(m: Seq<CacheEntry>, e: CacheEntry, k: ProcessIdentity)
    ensures
        cache_lookup(m.push(e), k) == (match cache_lookup(m, k) {
            Some(x) => Some(x),
            None => if e.0 == k {
                Some(e)
            } else {
                None
            },
        }),
    decreases m.len(),
{
    let n = m.push(e);
    if m.len() > 0 {
        assert(n[0] == m[0]);
        assert(n.drop_first() =~= m.drop_first().push(e));
        lemma_lookup_push(m.drop_first(), e, k);
    } else {
        assert(n[0] == e);
        assert(n.drop_first() =~= Seq::<CacheEntry>::empty());
        assert(cache_lookup(n.drop_first(), k) is None);
    }
}

/// Once a process instance is cached, looking it up again gives the
/// metadata of its first sighting, whatever is seen later; caching one
/// instance leaves what every other instance looks up.
pub proof fn law_cache_keeps_first_sighting(
    m: Seq<CacheEntry>,
    e: CacheEntry,
    other: ProcessIdentity,
)
    requires
        cache_lookup(m, e.0) is None,
    ensures
        cache_lookup(m.push(e), e.0) == Some(e),
        other != e.0 ==> cache_lookup(m.push(e), other) == cache_lookup(m, other),
{
    lemma_lookup_push(m, e, e.0);
    lemma_lookup_push(m, e, other);
}

proof fn lemma_filter_keeps_unique(m: Seq<CacheEntry>, live: Seq<ProcessIdentity>)
    requires
        identities_unique(m),
    ensures
        identities_unique(m.filter(|e: CacheEntry| live.contains(e.0))),
    decreases m.len(),
{
    let f = |e: CacheEntry| live.contains(e.0);
    if m.len() > 0 {
        let t = m.drop_last();
        assert(identities_unique(t)) by {
            assert forall|i: int, j: int| 0 <= i < j < t.len() implies (#[trigger] t[i]).0 != (#[trigger] t[j]).0 by {
                assert(t[i] == m[i] && t[j] == m[j]);
            }
        }
        lemma_filter_keeps_unique(t, live);
        assert(m =~= t.push(m.last()));
        reveal(Seq::filter);
        let ft = t.filter(f);
        if f(m.last()) {
            let r = ft.push(m.last());
            assert forall|i: int, j: int| 0 <= i < j < r.len() implies (#[trigger] r[i]).0 != (#[trigger] r[j]).0 by {
                if j == ft.len() {
                    assert(ft.contains(r[i]));
                    t.lemma_filter_contains_rev(f, r[i]);
                    let k = choose|k: int| 0 <= k < t.len() && t[k] == r[i];
                    assert(m[k] == t[k]);
                }
            }
        }
    }
}

impl Default for ProcessCache {
    fn default() -> (r: Self)
        ensures
            r.model() == Seq::<CacheEntry>::empty(),
            r.wf(),
    {
        ProcessCache::new()
    }
}

// ---------------------------------------------------------------------------
// CPU time counters
// ---------------------------------------------------------------------------

/// Jiffy counters of the aggregate `cpu` line of `/proc/stat`.
#[derive(Copy, Clone, Debug, PartialEq, Eq)]
pub struct CpuTimes {
    pub total: u64,
    pub io_wait: u64,
}

/// The first line that starts with `cpu `.
pub open spec fn cpu_line(ls: Seq<Seq<char>>) -> Option<Seq<char>>
    decreases ls.len(),
{
    if ls.len() == 0 {
        None
    } else if starts_with(ls[0], "cpu "@) {
        Some(ls[0])
    } else {
        cpu_line(ls.drop_first())
    }
}

/// The tokens after the label.
pub open spec fn after_label(ts: Seq<Seq<char>>) -> Seq<Seq<char>> {
    if ts.len() > 0 {
        ts.skip(1)
    } else {
        Seq::<Seq<char>>::empty()
    }
}

pub open spec fn at_most_eight(n: nat) -> int {
    if n < 8 {
        n as int
    } else {
        8
    }
}

/// The (up to eight) counter tokens after the `cpu` label.
pub open spec fn counter_tokens(line: Seq<char>) -> Seq<Seq<char>> {
    after_label(tokens(line)).take(at_most_eight(after_label(tokens(line)).len()))
}

/// Up to eight counters after the `cpu` label, each a `u64`.
pub open spec fn cpu_fields(line: Seq<char>) -> Option<Seq<u64>> {
    let fs = counter_tokens(line);
    if forall|i: int| 0 <= i < fs.len() ==> parse_uint(#[trigger] fs[i], u64::MAX as nat) is Some {
        Some(fs.map_values(|t: Seq<char>| parse_uint(t, u64::MAX as nat)->0 as u64))
    } else {
        None
    }
}

pub open spec fn seq_sum(s: Seq<u64>) -> int
    decreases s.len(),
{
    if s.len() == 0 {
        0
    } else {
        seq_sum(s.drop_last()) + s.last()
    }
}

/// The counters of the `cpu` line: at least five (`iowait` is the fifth).
pub open spec fn cpu_times_fields(text: Seq<char>) -> Option<Seq<u64>> {
    match cpu_line(lines(text)) {
        Some(l) => match cpu_fields(l) {
            Some(vs) => if vs.len() >= 5 {
                Some(vs)
            } else {
                None
            },
            None => None,
        },
        None => None,
    }
}

/// The counters do not overflow a `u64` when summed.
pub open spec fn cpu_times_fit(text: Seq<char>) -> bool {
    match cpu_times_fields(text) {
        Some(vs) => seq_sum(vs) <= u64::MAX,
        None => true,
    }
}

fn cpu_fields_exec(text: &str) -> (r: Option<Vec<u64>>)
    ensures
        match r {
            Some(v) => cpu_times_fields(text@) == Some(v@),
            None => cpu_times_fields(text@) is None,
        },
{
    let tv = chars_of(text);
    let ls = lines_of(&tv);
    let ghost lv = lines(text@);
    let mut i: usize = 0;
    assert(lv.skip(0) =~= lv);
    proof {
        reveal_strlit("cpu ");
    }
    let mut found: Option<usize> = None;
    while i < ls.len()
        invariant_except_break
            found is None,
        invariant
            i <= ls@.len(),
            ls@.len() == lv.len(),
            lv == lines(text@),
            forall|k: int| 0 <= k < ls@.len() ==> #[trigger] ls@[k]@ == lv[k],
            cpu_line(lv) == cpu_line(lv.skip(i as int)),
        ensures
            match found {
                Some(k) => k < ls@.len() && cpu_line(lv) == Some(lv[k as int]),
                None => cpu_line(lv) is None,
            },
        decreases ls@.len() - i,
    {
        let ghost rest = lv.skip(i as int);
        assert(rest[0] == ls@[i as int]@);
        assert(rest.drop_first() =~= lv.skip(i + 1));
        proof {
            reveal_strlit("cpu ");
        }
        if starts_with_str(ls[i].as_slice(), "cpu ") {
            found = Some(i);
            break;
        }
        i = i + 1;
    }
    let k = match found {
        Some(k) => k,
        None => return None,
    };
    let line = &ls[k];
    assert(line@ == lv[k as int]);
    let ts = tokens_of(line);
    let ghost tsv = after_label(tokens(line@));
    let ghost fsv = counter_tokens(line@);
    let mut vals: Vec<u64> = Vec::new();
    let mut j: usize = 1;
    while j < ts.len() && j <= 8
        invariant
            1 <= j <= ts@.len() + 1,
            j <= 9,
            cpu_line(lines(text@)) == Some(line@),
            ts@.len() == tokens(line@).len(),
            forall|q: int| 0 <= q < ts@.len() ==> #[trigger] ts@[q]@ == tokens(line@)[q],
            tsv == after_label(tokens(line@)),
            fsv == counter_tokens(line@),
            ts@.len() >= 1 ==> j <= ts@.len(),
            vals@.len() == j - 1,
            forall|q: int| 0 <= q < j - 1 ==> parse_uint(#[trigger] tsv[q], u64::MAX as nat) is Some
                && vals@[q] == parse_uint(tsv[q], u64::MAX as nat)->0 as u64,
        decreases 9 - j,
    {
        assert(tsv[j - 1] == ts@[j as int]@);
        match parse_uint_vec(ts[j].as_slice(), u64::MAX) {
            Some(n) => vals.push(n),
            None => {
                proof {
                    assert(fsv[j - 1] == tsv[j - 1]);
                    assert(!(parse_uint(fsv[j - 1], u64::MAX as nat) is Some));
                }
                return None;
            },
        }
        j = j + 1;
    }
    proof {
        if ts@.len() == 0 {
            assert(tsv.len() == 0);
        }
        assert(fsv.len() == vals@.len());
        assert forall|q: int| 0 <= q < fsv.len() implies parse_uint(#[trigger] fsv[q], u64::MAX as nat) is Some by {
            assert(fsv[q] == tsv[q]);
        }
        assert(vals@ =~= fsv.map_values(|t: Seq<char>| parse_uint(t, u64::MAX as nat)->0 as u64));
    }
    if vals.len() < 5 {
        return None;
    }
    Some(vals)
}

/// Whether the counters of `text` can be summed without overflow.
pub fn cpu_times_fit_exec(text: &str) -> (r: bool)
    ensures
        r == cpu_times_fit(text@),
{
    match cpu_fields_exec(text) {
        Some(vals) => {
            let mut total: u128 = 0;
            for i in 0..vals.len()
                invariant
                    total == seq_sum(vals@.take(i as int)),
                    total <= i * 0xffff_ffff_ffff_ffff,
                    vals@.len() <= 8,
            {
                assert(vals@.take(i + 1).drop_last() =~= vals@.take(i as int));
                total = total + vals[i] as u128;
            }
            assert(vals@.take(vals@.len() as int) =~= vals@);
            total <= u64::MAX as u128
        },
        None => true,
    }
}

/// The aggregate counters of `/proc/stat` text: the sum of (up to eight)
/// counters of the `cpu` line and its fifth counter, `iowait`.
pub fn parse_cpu_times(text: &str) -> (r: Option<CpuTimes>)
    requires
        cpu_times_fit(text@),
    ensures
        match cpu_times_fields(text@) {
            Some(vs) => r == Some(CpuTimes { total: seq_sum(vs) as u64, io_wait: vs[4] }),
            None => r is None,
        },
{
    let vals = match cpu_fields_exec(text) {
        Some(v) => v,
        None => return None,
    };
    let mut total: u64 = 0;
    for i in 0..vals.len()
        invariant
            total == seq_sum(vals@.take(i as int)),
            seq_sum(vals@) <= u64::MAX,
            vals@ == cpu_times_fields(text@)->0,
    {
        assert(vals@.take(i + 1).drop_last() =~= vals@.take(i as int));
        proof {
            lemma_sum_prefix(vals@, i + 1);
        }
        total = total + vals[i];
    }
    assert(vals@.take(vals@.len() as int) =~= vals@);
    Some(CpuTimes { total, io_wait: vals[4] })
}

proof fn lemma_sum_prefix(s: Seq<u64>, k: int)
    requires
        0 <= k <= s.len(),
    ensures
        seq_sum(s.take(k)) <= seq_sum(s),
    decreases s.len() - k,
{
    if k < s.len() {
        lemma_sum_prefix(s, k + 1);
        assert(s.take(k + 1).drop_last() =~= s.take(k));
    } else {
        assert(s.take(k) =~= s);
    }
}

/// `a - b`, or 0 when `b` is larger.
pub open spec fn sat_sub64(a: u64, b: u64) -> u64 {
    if a >= b {
        (a - b) as u64
    } else {
        0
    }
}

/// Share of the elapsed jiffies spent waiting on I/O between two readings,
/// as the fraction `(io_wait delta, total delta)`; `None` when no time
/// passed. A counter that went backwards counts as no progress.
pub open spec fn io_wait_spec(previous: CpuTimes, current: CpuTimes) -> Option<(u64, u64)> {
    let total = sat_sub64(current.total, previous.total);
    if total == 0 {
        None
    } else {
        Some((sat_sub64(current.io_wait, previous.io_wait), total))
    }
}

pub fn io_wait_fraction(previous: CpuTimes, current: CpuTimes) -> (r: Option<(u64, u64)>)
    ensures
        r == io_wait_spec(previous, current),
{
    let total = current.total.saturating_sub(previous.total);
    if total == 0 {
        None
    } else {
        Some((current.io_wait.saturating_sub(previous.io_wait), total))
    }
}

// ---------------------------------------------------------------------------
// Failed llama.cpp polls
// ---------------------------------------------------------------------------

/// What the dashboard shows after one poll of the llama.cpp server.
#[derive(Copy, Clone, Debug, PartialEq, Eq, Structural)]
pub enum LlmSampleAction {
    /// The poll succeeded: show it and keep it as the last good sample.
    Fresh,
    /// A transient failure within the grace period: keep showing the last
    /// good sample, marked as reconnecting.
    Hold,
    /// Show the failed poll as it is.
    Pass,
}

/// Errors that retrying cannot fix: metrics switched off on the server, or
/// no HTTP client. Matched without regard to ASCII case.
pub open spec fn hard_failure_spec(error: Seq<char>) -> bool {
    let e = to_lower(error);
    contains(e, "metrics disabled"@) || contains(e, "--metrics"@) || contains(e, "http 501"@)
        || contains(e, "failed to initialize http client"@)
}

pub fn is_hard_llm_failure(error: &str) -> (r: bool)
    ensures
        r == hard_failure_spec(error@),
{
    let e = to_lower_vec(chars_of(error).as_slice());
    contains_str(e.as_slice(), "metrics disabled") || contains_str(e.as_slice(), "--metrics")
        || contains_str(e.as_slice(), "http 501") || contains_str(
        e.as_slice(),
        "failed to initialize http client",
    )
}

pub open spec fn llm_action_spec(
    connected: bool,
    error: Seq<char>,
    last_good_at_ms: Option<u64>,
    now_ms: u64,
    grace_ms: u64,
) -> LlmSampleAction {
    if connected {
        LlmSampleAction::Fresh
    } else if !hard_failure_spec(error) && last_good_at_ms is Some && sat_sub64(
        now_ms,
        last_good_at_ms->0,
    ) <= grace_ms {
        LlmSampleAction::Hold
    } else {
        LlmSampleAction::Pass
    }
}

/// Decide how a poll is shown, given when (ms) the last good sample was
/// taken, if ever, and the offline grace period.
/// A successful poll is always shown fresh. A failed one is held behind the
/// last good sample only while that sample is within the grace period and
/// the error is one that retrying can fix: an error that mentions (in any
/// case) disabled metrics, the `--metrics` flag, HTTP 501 or a client that
/// could not be set up is shown at once.
pub proof fn law_failed_poll_held_only_when_retryable(
    connected: bool,
    error: Seq<char>,
    last_good_at_ms: Option<u64>,
    now_ms: u64,
    grace_ms: u64,
)
    ensures
        connected ==> llm_action_spec(connected, error, last_good_at_ms, now_ms, grace_ms)
            == LlmSampleAction::Fresh,
        !connected && (contains(to_lower(error), "metrics disabled"@) || contains(to_lower(error), "--metrics"@)
            || contains(to_lower(error), "http 501"@) || contains(
            to_lower(error),
            "failed to initialize http client"@,
        )) ==> llm_action_spec(connected, error, last_good_at_ms, now_ms, grace_ms) == LlmSampleAction::Pass,
        !connected && !(contains(to_lower(error), "metrics disabled"@) || contains(to_lower(error), "--metrics"@)
            || contains(to_lower(error), "http 501"@) || contains(
            to_lower(error),
            "failed to initialize http client"@,
        )) ==> llm_action_spec(connected, error, last_good_at_ms, now_ms, grace_ms) == if last_good_at_ms is Some
            && (if now_ms >= last_good_at_ms->0 {
            now_ms - last_good_at_ms->0
        } else {
            0int
        }) <= grace_ms {
            LlmSampleAction::Hold
        } else {
            LlmSampleAction::Pass
        },
{
}

pub fn llm_sample_action(
    connected: bool,
    error: &str,
    last_good_at_ms: Option<u64>,
    now_ms: u64,
    grace_ms: u64,
) -> (r: LlmSampleAction)
    ensures
        r == llm_action_spec(connected, error@, last_good_at_ms, now_ms, grace_ms),
{
    if connected {
        return LlmSampleAction::Fresh;
    }
    if is_hard_llm_failure(error) {
        return LlmSampleAction::Pass;
    }
    match last_good_at_ms {
        Some(at) if now_ms.saturating_sub(at) <= grace_ms => LlmSampleAction::Hold,
        _ => LlmSampleAction::Pass,
    }
}

// ---------------------------------------------------------------------------
// Keyboard
// ---------------------------------------------------------------------------

/// The keys the dashboard tells apart.
#[derive(Copy, Clone, Debug, PartialEq, Eq, Structural)]
pub enum DashboardKey {
    Up,
    Down,
    PageUp,
    PageDown,
    Home,
    End,
    Esc,
    Char(char),
    Other,
}

/// How a key event came: pressed, repeated while held, or released.
#[derive(Copy, Clone, Debug, PartialEq, Eq, Structural)]
pub enum KeyKind {
    Press,
    Repeat,
    Release,
}

/// What a key event does to the dashboard.
#[derive(Copy, Clone, Debug, PartialEq, Eq, Structural)]
pub enum KeyAction {
    Nothing,
    /// Leave the dashboard.
    Quit,
    ToggleHelp,
    CloseHelp,
    /// Step the refresh interval: up (slower) when `true`.
    StepRefresh(bool),
    /// Move the process selection by this many rows.
    MoveSelection(isize),
    ProcessHome,
    ProcessEnd,
}

/// Selection moves of the navigation keys: `k`/`j` as the arrows, a page
/// being ten rows.
pub open spec fn selection_move(key: DashboardKey) -> Option<isize> {
    match key {
        DashboardKey::Up | DashboardKey::Char('k') => Some(-1isize),
        DashboardKey::Down | DashboardKey::Char('j') => Some(1isize),
        DashboardKey::PageUp => Some(-10isize),
        DashboardKey::PageDown => Some(10isize),
        _ => None,
    }
}

/// The key bindings. A held key repeats only the selection moves, and not
/// while help is open. A press of `h` toggles help; while help is open
/// `Esc` closes it and every other key does nothing. Otherwise `Esc` quits,
/// `-`/`[` and `+`/`=`/`]` step the refresh interval down and up, the
/// navigation keys move the selection and `Home`/`End` jump to the first
/// and last process. Releases do nothing.
pub open spec fn key_action_spec(key: DashboardKey, kind: KeyKind, help_open: bool) -> KeyAction {
    match kind {
        KeyKind::Repeat => if help_open {
            KeyAction::Nothing
        } else {
            match selection_move(key) {
                Some(d) => KeyAction::MoveSelection(d),
                None => KeyAction::Nothing,
            }
        },
        KeyKind::Press => if key == DashboardKey::Char('h') {
            KeyAction::ToggleHelp
        } else if help_open {
            if key == DashboardKey::Esc {
                KeyAction::CloseHelp
            } else {
                KeyAction::Nothing
            }
        } else if key == DashboardKey::Esc {
            KeyAction::Quit
        } else if key == DashboardKey::Char('-') || key == DashboardKey::Char('[') {
            KeyAction::StepRefresh(false)
        } else if key == DashboardKey::Char('+') || key == DashboardKey::Char('=') || key
            == DashboardKey::Char(']') {
            KeyAction::StepRefresh(true)
        } else if key == DashboardKey::Home {
            KeyAction::ProcessHome
        } else if key == DashboardKey::End {
            KeyAction::ProcessEnd
        } else {
            match selection_move(key) {
                Some(d) => KeyAction::MoveSelection(d),
                None => KeyAction::Nothing,
            }
        },
        KeyKind::Release => KeyAction::Nothing,
    }
}

fn selection_move_exec(key: DashboardKey) -> (r: Option<isize>)
    ensures
        r == selection_move(key),
{
    match key {
        DashboardKey::Up | DashboardKey::Char('k') => Some(-1),
        DashboardKey::Down | DashboardKey::Char('j') => Some(1),
        DashboardKey::PageUp => Some(-10),
        DashboardKey::PageDown => Some(10),
        _ => None,
    }
}

fn is_char(key: DashboardKey, c: char) -> (r: bool)
    ensures
        r == (key == DashboardKey::Char(c)),
{
    match key {
        DashboardKey::Char(k) => k == c,
        _ => false,
    }
}

/// What the key event does (see [`key_action_spec`]).
pub fn key_action(key: DashboardKey, kind: KeyKind, help_open: bool) -> (r: KeyAction)
    ensures
        r == key_action_spec(key, kind, help_open),
{
    let is_esc = match key {
        DashboardKey::Esc => true,
        _ => false,
    };
    match kind {
        KeyKind::Release => KeyAction::Nothing,
        KeyKind::Repeat => {
            if help_open {
                return KeyAction::Nothing;
            }
            match selection_move_exec(key) {
                Some(d) => KeyAction::MoveSelection(d),
                None => KeyAction::Nothing,
            }
        },
        KeyKind::Press => {
            if is_char(key, 'h') {
                KeyAction::ToggleHelp
            } else if help_open {
                if is_esc {
                    KeyAction::CloseHelp
                } else {
                    KeyAction::Nothing
                }
            } else if is_esc {
                KeyAction::Quit
            } else if is_char(key, '-') || is_char(key, '[') {
                KeyAction::StepRefresh(false)
            } else if is_char(key, '+') || is_char(key, '=') || is_char(key, ']') {
                KeyAction::StepRefresh(true)
            } else {
                match key {
                    DashboardKey::Home => KeyAction::ProcessHome,
                    DashboardKey::End => KeyAction::ProcessEnd,
                    _ => match selection_move_exec(key) {
                        Some(d) => KeyAction::MoveSelection(d),
                        None => KeyAction::Nothing,
                    },
                }
            }
        },
    }
}

// ---------------------------------------------------------------------------
// Sampling cadence
// ---------------------------------------------------------------------------

/// Host load and memory are sampled every quarter second.
pub const SYSTEM_REFRESH_MS: u64 = 250;

/// Temperature and power change slowly, and a power sample blocks for the
/// RAPL window, so they are read once a second.
pub const SENSOR_REFRESH_MS: u64 = 1_000;

/// Work last done at `last_ns` (never, when `None`) is due again at
/// `now_ns` once `interval_ms` have passed; a clock that seems to have gone
/// back counts as no time passed.
pub open spec fn due_spec(last_ns: Option<u64>, now_ns: u64, interval_ms: u64) -> bool {
    match last_ns {
        None => true,
        Some(t) => (if now_ns >= t {
            now_ns - t
        } else {
            0int
        }) >= interval_ms * 1_000_000,
    }
}

/// Whether work last done at `last_ns` is due at `now_ns` (see
/// [`due_spec`]).
pub fn is_due(last_ns: Option<u64>, now_ns: u64, interval_ms: u64) -> (r: bool)
    ensures
        r == due_spec(last_ns, now_ns, interval_ms),
{
    match last_ns {
        None => true,
        Some(t) => {
            let passed: u128 = if now_ns >= t {
                (now_ns - t) as u128
            } else {
                0
            };
            passed >= (interval_ms as u128) * 1_000_000
        },
    }
}

/// The process table's interval: the requested one, held to
/// [`MIN_PROCESS_REFRESH_MS`]..=[`MAX_PROCESS_REFRESH_MS`].
pub fn process_refresh_interval_ms(requested: u64) -> (r: u64)
    ensures
        r == clamp(requested, MIN_PROCESS_REFRESH_MS, MAX_PROCESS_REFRESH_MS),
{
    if requested < MIN_PROCESS_REFRESH_MS {
        MIN_PROCESS_REFRESH_MS
    } else if requested > MAX_PROCESS_REFRESH_MS {
        MAX_PROCESS_REFRESH_MS
    } else {
        requested
    }
}

} // verus!
