//! llama.cpp server discovery.
//!
//! A running `llama-server` / `llama serve` process is found by scanning
//! `/proc`. Discovery keeps *every* candidate endpoint (not just one) and
//! selects a single endpoint to monitor with a stable, documented rule —
//! **never by PID**. The remaining candidates stay available for selection
//! (pinning `server=`) and diagnostics.

use vstd::prelude::*;

use crate::discovery::strings_view;
use crate::order::{
    keyed_view, lemma_lex_asymmetric, lemma_lex_total, lemma_lex_transitive, lemma_sort_by_key_sorted,
    lemma_sort_by_key_permutes, lemma_sort_map, lemma_sort_members, lex_le, lex_lt, map_items,
    sort_by_key_spec,
    sort_values_by_key,
};
use crate::paths::{file_name, file_name_of, join_str, path_join};
use crate::system::{entries_view, EntryModel, Sys};
use crate::text::{
    append_chars, append_str, chars_of, contains, contains_str, dec_repr, eq_chars, find_last_char,
    join_with, last_index, parse_uint, parse_uint_vec, push_dec, slice_vec, split, split_of,
    starts_with, starts_with_vec, str_eq, string_of, trim, trim_str, vecs_view,
};

verus! {

/// Where a candidate endpoint came from.
#[derive(Clone, Debug, PartialEq, Eq)]
pub enum ServerSource {
    /// A running `llama-server` / `llama serve` process.
    Process { pid: u32 },
    /// The configured `server` setting or `--server` flag.
    Configured,
}

/// One candidate llama.cpp server endpoint.
#[derive(Clone, Debug, PartialEq, Eq)]
pub struct LlamaServerCandidate {
    /// Base URL to poll (scheme + host + port, no path).
    pub endpoint: String,
    /// Where this candidate came from.
    pub source: ServerSource,
    /// For process candidates: the command line that produced the endpoint.
    pub command: Option<String>,
}

/// Abstract value of a candidate: endpoint, source, command line.
pub type CandidateModel = (Seq<char>, ServerSource, Option<Seq<char>>);

impl View for LlamaServerCandidate {
    type V = CandidateModel;

    open spec fn view(&self) -> CandidateModel {
        (self.endpoint@, self.source, crate::domain::opt_view(self.command))
    }
}

pub open spec fn cands_view(cs: Seq<LlamaServerCandidate>) -> Seq<CandidateModel> {
    cs.map_values(|c: LlamaServerCandidate| c@)
}

fn copy_source(s: &ServerSource) -> (r: ServerSource)
    ensures
        r == *s,
{
    match s {
        ServerSource::Process { pid } => ServerSource::Process { pid: *pid },
        ServerSource::Configured => ServerSource::Configured,
    }
}

// ---------------------------------------------------------------------------
// Command lines
// ---------------------------------------------------------------------------

/// The non-empty pieces of `segs`.
pub open spec fn nonempty(segs: Seq<Seq<char>>) -> Seq<Seq<char>>
    decreases segs.len(),
{
    if segs.len() == 0 {
        seq![]
    } else if segs.last().len() == 0 {
        nonempty(segs.drop_last())
    } else {
        nonempty(segs.drop_last()).push(segs.last())
    }
}

/// Arguments of a NUL-separated `/proc/<pid>/cmdline`.
pub open spec fn cmdline_args(raw: Seq<char>) -> Seq<Seq<char>> {
    nonempty(split(raw, '\0'))
}

pub fn parse_cmdline(raw: &str) -> (r: Vec<String>)
    ensures
        strings_view(r@) == cmdline_args(raw@),
{
    let v = chars_of(raw);
    let segs = split_of(&v, '\0');
    let ghost sv = split(raw@, '\0');
    let mut out: Vec<String> = Vec::new();
    for i in 0..segs.len()
        invariant
            sv == split(raw@, '\0'),
            segs@.len() == sv.len(),
            forall|k: int| 0 <= k < segs@.len() ==> #[trigger] segs@[k]@ == sv[k],
            strings_view(out@) == nonempty(sv.take(i as int)),
    {
        let ghost pre = sv.take(i as int);
        let ghost nxt = sv.take(i + 1);
        assert(nxt.drop_last() =~= pre);
        assert(nxt.last() == segs@[i as int]@);
        if segs[i].len() > 0 {
            let ghost before = strings_view(out@);
            out.push(string_of(segs[i].as_slice()));
            assert(strings_view(out@) =~= before.push(segs@[i as int]@));
        }
    }
    assert(sv.take(segs@.len() as int) =~= sv);
    out
}

/// Name of the executable: the file name of the first argument.
pub open spec fn exe_name(args: Seq<Seq<char>>) -> Seq<char> {
    match file_name(args[0]) {
        Some(n) => n,
        None => args[0],
    }
}

/// A `llama-server` binary, or `llama serve`.
pub open spec fn is_llama_spec(args: Seq<Seq<char>>) -> bool {
    args.len() > 0 && (contains(exe_name(args), "llama-server"@) || (exe_name(args) == "llama"@
        && args.len() > 1 && args[1] == "serve"@))
}

fn exe_name_exec(first: &String) -> (r: Vec<char>)
    ensures
        r@ == (match file_name(first@) {
            Some(n) => n,
            None => first@,
        }),
{
    match file_name_of(first.as_str()) {
        Some(n) => n,
        None => chars_of(first.as_str()),
    }
}

/// Whether the command line is a llama.cpp server (`llama-server …` or
/// `llama serve …`).
pub fn is_llama_server_process(args: &[String]) -> (r: bool)
    ensures
        r == is_llama_spec(strings_view(args@)),
{
    if args.len() == 0 {
        return false;
    }
    let exe = exe_name_exec(&args[0]);
    assert(strings_view(args@)[0] == args@[0]@);
    if contains_str(exe.as_slice(), "llama-server") {
        return true;
    }
    proof {
        reveal_strlit("llama");
        reveal_strlit("serve");
    }
    if eq_chars(exe.as_slice(), chars_of("llama").as_slice()) && args.len() > 1 {
        assert(strings_view(args@)[1] == args@[1]@);
        return str_eq(args[1].as_str(), "serve");
    }
    false
}

/// Value of `flag` at or after argument `i`: the next argument after a bare
/// `flag`, or the text after `flag=`; the first occurrence decides.
pub open spec fn cli_from(args: Seq<Seq<char>>, flag: Seq<char>, i: int) -> Option<Seq<char>>
    decreases args.len() - i,
{
    if i < 0 || i >= args.len() {
        None
    } else if args[i] == flag {
        if i + 1 < args.len() {
            Some(args[i + 1])
        } else {
            None
        }
    } else if starts_with(args[i], flag + "="@) {
        Some(args[i].skip(flag.len() + 1int))
    } else {
        cli_from(args, flag, i + 1)
    }
}

pub open spec fn cli_value_spec(args: Seq<Seq<char>>, flag: Seq<char>) -> Option<Seq<char>> {
    cli_from(args, flag, 0)
}

/// The value given for `flag` (`--flag value` or `--flag=value`).
pub fn cli_value(args: &[String], flag: &str) -> (r: Option<String>)
    ensures
        crate::domain::opt_view(r) == cli_value_spec(strings_view(args@), flag@),
{
    let ghost av = strings_view(args@);
    let fv = chars_of(flag);
    let mut fe = chars_of(flag);
    fe.push('=');
    proof {
        reveal_strlit("=");
    }
    assert(fe@ =~= flag@ + "="@);
    let mut i: usize = 0;
    while i < args.len()
        invariant
            i <= args@.len(),
            av == strings_view(args@),
            fv@ == flag@,
            fe@ == flag@ + "="@,
            fe@.len() == flag@.len() + 1,
            cli_value_spec(av, flag@) == cli_from(av, flag@, i as int),
        decreases args@.len() - i,
    {
        let a = chars_of(args[i].as_str());
        assert(av[i as int] == a@);
        if eq_chars(a.as_slice(), fv.as_slice()) {
            if i + 1 < args.len() {
                assert(av[i + 1] == args@[i + 1]@);
                return Some(args[i + 1].clone());
            }
            return None;
        }
        if starts_with_vec(a.as_slice(), fe.as_slice()) {
            let rest = slice_vec(&a, fe.len(), a.len());
            assert(rest@ =~= a@.skip(flag@.len() + 1int));
            return Some(string_of(rest.as_slice()));
        }
        i = i + 1;
    }
    None
}

/// The address a client uses to reach a server bound to `host`: wildcard
/// binds are reached through loopback and IPv6 literals get brackets.
pub open spec fn connect_host_spec(host: Seq<char>) -> Seq<char> {
    let h = trim(host);
    if h.len() == 0 || h == "0.0.0.0"@ || h == "::"@ || h == "[::]"@ {
        "127.0.0.1"@
    } else if h == "::1"@ || h == "[::1]"@ {
        "[::1]"@
    } else if contains(h, ":"@) && !starts_with(h, "["@) {
        "["@ + h + "]"@
    } else {
        h
    }
}

pub fn connect_host(host: &str) -> (r: String)
    ensures
        r@ == connect_host_spec(host@),
{
    let h = trim_str(host);
    let hs = h.as_slice();
    proof {
        reveal_strlit("0.0.0.0");
        reveal_strlit("::");
        reveal_strlit("[::]");
        reveal_strlit("::1");
        reveal_strlit("[::1]");
        reveal_strlit("127.0.0.1");
        reveal_strlit(":");
        reveal_strlit("[");
        reveal_strlit("]");
    }
    if h.len() == 0 || eq_chars(hs, chars_of("0.0.0.0").as_slice()) || eq_chars(
        hs,
        chars_of("::").as_slice(),
    ) || eq_chars(hs, chars_of("[::]").as_slice()) {
        return "127.0.0.1".to_string();
    }
    if eq_chars(hs, chars_of("::1").as_slice()) || eq_chars(hs, chars_of("[::1]").as_slice()) {
        return "[::1]".to_string();
    }
    if contains_str(hs, ":") && !crate::text::starts_with_str(hs, "[") {
        let mut out: Vec<char> = Vec::new();
        out.push('[');
        append_chars(&mut out, hs);
        out.push(']');
        assert(out@ =~= "["@ + h@ + "]"@);
        return string_of(out.as_slice());
    }
    string_of(hs)
}

/// `http://<host>:<port>` from `--host` (default `127.0.0.1`) and `--port`
/// (default 8080 when absent or not a port number).
pub open spec fn endpoint_spec(args: Seq<Seq<char>>) -> Seq<char> {
    let host = match cli_value_spec(args, "--host"@) {
        Some(h) => h,
        None => "127.0.0.1"@,
    };
    let port: nat = match cli_value_spec(args, "--port"@) {
        Some(v) => match parse_uint(v, 65535) {
            Some(p) => p,
            None => 8080,
        },
        None => 8080,
    };
    "http://"@ + connect_host_spec(host) + ":"@ + dec_repr(port)
}

/// The endpoint a llama.cpp server command line listens on.
pub fn endpoint_from_args(args: &[String]) -> (r: String)
    ensures
        r@ == endpoint_spec(strings_view(args@)),
{
    let host = match cli_value(args, "--host") {
        Some(h) => h,
        None => "127.0.0.1".to_string(),
    };
    let port: u64 = match cli_value(args, "--port") {
        Some(v) => {
            let vv = chars_of(v.as_str());
            match parse_uint_vec(vv.as_slice(), 65535) {
                Some(p) => p,
                None => 8080,
            }
        },
        None => 8080,
    };
    let h = connect_host(host.as_str());
    let mut out = chars_of("http://");
    append_str(&mut out, h.as_str());
    append_str(&mut out, ":");
    push_dec(&mut out, port);
    string_of(out.as_slice())
}

/// Port of an endpoint: the number after the last `:`, else 0.
pub open spec fn parse_port_spec(endpoint: Seq<char>) -> u16 {
    match last_index(endpoint, ':') {
        Some(i) => match parse_uint(endpoint.skip(i + 1), 65535) {
            Some(p) => p as u16,
            None => 0,
        },
        None => 0,
    }
}

pub fn parse_port(endpoint: &str) -> (r: u16)
    ensures
        r == parse_port_spec(endpoint@),
{
    let v = chars_of(endpoint);
    proof {
        crate::text::lemma_last_index_props(v@, ':');
    }
    match find_last_char(v.as_slice(), ':') {
        Some(i) => {
            assert(i < v.len());
            let rest = slice_vec(&v, i + 1, v.len());
            assert(rest@ =~= v@.skip(i + 1));
            match parse_uint_vec(rest.as_slice(), 65535) {
                Some(p) => p as u16,
                None => 0,
            }
        },
        None => 0,
    }
}


// ---------------------------------------------------------------------------
// Scanning /proc
// ---------------------------------------------------------------------------

/// Effect of one `/proc` entry: a numeric directory whose command line is a
/// llama.cpp server adds a process candidate.
pub open spec fn proc_step<S: Sys>(sys: &S, acc: Seq<CandidateModel>, e: EntryModel) -> Seq<CandidateModel> {
    match parse_uint(e.0, u32::MAX as nat) {
        None => acc,
        Some(pid) => match sys.spec_file(path_join(path_join("/proc"@, e.0), "cmdline"@)) {
            None => acc,
            Some(raw) => {
                let args = cmdline_args(raw);
                if is_llama_spec(args) {
                    acc.push(
                        (
                            endpoint_spec(args),
                            ServerSource::Process { pid: pid as u32 },
                            Some(join_with(args, " "@)),
                        ),
                    )
                } else {
                    acc
                }
            },
        },
    }
}

pub open spec fn proc_scan<S: Sys>(sys: &S, es: Seq<EntryModel>) -> Seq<CandidateModel>
    decreases es.len(),
{
    if es.len() == 0 {
        seq![]
    } else {
        proc_step(sys, proc_scan(sys, es.drop_last()), es.last())
    }
}

/// Two characters whose order is the numeric order of `port`.
pub open spec fn port_prefix(port: u16) -> Seq<char> {
    seq![((port / 256) as u8) as char, ((port % 256) as u8) as char]
}

/// Sort key of a candidate: its port, then its endpoint.
pub open spec fn cand_key(c: CandidateModel) -> Seq<char> {
    port_prefix(parse_port_spec(c.0)) + c.0
}

/// Candidates ordered by port, then endpoint; ties keep scan order.
pub open spec fn sort_cands(cs: Seq<CandidateModel>) -> Seq<CandidateModel> {
    sort_by_key_spec(cs.map_values(|c: CandidateModel| (cand_key(c), c))).map_values(
        |p: (Seq<char>, CandidateModel)| p.1,
    )
}

/// Drop each candidate whose endpoint equals that of the one kept before it.
pub open spec fn dedupe(cs: Seq<CandidateModel>) -> Seq<CandidateModel>
    decreases cs.len(),
{
    if cs.len() == 0 {
        seq![]
    } else {
        let acc = dedupe(cs.drop_last());
        if acc.len() > 0 && acc.last().0 == cs.last().0 {
            acc
        } else {
            acc.push(cs.last())
        }
    }
}

/// Every llama.cpp server of `sys`, lowest port first, then by endpoint,
/// each endpoint once.
pub open spec fn discover_processes_spec<S: Sys>(sys: &S) -> Seq<CandidateModel> {
    match sys.spec_dir("/proc"@) {
        None => seq![],
        Some(es) => dedupe(sort_cands(proc_scan(sys, es))),
    }
}

fn join_args(args: &Vec<String>) -> (r: String)
    ensures
        r@ == join_with(strings_view(args@), " "@),
{
    let ghost av = strings_view(args@);
    let mut out: Vec<char> = Vec::new();
    for i in 0..args.len()
        invariant
            av == strings_view(args@),
            out@ == join_with(av.take(i as int), " "@),
    {
        let ghost pre = av.take(i as int);
        let ghost nxt = av.take(i + 1);
        assert(nxt.drop_last() =~= pre);
        assert(nxt.last() == args@[i as int]@);
        if i > 0 {
            append_str(&mut out, " ");
        } else {
            assert(nxt.len() == 1);
        }
        append_str(&mut out, args[i].as_str());
        assert(out@ =~= join_with(nxt, " "@));
    }
    assert(av.take(args@.len() as int) =~= av);
    string_of(out.as_slice())
}

fn cand_key_exec(c: &LlamaServerCandidate) -> (r: Vec<char>)
    ensures
        r@ == cand_key(c@),
{
    let port = parse_port(c.endpoint.as_str());
    let mut k: Vec<char> = Vec::new();
    k.push(((port / 256) as u8) as char);
    k.push(((port % 256) as u8) as char);
    append_str(&mut k, c.endpoint.as_str());
    assert(k@ =~= cand_key(c@));
    k
}

fn sort_candidates(cands: Vec<LlamaServerCandidate>) -> (r: Vec<LlamaServerCandidate>)
    ensures
        cands_view(r@) == sort_cands(cands_view(cands@)),
{
    let ghost cv = cands@;
    let ghost s_exec = cv.map_values(|c: LlamaServerCandidate| (cand_key(c@), c));
    let n = cands.len();
    let mut input = cands;
    let mut pairs: Vec<(Vec<char>, LlamaServerCandidate)> = Vec::new();
    let mut k: usize = 0;
    while input.len() > 0
        invariant
            n == cv.len() == k + input@.len(),
            s_exec == cv.map_values(|c: LlamaServerCandidate| (cand_key(c@), c)),
            input@ == cv.skip(k as int),
            keyed_view(pairs@) == s_exec.take(k as int),
        decreases input@.len(),
    {
        let ghost rest = input@;
        let c = input.remove(0);
        assert(rest[0] == cv[k as int]);
        assert(input@ =~= cv.skip(k + 1));
        let key = cand_key_exec(&c);
        let ghost before = keyed_view(pairs@);
        let ghost item = (key@, c);
        assert(s_exec[k as int] == item);
        pairs.push((key, c));
        assert(keyed_view(pairs@) =~= before.push(item));
        assert(keyed_view(pairs@) =~= s_exec.take(k + 1));
        k = k + 1;
    }
    assert(s_exec.take(k as int) =~= s_exec);
    let out = sort_values_by_key(pairs);
    proof {
        let f = |c: LlamaServerCandidate| c@;
        lemma_sort_map(s_exec, f);
        assert(map_items(s_exec, f) =~= cands_view(cv).map_values(|c: CandidateModel| (cand_key(c), c)));
        let sp = sort_by_key_spec(s_exec);
        assert(cands_view(out@) =~= sort_cands(cands_view(cv))) by {
            assert forall|i: int| 0 <= i < out@.len() implies #[trigger] cands_view(out@)[i] == sort_cands(cands_view(cv))[i] by {
                assert(out@[i] == sp[i].1);
                assert(map_items(sp, f)[i] == (sp[i].0, f(sp[i].1)));
            }
        }
    }
    out
}

fn dedupe_exec(cands: Vec<LlamaServerCandidate>) -> (r: Vec<LlamaServerCandidate>)
    ensures
        cands_view(r@) == dedupe(cands_view(cands@)),
{
    let ghost cv = cands_view(cands@);
    let n = cands.len();
    let mut input = cands;
    let mut out: Vec<LlamaServerCandidate> = Vec::new();
    let mut previous: Option<Vec<char>> = None;
    let mut k: usize = 0;
    while input.len() > 0
        invariant
            n == cv.len() == k + input@.len(),
            cands_view(input@) == cv.skip(k as int),
            cands_view(out@) == dedupe(cv.take(k as int)),
            match previous {
                Some(p) => out@.len() > 0 && p@ == out@.last().endpoint@,
                None => out@.len() == 0,
            },
        decreases input@.len(),
    {
        let ghost rest = input@;
        let c = input.remove(0);
        assert(cands_view(rest)[0] == cv[k as int]);
        assert(cands_view(input@) =~= cv.skip(k + 1)) by {
            assert(input@ =~= rest.drop_first());
            assert(cands_view(input@) =~= cands_view(rest).drop_first());
            assert(cv.skip(k as int).drop_first() =~= cv.skip(k + 1));
        }
        let ghost nxt = cv.take(k + 1);
        assert(nxt.drop_last() =~= cv.take(k as int));
        assert(nxt.last() == c@);
        let e = chars_of(c.endpoint.as_str());
        let same = match &previous {
            Some(p) => eq_chars(p.as_slice(), e.as_slice()),
            None => false,
        };
        if !same {
            let ghost before = cands_view(out@);
            previous = Some(e);
            out.push(c);
            assert(cands_view(out@) =~= before.push(c@));
        }
        k = k + 1;
    }
    assert(cv.take(k as int) =~= cv);
    out
}

/// Scan `/proc` for running llama.cpp servers and return every distinct
/// endpoint, deterministically ordered (lowest port first, then endpoint
/// string) — never by PID.
pub fn discover_processes<S: Sys>(sys: &S) -> (r: Vec<LlamaServerCandidate>)
    ensures
        cands_view(r@) == discover_processes_spec(sys),
{
    proof {
        reveal_strlit("/proc");
    }
    let entries = match sys.read_dir("/proc") {
        Some(es) => es,
        None => return Vec::new(),
    };
    let root = chars_of("/proc");
    let ghost ev = entries_view(entries@);
    let mut candidates: Vec<LlamaServerCandidate> = Vec::new();
    for i in 0..entries.len()
        invariant
            root@ == "/proc"@,
            ev == entries_view(entries@),
            cands_view(candidates@) == proc_scan(sys, ev.take(i as int)),
    {
        let ghost pre = ev.take(i as int);
        let ghost nxt = ev.take(i + 1);
        assert(nxt.drop_last() =~= pre);
        assert(nxt.last() == entries@[i as int]@);
        let name = chars_of(entries[i].name.as_str());
        if let Some(pid) = parse_uint_vec(name.as_slice(), 0xffff_ffff) {
            let dir = join_str(root.as_slice(), entries[i].name.as_str());
            let dv = chars_of(dir.as_str());
            let path = join_str(dv.as_slice(), "cmdline");
            if let Some(raw) = sys.read_to_string(path.as_str()) {
                let args = parse_cmdline(raw.as_str());
                if is_llama_server_process(args.as_slice()) {
                    let ghost before = cands_view(candidates@);
                    let c = LlamaServerCandidate {
                        endpoint: endpoint_from_args(args.as_slice()),
                        source: ServerSource::Process { pid: pid as u32 },
                        command: Some(join_args(&args)),
                    };
                    candidates.push(c);
                    assert(cands_view(candidates@) =~= before.push(c@));
                }
            }
        }
    }
    assert(ev.take(entries@.len() as int) =~= ev);
    let sorted = sort_candidates(candidates);
    dedupe_exec(sorted)
}

// ---------------------------------------------------------------------------
// Candidates and selection
// ---------------------------------------------------------------------------

pub open spec fn has_endpoint(cs: Seq<CandidateModel>, e: Seq<char>) -> bool {
    exists|i: int| 0 <= i < cs.len() && (#[trigger] cs[i]).0 == e
}

/// Discovered servers (when auto-discovery is on), then the configured
/// endpoint unless it is blank or already discovered.
pub open spec fn collect_spec<S: Sys>(sys: &S, auto_discovery: bool, configured: Option<Seq<char>>) -> Seq<CandidateModel> {
    let found = if auto_discovery {
        discover_processes_spec(sys)
    } else {
        seq![]
    };
    match configured {
        Some(e) => if trim(e).len() > 0 && !has_endpoint(found, trim(e)) {
            found.push((trim(e), ServerSource::Configured, None))
        } else {
            found
        },
        None => found,
    }
}

/// All candidate endpoints in display order: discovered servers first (when
/// auto-discovery is on), then the configured endpoint. The built-in default
/// is not a candidate; it is the fallback [`select_endpoint`] returns when
/// nothing else exists.
pub fn collect_candidates<S: Sys>(sys: &S, auto_discovery: bool, configured: Option<&str>) -> (r: Vec<LlamaServerCandidate>)
    ensures
        cands_view(r@) == collect_spec(
            sys,
            auto_discovery,
            match configured {
                Some(e) => Some(e@),
                None => None::<Seq<char>>,
            },
        ),
{
    let mut candidates = if auto_discovery {
        discover_processes(sys)
    } else {
        let v: Vec<LlamaServerCandidate> = Vec::new();
        assert(cands_view(v@) =~= Seq::<CandidateModel>::empty());
        v
    };
    if let Some(endpoint) = configured {
        let t = trim_str(endpoint);
        if t.len() > 0 {
            let ghost cv = cands_view(candidates@);
            let mut dup = false;
            for i in 0..candidates.len()
                invariant
                    cv == cands_view(candidates@),
                    dup == exists|j: int| 0 <= j < i && (#[trigger] cv[j]).0 == t@,
            {
                let e = chars_of(candidates[i].endpoint.as_str());
                assert(cv[i as int].0 == e@);
                if eq_chars(e.as_slice(), t.as_slice()) {
                    dup = true;
                }
            }
            if !dup {
                let c = LlamaServerCandidate {
                    endpoint: string_of(t.as_slice()),
                    source: ServerSource::Configured,
                    command: None,
                };
                candidates.push(c);
                assert(cands_view(candidates@) =~= cv.push(c@));
            }
        }
    }
    candidates
}

/// First configured candidate's endpoint.
pub open spec fn first_configured(cs: Seq<CandidateModel>) -> Option<Seq<char>>
    decreases cs.len(),
{
    if cs.len() == 0 {
        None
    } else if cs[0].1 is Configured {
        Some(cs[0].0)
    } else {
        first_configured(cs.drop_first())
    }
}

/// The endpoint to monitor: the first candidate when it is a discovered
/// process, else the first configured candidate, else `default`.
pub open spec fn select_spec(cs: Seq<CandidateModel>, default: Seq<char>) -> Seq<char> {
    if cs.len() > 0 && cs[0].1 is Process {
        cs[0].0
    } else {
        match first_configured(cs) {
            Some(e) => e,
            None => default,
        }
    }
}

/// The endpoint to monitor. Deterministic:
///
/// 1. auto-discovery found a server → the best discovered one (lowest port,
///    then endpoint; never by PID);
/// 2. else a configured endpoint (when present, non-empty);
/// 3. else `default`.
pub fn select_endpoint(candidates: &[LlamaServerCandidate], default: &str) -> (r: String)
    ensures
        r@ == select_spec(cands_view(candidates@), default@),
{
    let ghost cv = cands_view(candidates@);
    if candidates.len() > 0 {
        assert(cv[0] == candidates@[0]@);
        if let ServerSource::Process { .. } = candidates[0].source {
            return candidates[0].endpoint.clone();
        }
    }
    let mut i: usize = 0;
    assert(cv.skip(0) =~= cv);
    while i < candidates.len()
        invariant
            i <= candidates@.len(),
            cv == cands_view(candidates@),
            !(cv.len() > 0 && cv[0].1 is Process),
            first_configured(cv) == first_configured(cv.skip(i as int)),
        decreases candidates@.len() - i,
    {
        let ghost rest = cv.skip(i as int);
        assert(rest[0] == candidates@[i as int]@);
        if let ServerSource::Configured = candidates[i].source {
            return candidates[i].endpoint.clone();
        }
        assert(rest.drop_first() =~= cv.skip(i + 1));
        i = i + 1;
    }
    default.to_string()
}

/// PID of the process behind the first candidate with endpoint `e`, if it is
/// a process candidate.
pub open spec fn endpoint_pid(cs: Seq<CandidateModel>, e: Seq<char>) -> Option<u32>
    decreases cs.len(),
{
    if cs.len() == 0 {
        None
    } else if cs[0].0 == e {
        match cs[0].1 {
            ServerSource::Process { pid } => Some(pid),
            ServerSource::Configured => None,
        }
    } else {
        endpoint_pid(cs.drop_first(), e)
    }
}

/// The local process PID behind `selected_endpoint`, when that endpoint was
/// produced by a discovered process. Selection stays endpoint-based; the PID
/// is only a means of attributing the process to a GPU.
pub fn selected_endpoint_pid(candidates: &[LlamaServerCandidate], selected_endpoint: &str) -> (r: Option<u32>)
    ensures
        r == endpoint_pid(cands_view(candidates@), selected_endpoint@),
{
    let ghost cv = cands_view(candidates@);
    let sel = chars_of(selected_endpoint);
    let mut i: usize = 0;
    assert(cv.skip(0) =~= cv);
    while i < candidates.len()
        invariant
            i <= candidates@.len(),
            cv == cands_view(candidates@),
            sel@ == selected_endpoint@,
            endpoint_pid(cv, selected_endpoint@) == endpoint_pid(cv.skip(i as int), selected_endpoint@),
        decreases candidates@.len() - i,
    {
        let ghost rest = cv.skip(i as int);
        assert(rest[0] == candidates@[i as int]@);
        let e = chars_of(candidates[i].endpoint.as_str());
        if eq_chars(e.as_slice(), sel.as_slice()) {
            return match candidates[i].source {
                ServerSource::Process { pid } => Some(pid),
                ServerSource::Configured => None,
            };
        }
        assert(rest.drop_first() =~= cv.skip(i + 1));
        i = i + 1;
    }
    None
}


// ---------------------------------------------------------------------------
// Laws
// ---------------------------------------------------------------------------

pub open spec fn first_configured_same(c1: Seq<CandidateModel>, c2: Seq<CandidateModel>) -> bool {
    &&& c1.len() == c2.len()
    &&& forall|i: int|
        0 <= i < c1.len() ==> (#[trigger] c1[i]).0 == c2[i].0 && (c1[i].1 is Process) == (
        c2[i].1 is Process)
}

proof fn lemma_first_configured_same(c1: Seq<CandidateModel>, c2: Seq<CandidateModel>)
    requires
        first_configured_same(c1, c2),
    ensures
        first_configured(c1) == first_configured(c2),
    decreases c1.len(),
{
    if c1.len() > 0 {
        assert(c1[0].0 == c2[0].0);
        assert forall|i: int| 0 <= i < c1.len() - 1 implies (#[trigger] c1.drop_first()[i]).0 == c2.drop_first()[i].0
            && (c1.drop_first()[i].1 is Process) == (c2.drop_first()[i].1 is Process) by {
            assert(c1.drop_first()[i] == c1[i + 1]);
            assert(c2.drop_first()[i] == c2[i + 1]);
        }
        lemma_first_configured_same(c1.drop_first(), c2.drop_first());
    }
}

/// Selection never depends on PIDs: candidate lists that agree on every
/// endpoint and on which candidates are processes select the same endpoint.
pub proof fn law_selection_ignores_pids(c1: Seq<CandidateModel>, c2: Seq<CandidateModel>, default: Seq<char>)
    requires
        first_configured_same(c1, c2),
    ensures
        select_spec(c1, default) == select_spec(c2, default),
{
    lemma_first_configured_same(c1, c2);
    if c1.len() > 0 {
        assert(c1[0].0 == c2[0].0);
    }
}

proof fn lemma_port_prefix_order(p1: u16, e1: Seq<char>, p2: u16, e2: Seq<char>)
    requires
        lex_le(port_prefix(p1) + e1, port_prefix(p2) + e2),
    ensures
        p1 < p2 || (p1 == p2 && lex_le(e1, e2)),
{
    let k1 = port_prefix(p1) + e1;
    let k2 = port_prefix(p2) + e2;
    let h1 = ((p1 / 256) as u8) as char;
    let h2 = ((p2 / 256) as u8) as char;
    let l1 = ((p1 % 256) as u8) as char;
    let l2 = ((p2 % 256) as u8) as char;
    assert(k1[0] == h1 && k2[0] == h2);
    assert((h1 as int) == p1 / 256 && (h2 as int) == p2 / 256);
    assert((l1 as int) == p1 % 256 && (l2 as int) == p2 % 256);
    assert(k1.len() >= 2 && k2.len() >= 2);
    if h1 != h2 {
        assert(lex_lt(k2, k1) == ((h2 as int) < (h1 as int)));
    } else {
        assert(lex_lt(k2, k1) == lex_lt(k2.drop_first(), k1.drop_first()));
        let d1 = k1.drop_first();
        let d2 = k2.drop_first();
        assert(d1[0] == l1 && d2[0] == l2);
        if l1 != l2 {
            assert(lex_lt(d2, d1) == ((l2 as int) < (l1 as int)));
        } else {
            assert(lex_lt(d2, d1) == lex_lt(d2.drop_first(), d1.drop_first()));
            assert(d1.drop_first() =~= e1);
            assert(d2.drop_first() =~= e2);
        }
        assert(p1 == 256 * (p1 / 256) + p1 % 256);
        assert(p2 == 256 * (p2 / 256) + p2 % 256);
    }
}

proof fn lemma_cand_key_injective(c1: CandidateModel, c2: CandidateModel)
    requires
        cand_key(c1) == cand_key(c2),
    ensures
        c1.0 == c2.0,
{
    assert(cand_key(c1).skip(2) =~= c1.0);
    assert(cand_key(c2).skip(2) =~= c2.0);
}

proof fn lemma_sort_cands_sorted(cs: Seq<CandidateModel>)
    ensures
        forall|i: int, j: int|
            0 <= i < j < sort_cands(cs).len() ==> lex_le(
                cand_key(#[trigger] sort_cands(cs)[i]),
                cand_key(#[trigger] sort_cands(cs)[j]),
            ),
        forall|i: int| 0 <= i < sort_cands(cs).len() ==> cs.contains(#[trigger] sort_cands(cs)[i]),
{
    let ps = cs.map_values(|c: CandidateModel| (cand_key(c), c));
    let sp = sort_by_key_spec(ps);
    lemma_sort_by_key_sorted(ps);
    assert forall|i: int| 0 <= i < sp.len() implies (#[trigger] sp[i]).0 == cand_key(sp[i].1) && cs.contains(sp[i].1) by {
        lemma_sort_members(ps, i);
        let k = choose|k: int| 0 <= k < ps.len() && ps[k] == sp[i];
        assert(ps[k] == (cand_key(cs[k]), cs[k]));
    }
    assert forall|i: int, j: int| 0 <= i < j < sort_cands(cs).len() implies lex_le(
        cand_key(#[trigger] sort_cands(cs)[i]),
        cand_key(#[trigger] sort_cands(cs)[j]),
    ) by {
        assert(sort_cands(cs)[i] == sp[i].1 && sort_cands(cs)[j] == sp[j].1);
        assert(sp[i].0 == cand_key(sp[i].1) && sp[j].0 == cand_key(sp[j].1));
    }
    assert forall|i: int| 0 <= i < sort_cands(cs).len() implies cs.contains(#[trigger] sort_cands(cs)[i]) by {
        assert(sort_cands(cs)[i] == sp[i].1);
    }
}

/// Keys strictly increase along `r`.
pub open spec fn strictly_increasing(r: Seq<CandidateModel>) -> bool {
    forall|i: int, j: int| 0 <= i < j < r.len() ==> lex_lt(cand_key(#[trigger] r[i]), cand_key(#[trigger] r[j]))
}

proof fn lemma_dedupe_increasing(s: Seq<CandidateModel>)
    requires
        forall|i: int, j: int| 0 <= i < j < s.len() ==> lex_le(cand_key(#[trigger] s[i]), cand_key(#[trigger] s[j])),
    ensures
        strictly_increasing(dedupe(s)),
        forall|i: int| 0 <= i < dedupe(s).len() ==> s.contains(#[trigger] dedupe(s)[i]),
    decreases s.len(),
{
    if s.len() > 0 {
        let t = s.drop_last();
        assert forall|i: int, j: int| 0 <= i < j < t.len() implies lex_le(cand_key(#[trigger] t[i]), cand_key(#[trigger] t[j])) by {
            assert(t[i] == s[i] && t[j] == s[j]);
        }
        lemma_dedupe_increasing(t);
        let acc = dedupe(t);
        let x = s.last();
        assert forall|i: int| 0 <= i < dedupe(s).len() implies s.contains(#[trigger] dedupe(s)[i]) by {
            if i < acc.len() {
                assert(dedupe(s)[i] == acc[i]);
                let k = choose|k: int| 0 <= k < t.len() && t[k] == acc[i];
                assert(s[k] == t[k]);
            } else {
                assert(dedupe(s)[i] == x);
                assert(s[s.len() - 1] == x);
            }
        }
        if !(acc.len() > 0 && acc.last().0 == x.0) && acc.len() > 0 {
            let last = acc.last();
            let k = choose|k: int| 0 <= k < t.len() && t[k] == last;
            assert(s[k] == last);
            assert(lex_le(cand_key(s[k]), cand_key(s[s.len() - 1])));
            if cand_key(last) == cand_key(x) {
                lemma_cand_key_injective(last, x);
            }
            lemma_lex_total(cand_key(last), cand_key(x));
            let r = dedupe(s);
            assert forall|i: int, j: int| 0 <= i < j < r.len() implies lex_lt(cand_key(#[trigger] r[i]), cand_key(#[trigger] r[j])) by {
                if j < acc.len() {
                    assert(r[i] == acc[i] && r[j] == acc[j]);
                } else {
                    assert(r[j] == x && r[i] == acc[i]);
                    if i < acc.len() - 1 {
                        assert(lex_lt(cand_key(acc[i]), cand_key(acc[acc.len() - 1])));
                        lemma_lex_transitive(cand_key(acc[i]), cand_key(last), cand_key(x));
                    }
                }
            }
        }
    }
}

proof fn lemma_scan_all_processes<S: Sys>(sys: &S, es: Seq<EntryModel>)
    ensures
        forall|i: int| 0 <= i < proc_scan(sys, es).len() ==> (#[trigger] proc_scan(sys, es)[i]).1 is Process,
    decreases es.len(),
{
    if es.len() > 0 {
        lemma_scan_all_processes(sys, es.drop_last());
        let acc = proc_scan(sys, es.drop_last());
        assert forall|i: int| 0 <= i < proc_scan(sys, es).len() implies (#[trigger] proc_scan(sys, es)[i]).1 is Process by {
            if i < acc.len() {
                assert(proc_scan(sys, es)[i] == acc[i]);
            }
        }
    }
}

/// Every server auto-discovery reports is a local process.
proof fn lemma_discovered_are_processes<S: Sys>(sys: &S)
    ensures
        forall|i: int|
            0 <= i < discover_processes_spec(sys).len() ==> (#[trigger] discover_processes_spec(sys)[i]).1 is Process,
{
    match sys.spec_dir("/proc"@) {
        None => {},
        Some(es) => {
            let scan = proc_scan(sys, es);
            lemma_scan_all_processes(sys, es);
            lemma_sort_cands_sorted(scan);
            lemma_dedupe_increasing(sort_cands(scan));
            let d = dedupe(sort_cands(scan));
            assert forall|i: int| 0 <= i < d.len() implies (#[trigger] d[i]).1 is Process by {
                assert(sort_cands(scan).contains(d[i]));
                let k = choose|k: int| 0 <= k < sort_cands(scan).len() && sort_cands(scan)[k] == d[i];
                assert(scan.contains(sort_cands(scan)[k]));
                let m = choose|m: int| 0 <= m < scan.len() && scan[m] == sort_cands(scan)[k];
                assert(scan[m].1 is Process);
            }
        },
    }
}

/// The endpoint chosen from the candidates: the first server auto-discovery
/// found (when it is on and found one), else the configured endpoint
/// (trimmed, when not blank), else the default.
pub proof fn law_endpoint_falls_back<S: Sys>(
    sys: &S,
    auto_discovery: bool,
    configured: Option<Seq<char>>,
    default: Seq<char>,
)
    ensures
        ({
            let found = discover_processes_spec(sys);
            select_spec(collect_spec(sys, auto_discovery, configured), default) == if auto_discovery
                && found.len() > 0 {
                found[0].0
            } else {
                match configured {
                    Some(e) => if trim(e).len() > 0 {
                        trim(e)
                    } else {
                        default
                    },
                    None => default,
                }
            }
        }),
{
    lemma_discovered_are_processes(sys);
    let found = discover_processes_spec(sys);
    let cs = collect_spec(sys, auto_discovery, configured);
    if auto_discovery && found.len() > 0 {
        assert(found[0].1 is Process);
        match configured {
            Some(e) => {
                if trim(e).len() > 0 && !has_endpoint(found, trim(e)) {
                    assert(cs[0] == found[0]);
                }
            },
            None => {},
        }
    } else {
        let base: Seq<CandidateModel> = if auto_discovery {
            found
        } else {
            seq![]
        };
        assert(base.len() == 0);
        assert(!has_endpoint(base, trim(configured->0)));
        match configured {
            Some(e) => {
                if trim(e).len() > 0 {
                    assert(cs =~= seq![(trim(e), ServerSource::Configured, None::<Seq<char>>)]);
                    assert(cs.drop_first() =~= Seq::<CandidateModel>::empty());
                    assert(first_configured(cs) == Some(trim(e)));
                } else {
                    assert(cs =~= base);
                }
            },
            None => {
                assert(cs =~= base);
            },
        }
    }
}

/// The candidate a `/proc` entry yields: a process whose command line is a
/// llama.cpp server (argv[0] names `llama-server`, or is `llama` with
/// `serve`), with the endpoint derived from its arguments.
pub open spec fn proc_candidate<S: Sys>(sys: &S, e: EntryModel) -> Option<CandidateModel> {
    match parse_uint(e.0, u32::MAX as nat) {
        None => None,
        Some(pid) => match sys.spec_file(path_join(path_join("/proc"@, e.0), "cmdline"@)) {
            None => None,
            Some(raw) => {
                let args = cmdline_args(raw);
                if is_llama_spec(args) {
                    Some(
                        (
                            endpoint_spec(args),
                            ServerSource::Process { pid: pid as u32 },
                            Some(join_with(args, " "@)),
                        ),
                    )
                } else {
                    None
                }
            },
        },
    }
}

proof fn lemma_scan_members<S: Sys>(sys: &S, es: Seq<EntryModel>)
    ensures
        forall|i: int|
            0 <= i < proc_scan(sys, es).len() ==> exists|j: int|
                0 <= j < es.len() && proc_candidate(sys, #[trigger] es[j]) == Some(
                    #[trigger] proc_scan(sys, es)[i],
                ),
        forall|j: int|
            0 <= j < es.len() && (#[trigger] proc_candidate(sys, es[j])) is Some ==> proc_scan(
                sys,
                es,
            ).contains(proc_candidate(sys, es[j])->0),
    decreases es.len(),
{
    if es.len() > 0 {
        let init = es.drop_last();
        let acc = proc_scan(sys, init);
        lemma_scan_members(sys, init);
        let r = proc_scan(sys, es);
        let e = es.last();
        assert(r == match proc_candidate(sys, e) {
            Some(c) => acc.push(c),
            None => acc,
        });
        assert forall|i: int| 0 <= i < r.len() implies exists|j: int|
            0 <= j < es.len() && proc_candidate(sys, #[trigger] es[j]) == Some(#[trigger] r[i]) by {
            if i < acc.len() {
                assert(r[i] == acc[i]);
                let j = choose|j: int| 0 <= j < init.len() && proc_candidate(sys, #[trigger] init[j]) == Some(acc[i]);
                assert(es[j] == init[j]);
            } else {
                assert(es[es.len() - 1] == e);
            }
        }
        assert forall|j: int| 0 <= j < es.len() && (#[trigger] proc_candidate(sys, es[j])) is Some implies r.contains(
            proc_candidate(sys, es[j])->0,
        ) by {
            let c = proc_candidate(sys, es[j])->0;
            if j < init.len() {
                assert(es[j] == init[j]);
                assert(acc.contains(c));
                let k = choose|k: int| 0 <= k < acc.len() && acc[k] == c;
                assert(r[k] == acc[k]);
            } else {
                assert(r[acc.len() as int] == c);
            }
        }
    }
}

proof fn lemma_sort_cands_contains(cs: Seq<CandidateModel>, x: CandidateModel)
    requires
        cs.contains(x),
    ensures
        sort_cands(cs).contains(x),
{
    broadcast use vstd::seq_lib::group_to_multiset_ensures;

    let ps = cs.map_values(|c: CandidateModel| (cand_key(c), c));
    let k = choose|k: int| 0 <= k < cs.len() && cs[k] == x;
    assert(ps[k] == (cand_key(x), x));
    assert(ps.contains((cand_key(x), x)));
    lemma_sort_by_key_permutes(ps);
    let sp = sort_by_key_spec(ps);
    assert(sp.to_multiset().count((cand_key(x), x)) > 0);
    assert(sp.contains((cand_key(x), x)));
    let m = choose|m: int| 0 <= m < sp.len() && sp[m] == (cand_key(x), x);
    assert(sort_cands(cs)[m] == x);
}

proof fn lemma_dedupe_keeps_endpoints(s: Seq<CandidateModel>)
    ensures
        forall|k: int|
            0 <= k < s.len() ==> exists|i: int|
                0 <= i < dedupe(s).len() && (#[trigger] dedupe(s)[i]).0 == (#[trigger] s[k]).0,
    decreases s.len(),
{
    if s.len() > 0 {
        let t = s.drop_last();
        let acc = dedupe(t);
        lemma_dedupe_keeps_endpoints(t);
        let d = dedupe(s);
        assert forall|i: int| 0 <= i < acc.len() implies (#[trigger] d[i]) == acc[i] by {}
        assert forall|k: int| 0 <= k < s.len() implies exists|i: int|
            0 <= i < d.len() && (#[trigger] d[i]).0 == (#[trigger] s[k]).0 by {
            if k < t.len() {
                assert(s[k] == t[k]);
                let i = choose|i: int| 0 <= i < acc.len() && (#[trigger] acc[i]).0 == t[k].0;
                assert(d[i] == acc[i]);
            } else if acc.len() > 0 && acc.last().0 == s.last().0 {
                assert(d[acc.len() - 1] == acc.last());
            } else {
                assert(d[acc.len() as int] == s.last());
            }
        }
    }
}

/// Auto-discovery reports only llama.cpp servers running as local
/// processes, and every one of them: each candidate is what some `/proc`
/// entry yields (see [`proc_candidate`]), each endpoint such an entry
/// yields is reported, and an unreadable `/proc` yields nothing.
pub proof fn law_discovery_finds_exactly_local_servers<S: Sys>(sys: &S)
    ensures
        sys.spec_dir("/proc"@) is None ==> discover_processes_spec(sys).len() == 0,
        sys.spec_dir("/proc"@) is Some ==> ({
            let es = sys.spec_dir("/proc"@)->0;
            let d = discover_processes_spec(sys);
            &&& forall|i: int|
                0 <= i < d.len() ==> exists|j: int|
                    0 <= j < es.len() && proc_candidate(sys, #[trigger] es[j]) == Some(#[trigger] d[i])
            &&& forall|j: int|
                0 <= j < es.len() && (#[trigger] proc_candidate(sys, es[j])) is Some ==> exists|i: int|
                    0 <= i < d.len() && (#[trigger] d[i]).0 == (proc_candidate(sys, es[j])->0).0
        }),
{
    if sys.spec_dir("/proc"@) is Some {
        let es = sys.spec_dir("/proc"@)->0;
        let scan = proc_scan(sys, es);
        let sorted = sort_cands(scan);
        let d = dedupe(sorted);
        lemma_scan_members(sys, es);
        lemma_sort_cands_sorted(scan);
        lemma_dedupe_increasing(sorted);
        lemma_dedupe_keeps_endpoints(sorted);
        assert forall|i: int| 0 <= i < d.len() implies exists|j: int|
            0 <= j < es.len() && proc_candidate(sys, #[trigger] es[j]) == Some(#[trigger] d[i]) by {
            assert(sorted.contains(d[i]));
            let k = choose|k: int| 0 <= k < sorted.len() && sorted[k] == d[i];
            assert(scan.contains(sorted[k]));
            let m = choose|m: int| 0 <= m < scan.len() && scan[m] == sorted[k];
            assert(exists|j: int| 0 <= j < es.len() && proc_candidate(sys, #[trigger] es[j]) == Some(scan[m]));
        }
        assert forall|j: int| 0 <= j < es.len() && (#[trigger] proc_candidate(sys, es[j])) is Some implies exists|i: int|
            0 <= i < d.len() && (#[trigger] d[i]).0 == (proc_candidate(sys, es[j])->0).0 by {
            let c = proc_candidate(sys, es[j])->0;
            assert(scan.contains(c));
            lemma_sort_cands_contains(scan, c);
            let k = choose|k: int| 0 <= k < sorted.len() && sorted[k] == c;
            assert(exists|i: int| 0 <= i < d.len() && (#[trigger] d[i]).0 == sorted[k].0);
        }
    }
}

/// Discovered servers come out lowest port first, then by endpoint, and no
/// endpoint is reported twice.
pub proof fn law_discovered_servers_ordered_and_unique(cs: Seq<CandidateModel>)
    ensures
        forall|i: int, j: int|
            0 <= i < j < dedupe(sort_cands(cs)).len() ==> #[trigger] dedupe(sort_cands(cs))[i].0
                != #[trigger] dedupe(sort_cands(cs))[j].0,
        forall|i: int, j: int|
            0 <= i < j < dedupe(sort_cands(cs)).len() ==> {
                let a = #[trigger] dedupe(sort_cands(cs))[i];
                let b = #[trigger] dedupe(sort_cands(cs))[j];
                parse_port_spec(a.0) < parse_port_spec(b.0) || (parse_port_spec(a.0) == parse_port_spec(b.0)
                    && lex_le(a.0, b.0))
            },
{
    lemma_sort_cands_sorted(cs);
    lemma_dedupe_increasing(sort_cands(cs));
    let r = dedupe(sort_cands(cs));
    assert forall|i: int, j: int| 0 <= i < j < r.len() implies #[trigger] r[i].0 != #[trigger] r[j].0 by {
        if r[i].0 == r[j].0 {
            assert(cand_key(r[i]) == cand_key(r[j]));
            crate::order::lemma_lex_irreflexive(cand_key(r[i]));
        }
    }
    assert forall|i: int, j: int| 0 <= i < j < r.len() implies ({
        let a = #[trigger] r[i];
        let b = #[trigger] r[j];
        parse_port_spec(a.0) < parse_port_spec(b.0) || (parse_port_spec(a.0) == parse_port_spec(b.0)
            && lex_le(a.0, b.0))
    }) by {
        lemma_lex_asymmetric(cand_key(r[i]), cand_key(r[j]));
        lemma_port_prefix_order(parse_port_spec(r[i].0), r[i].0, parse_port_spec(r[j].0), r[j].0);
    }
}

} // verus!
