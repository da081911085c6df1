//! Persistent settings: the `key=value` config file, its legacy forms, and
//! the clamping applied to every loaded or edited setting.

use vstd::prelude::*;

use crate::domain::{
    normalize_bdf_spec, opt_view, parse_selector, sanitize_selector, selector_string,
    GpuSelector, SelectorModel,
};
use crate::text::{
    append_chars, append_str, chars_of, eq_chars, lines, lines_of, parse_uint, parse_uint_vec,
    push_dec, split_once, split_once_vec, string_of, to_lower, to_lower_vec, trim, trim_str,
    trim_vec, dec_repr,
};

verus! {

pub const DEFAULT_REFRESH_MS: u64 = 1_000;

pub const DEFAULT_PROCESS_REFRESH_MS: u64 = 1_000;

pub const DEFAULT_OFFLINE_GRACE_MS: u64 = 2_500;

pub const MIN_PROCESS_REFRESH_MS: u64 = 100;

pub const MAX_PROCESS_REFRESH_MS: u64 = 60_000;

pub const MAX_OFFLINE_GRACE_MS: u64 = 60_000;

#[derive(Clone, Debug, PartialEq, Eq)]
pub struct AppConfig {
    pub server: Option<String>,
    pub gpu_selector: GpuSelector,
    pub refresh_ms: u64,
    pub process_refresh_ms: u64,
    pub offline_grace_ms: u64,
    pub auto_discovery: bool,
}

/// Abstract value of an [`AppConfig`].
pub struct ConfigModel {
    pub server: Option<Seq<char>>,
    pub selector: SelectorModel,
    pub refresh_ms: u64,
    pub process_refresh_ms: u64,
    pub offline_grace_ms: u64,
    pub auto_discovery: bool,
}

impl View for AppConfig {
    type V = ConfigModel;

    open spec fn view(&self) -> ConfigModel {
        ConfigModel {
            server: opt_view(self.server),
            selector: self.gpu_selector@,
            refresh_ms: self.refresh_ms,
            process_refresh_ms: self.process_refresh_ms,
            offline_grace_ms: self.offline_grace_ms,
            auto_discovery: self.auto_discovery,
        }
    }
}

pub open spec fn default_config() -> ConfigModel {
    ConfigModel {
        server: None,
        selector: SelectorModel::Auto,
        refresh_ms: DEFAULT_REFRESH_MS,
        process_refresh_ms: DEFAULT_PROCESS_REFRESH_MS,
        offline_grace_ms: DEFAULT_OFFLINE_GRACE_MS,
        auto_discovery: true,
    }
}

pub open spec fn clamp(v: u64, lo: u64, hi: u64) -> u64 {
    if v < lo {
        lo
    } else if v > hi {
        hi
    } else {
        v
    }
}

/// What [`AppConfig::sanitized`] makes of a configuration.
pub open spec fn sanitize_config(c: ConfigModel) -> ConfigModel {
    ConfigModel {
        server: match c.server {
            Some(s) => if trim(s).len() == 0 {
                None
            } else {
                Some(trim(s))
            },
            None => None,
        },
        selector: sanitize_selector(c.selector),
        refresh_ms: clamp(c.refresh_ms, 100, 10_000),
        process_refresh_ms: clamp(c.process_refresh_ms, MIN_PROCESS_REFRESH_MS, MAX_PROCESS_REFRESH_MS),
        offline_grace_ms: if c.offline_grace_ms > MAX_OFFLINE_GRACE_MS {
            MAX_OFFLINE_GRACE_MS
        } else {
            c.offline_grace_ms
        },
        auto_discovery: c.auto_discovery,
    }
}

impl Default for AppConfig {
    fn default() -> (r: Self)
        ensures
            r@ == default_config(),
    {
        Self {
            server: None,
            gpu_selector: GpuSelector::Auto,
            refresh_ms: DEFAULT_REFRESH_MS,
            process_refresh_ms: DEFAULT_PROCESS_REFRESH_MS,
            offline_grace_ms: DEFAULT_OFFLINE_GRACE_MS,
            auto_discovery: true,
        }
    }
}

fn clamp_exec(v: u64, lo: u64, hi: u64) -> (r: u64)
    ensures
        r == clamp(v, lo, hi),
{
    if v < lo {
        lo
    } else if v > hi {
        hi
    } else {
        v
    }
}

impl AppConfig {
    /// Trim the server (blank → none), clamp the intervals, normalize the
    /// GPU selector.
    pub fn sanitized(self) -> (r: Self)
        ensures
            r@ == sanitize_config(self@),
    {
        let server = match &self.server {
            Some(value) => {
                let t = trim_str(value.as_str());
                if t.len() == 0 {
                    None
                } else {
                    Some(string_of(t.as_slice()))
                }
            },
            None => None,
        };
        AppConfig {
            server,
            gpu_selector: self.gpu_selector.sanitized(),
            refresh_ms: clamp_exec(self.refresh_ms, 100, 10_000),
            process_refresh_ms: clamp_exec(
                self.process_refresh_ms,
                MIN_PROCESS_REFRESH_MS,
                MAX_PROCESS_REFRESH_MS,
            ),
            offline_grace_ms: if self.offline_grace_ms > MAX_OFFLINE_GRACE_MS {
                MAX_OFFLINE_GRACE_MS
            } else {
                self.offline_grace_ms
            },
            auto_discovery: self.auto_discovery,
        }
    }
}

// ---------------------------------------------------------------------------
// Parsing
// ---------------------------------------------------------------------------

/// `1/true/yes/on` and `0/false/no/off`, case-insensitively.
pub open spec fn parse_bool_spec(value: Seq<char>) -> Option<bool> {
    let v = to_lower(value);
    if v == "1"@ || v == "true"@ || v == "yes"@ || v == "on"@ {
        Some(true)
    } else if v == "0"@ || v == "false"@ || v == "no"@ || v == "off"@ {
        Some(false)
    } else {
        None
    }
}

fn lit_eq(v: &[char], s: &str) -> (r: bool)
    ensures
        r == (v@ == s@),
{
    let sv = chars_of(s);
    eq_chars(v, sv.as_slice())
}

/// Boolean settings read `0`, `false`, `no` and `off` as false and `1`,
/// `true`, `yes` and `on` as true, in any mix of upper and lower case;
/// anything else is not a boolean.
pub proof fn law_bool_words(value: Seq<char>)
    ensures
        to_lower(value) == "0"@ || to_lower(value) == "false"@ || to_lower(value) == "no"@
            || to_lower(value) == "off"@ ==> parse_bool_spec(value) == Some(false),
        to_lower(value) == "1"@ || to_lower(value) == "true"@ || to_lower(value) == "yes"@
            || to_lower(value) == "on"@ ==> parse_bool_spec(value) == Some(true),
        parse_bool_spec(value) is Some ==> to_lower(value) == "0"@ || to_lower(value) == "false"@
            || to_lower(value) == "no"@ || to_lower(value) == "off"@ || to_lower(value) == "1"@
            || to_lower(value) == "true"@ || to_lower(value) == "yes"@ || to_lower(value) == "on"@,
{
    reveal_strlit("0");
    reveal_strlit("false");
    reveal_strlit("no");
    reveal_strlit("off");
    reveal_strlit("1");
    reveal_strlit("true");
    reveal_strlit("yes");
    reveal_strlit("on");
    let v = to_lower(value);
    let t = seq!["1"@, "true"@, "yes"@, "on"@];
    let f = seq!["0"@, "false"@, "no"@, "off"@];
    assert forall|i: int, j: int| 0 <= i < 4 && 0 <= j < 4 implies #[trigger] t[i] != #[trigger] f[j] by {
        assert(t[i].len() != f[j].len() || t[i][0] != f[j][0]);
    }
    if v == "0"@ || v == "false"@ || v == "no"@ || v == "off"@ {
        let j: int = if v == "0"@ { 0 } else if v == "false"@ { 1 } else if v == "no"@ { 2 } else { 3 };
        assert(v == f[j]);
        assert(t[0] != f[j] && t[1] != f[j] && t[2] != f[j] && t[3] != f[j]);
    }
}

pub fn parse_bool(value: &str) -> (r: Option<bool>)
    ensures
        r == parse_bool_spec(value@),
{
    let raw = chars_of(value);
    let v = to_lower_vec(raw.as_slice());
    let s = v.as_slice();
    if lit_eq(s, "1") || lit_eq(s, "true") || lit_eq(s, "yes") || lit_eq(s, "on") {
        Some(true)
    } else if lit_eq(s, "0") || lit_eq(s, "false") || lit_eq(s, "no") || lit_eq(s, "off") {
        Some(false)
    } else {
        None
    }
}

/// Parser state while reading the config file line by line.
pub struct ParseState {
    pub config: ConfigModel,
    pub saw_server: bool,
    pub saw_auto_discovery: bool,
    pub saw_gpu_key: bool,
    pub legacy_gpu_index: Option<u32>,
}

pub open spec fn initial_state() -> ParseState {
    ParseState {
        config: default_config(),
        saw_server: false,
        saw_auto_discovery: false,
        saw_gpu_key: false,
        legacy_gpu_index: None,
    }
}

/// Effect of one line of the config file. Lines without `=` and unknown keys
/// are ignored; unparsable values leave the setting unchanged.
pub open spec fn parse_step(st: ParseState, line: Seq<char>) -> ParseState {
    match split_once(line, '=') {
        None => st,
        Some((k, v)) => {
            let key = trim(k);
            let value = trim(v);
            let c = st.config;
            if key == "server"@ && value.len() > 0 {
                ParseState {
                    config: ConfigModel { server: Some(value), ..c },
                    saw_server: true,
                    ..st
                }
            } else if key == "gpu"@ {
                ParseState {
                    config: ConfigModel { selector: parse_selector(value), ..c },
                    saw_gpu_key: true,
                    ..st
                }
            } else if key == "gpu_index"@ && !st.saw_gpu_key {
                match parse_uint(value, u32::MAX as nat) {
                    Some(n) => ParseState { legacy_gpu_index: Some(n as u32), ..st },
                    None => st,
                }
            } else if key == "refresh_ms"@ {
                match parse_uint(value, u64::MAX as nat) {
                    Some(n) => ParseState {
                        config: ConfigModel { refresh_ms: n as u64, ..c },
                        ..st
                    },
                    None => st,
                }
            } else if key == "process_refresh_ms"@ {
                match parse_uint(value, u64::MAX as nat) {
                    Some(n) => ParseState {
                        config: ConfigModel { process_refresh_ms: n as u64, ..c },
                        ..st
                    },
                    None => st,
                }
            } else if key == "offline_grace_ms"@ {
                match parse_uint(value, u64::MAX as nat) {
                    Some(n) => ParseState {
                        config: ConfigModel { offline_grace_ms: n as u64, ..c },
                        ..st
                    },
                    None => st,
                }
            } else if key == "auto_discovery"@ {
                match parse_bool_spec(value) {
                    Some(b) => ParseState {
                        config: ConfigModel { auto_discovery: b, ..c },
                        saw_auto_discovery: true,
                        ..st
                    },
                    None => st,
                }
            } else {
                st
            }
        },
    }
}

pub open spec fn parse_lines(ls: Seq<Seq<char>>) -> ParseState
    decreases ls.len(),
{
    if ls.len() == 0 {
        initial_state()
    } else {
        parse_step(parse_lines(ls.drop_last()), ls.last())
    }
}

/// The configuration a file text describes: the lines folded in order, then
/// the legacy rules (a `server=` line without `auto_discovery=` turns
/// auto-discovery off; a legacy `gpu_index=` applies only without `gpu=`),
/// then sanitized.
pub open spec fn parse_config_spec(text: Seq<char>) -> ConfigModel {
    let st = parse_lines(lines(text));
    let c1 = if st.saw_server && !st.saw_auto_discovery {
        ConfigModel { auto_discovery: false, ..st.config }
    } else {
        st.config
    };
    let c2 = if !st.saw_gpu_key && st.legacy_gpu_index is Some {
        ConfigModel { selector: SelectorModel::Index(st.legacy_gpu_index->0), ..c1 }
    } else {
        c1
    };
    sanitize_config(c2)
}

/// Parse the text of a config file.
pub fn parse_config(text: &str) -> (r: AppConfig)
    ensures
        r@ == parse_config_spec(text@),
{
    let chars = chars_of(text);
    let ls = lines_of(&chars);
    let mut config = AppConfig::default();
    let mut saw_server = false;
    let mut saw_auto_discovery = false;
    let mut saw_gpu_key = false;
    let mut legacy_gpu_index: Option<u32> = None;
    for i in 0..ls.len()
        invariant
            ls@.len() == lines(text@).len(),
            forall|k: int| 0 <= k < ls@.len() ==> #[trigger] ls@[k]@ == lines(text@)[k],
            ({
                let st = parse_lines(lines(text@).take(i as int));
                &&& st.config == config@
                &&& st.saw_server == saw_server
                &&& st.saw_auto_discovery == saw_auto_discovery
                &&& st.saw_gpu_key == saw_gpu_key
                &&& st.legacy_gpu_index == legacy_gpu_index
            }),
    {
        proof {
            let pre = lines(text@).take(i as int);
            let nxt = lines(text@).take(i + 1);
            assert(nxt.drop_last() =~= pre);
            assert(nxt.last() == ls@[i as int]@);
        }
        let line = &ls[i];
        match split_once_vec(line, '=') {
            None => {},
            Some(pair) => {
                let key = trim_vec(&pair.0);
                let value = trim_vec(&pair.1);
                let k = key.as_slice();
                if lit_eq(k, "server") && value.len() > 0 {
                    config.server = Some(string_of(value.as_slice()));
                    saw_server = true;
                } else if lit_eq(k, "gpu") {
                    let vs = string_of(value.as_slice());
                    config.gpu_selector = GpuSelector::parse(vs.as_str());
                    saw_gpu_key = true;
                } else if lit_eq(k, "gpu_index") && !saw_gpu_key {
                    match parse_uint_vec(value.as_slice(), 0xffff_ffff) {
                        Some(n) => {
                            legacy_gpu_index = Some(n as u32);
                        },
                        None => {},
                    }
                } else if lit_eq(k, "refresh_ms") {
                    match parse_uint_vec(value.as_slice(), u64::MAX) {
                        Some(n) => {
                            config.refresh_ms = n;
                        },
                        None => {},
                    }
                } else if lit_eq(k, "process_refresh_ms") {
                    match parse_uint_vec(value.as_slice(), u64::MAX) {
                        Some(n) => {
                            config.process_refresh_ms = n;
                        },
                        None => {},
                    }
                } else if lit_eq(k, "offline_grace_ms") {
                    match parse_uint_vec(value.as_slice(), u64::MAX) {
                        Some(n) => {
                            config.offline_grace_ms = n;
                        },
                        None => {},
                    }
                } else if lit_eq(k, "auto_discovery") {
                    let vs = string_of(value.as_slice());
                    match parse_bool(vs.as_str()) {
                        Some(b) => {
                            config.auto_discovery = b;
                            saw_auto_discovery = true;
                        },
                        None => {},
                    }
                }
            },
        }
    }
    proof {
        assert(lines(text@).take(ls@.len() as int) =~= lines(text@));
    }
    if saw_server && !saw_auto_discovery {
        config.auto_discovery = false;
    }
    if !saw_gpu_key {
        match legacy_gpu_index {
            Some(index) => {
                config.gpu_selector = GpuSelector::Index(index);
            },
            None => {},
        }
    }
    config.sanitized()
}

// ---------------------------------------------------------------------------
// Saving
// ---------------------------------------------------------------------------

pub open spec fn line_of(key: Seq<char>, value: Seq<char>) -> Seq<char> {
    key + "="@ + value + "\n"@
}

/// The file text that [`render_config`] writes for a configuration that is
/// already sanitized.
pub open spec fn config_text(c: ConfigModel) -> Seq<char> {
    let server_line = match c.server {
        Some(s) => line_of("server"@, s),
        None => seq![],
    };
    let gpu_line = if selector_string(c.selector).len() > 0 {
        line_of("gpu"@, selector_string(c.selector))
    } else {
        seq![]
    };
    server_line + gpu_line + line_of("refresh_ms"@, dec_repr(c.refresh_ms as nat)) + line_of(
        "process_refresh_ms"@,
        dec_repr(c.process_refresh_ms as nat),
    ) + line_of("offline_grace_ms"@, dec_repr(c.offline_grace_ms as nat)) + line_of(
        "auto_discovery"@,
        if c.auto_discovery {
            "true"@
        } else {
            "false"@
        },
    )
}

fn push_line(out: &mut Vec<char>, key: &str, value: &[char])
    ensures
        final(out)@ == old(out)@ + line_of(key@, value@),
{
    append_str(out, key);
    append_str(out, "=");
    append_chars(out, value);
    append_str(out, "\n");
    assert(final(out)@ =~= old(out)@ + line_of(key@, value@));
}

/// The text `save` writes: the sanitized configuration, one `key=value` per
/// line (server and GPU only when set).
pub fn render_config(config: &AppConfig) -> (r: String)
    ensures
        r@ == config_text(sanitize_config(config@)),
{
    let c = config.clone_config().sanitized();
    let mut out: Vec<char> = Vec::new();
    match &c.server {
        Some(server) => {
            let sv = chars_of(server.as_str());
            push_line(&mut out, "server", sv.as_slice());
        },
        None => {},
    }
    let selector = c.gpu_selector.as_string();
    let sel = chars_of(selector.as_str());
    if sel.len() > 0 {
        push_line(&mut out, "gpu", sel.as_slice());
    }
    let mut n: Vec<char> = Vec::new();
    push_dec(&mut n, c.refresh_ms);
    push_line(&mut out, "refresh_ms", n.as_slice());
    let mut n: Vec<char> = Vec::new();
    push_dec(&mut n, c.process_refresh_ms);
    push_line(&mut out, "process_refresh_ms", n.as_slice());
    let mut n: Vec<char> = Vec::new();
    push_dec(&mut n, c.offline_grace_ms);
    push_line(&mut out, "offline_grace_ms", n.as_slice());
    let flag = if c.auto_discovery {
        chars_of("true")
    } else {
        chars_of("false")
    };
    push_line(&mut out, "auto_discovery", flag.as_slice());
    assert(out@ =~= config_text(c@));
    string_of(out.as_slice())
}

impl AppConfig {
    /// A copy with the same abstract value.
    pub fn clone_config(&self) -> (r: Self)
        ensures
            r@ == self@,
    {
        AppConfig {
            server: crate::domain::clone_opt_string(&self.server),
            gpu_selector: self.gpu_selector.duplicate(),
            refresh_ms: self.refresh_ms,
            process_refresh_ms: self.process_refresh_ms,
            offline_grace_ms: self.offline_grace_ms,
            auto_discovery: self.auto_discovery,
        }
    }
}

/// `$XDG_CONFIG_HOME/orsiktop` when that variable is set and non-empty,
/// else `$HOME/.config/orsiktop` when `HOME` is set and non-empty.
pub open spec fn config_dir_spec(xdg: Option<Seq<char>>, home: Option<Seq<char>>) -> Option<Seq<char>> {
    match xdg {
        Some(x) if x.len() > 0 => Some(join_path(x, "orsiktop"@)),
        _ => match home {
            Some(h) if h.len() > 0 => Some(join_path(h, ".config/orsiktop"@)),
            _ => None,
        },
    }
}

/// `Path::join` of a relative component onto a base: a `/` is inserted
/// unless the base already ends with one.
pub open spec fn join_path(base: Seq<char>, rel: Seq<char>) -> Seq<char> {
    if base.len() > 0 && base.last() == '/' {
        base + rel
    } else {
        base + "/"@ + rel
    }
}

fn join_path_exec(base: &[char], rel: &str) -> (r: Vec<char>)
    ensures
        r@ == join_path(base@, rel@),
{
    let mut out: Vec<char> = Vec::new();
    append_chars(&mut out, base);
    if !(base.len() > 0 && base[base.len() - 1] == '/') {
        append_str(&mut out, "/");
    }
    append_str(&mut out, rel);
    assert(out@ =~= join_path(base@, rel@));
    out
}

/// The directory holding the config file, given the values of
/// `XDG_CONFIG_HOME` and `HOME`.
pub fn config_dir(xdg_config_home: Option<&str>, home: Option<&str>) -> (r: Option<String>)
    ensures
        opt_view(r) == config_dir_spec(
            match xdg_config_home {
                Some(x) => Some(x@),
                None => None::<Seq<char>>,
            },
            match home {
                Some(h) => Some(h@),
                None => None::<Seq<char>>,
            },
        ),
{
    match xdg_config_home {
        Some(x) => {
            let xv = chars_of(x);
            if xv.len() > 0 {
                let p = join_path_exec(xv.as_slice(), "orsiktop");
                return Some(string_of(p.as_slice()));
            }
        },
        None => {},
    }
    match home {
        Some(h) => {
            let hv = chars_of(h);
            if hv.len() > 0 {
                let p = join_path_exec(hv.as_slice(), ".config/orsiktop");
                return Some(string_of(p.as_slice()));
            }
        },
        None => {},
    }
    None
}

/// The config file path, given the values of `XDG_CONFIG_HOME` and `HOME`.
pub fn config_path(xdg_config_home: Option<&str>, home: Option<&str>) -> (r: Option<String>)
    ensures
        opt_view(r) == (match config_dir_spec(
            match xdg_config_home {
                Some(x) => Some(x@),
                None => None::<Seq<char>>,
            },
            match home {
                Some(h) => Some(h@),
                None => None::<Seq<char>>,
            },
        ) {
            Some(d) => Some(join_path(d, "config"@)),
            None => None::<Seq<char>>,
        }),
{
    match config_dir(xdg_config_home, home) {
        Some(dir) => {
            let dv = chars_of(dir.as_str());
            let p = join_path_exec(dv.as_slice(), "config");
            Some(string_of(p.as_slice()))
        },
        None => None,
    }
}


// ---------------------------------------------------------------------------
// Saving and loading back
// ---------------------------------------------------------------------------

pub open spec fn no_char(s: Seq<char>, c: char) -> bool {
    forall|i: int| 0 <= i < s.len() ==> s[i] != c
}

/// The lines of a text that starts with one newline-free line.
proof fn lemma_lines_cons(l: Seq<char>, rest: Seq<char>)
    requires
        no_char(l, '\n'),
    ensures
        lines(l + seq!['\n'] + rest) == seq![crate::text::strip_cr(l)] + lines(rest),
{
    let s = l + seq!['\n'] + rest;
    assert(s[l.len() as int] == '\n');
    assert forall|j: int| 0 <= j < l.len() implies s[j] != '\n' by {
        assert(s[j] == l[j]);
    }
    crate::text::lemma_first_index_found(s, '\n', l.len() as int);
    assert(s.take(l.len() as int) =~= l);
    assert(s.skip(l.len() as int + 1) =~= rest);
}

/// `key=value` splits at the `=` after a key without one.
proof fn lemma_split_key(k: Seq<char>, v: Seq<char>)
    requires
        no_char(k, '='),
    ensures
        crate::text::split_once(k + seq!['='] + v, '=') == Some((k, v)),
{
    let s = k + seq!['='] + v;
    assert(s[k.len() as int] == '=');
    assert forall|j: int| 0 <= j < k.len() implies s[j] != '=' by {
        assert(s[j] == k[j]);
    }
    crate::text::lemma_first_index_found(s, '=', k.len() as int);
    assert(s.take(k.len() as int) =~= k);
    assert(s.skip(k.len() as int + 1) =~= v);
}

/// One saved line `key=value` with a trimmed value.
pub open spec fn saved_line(key: Seq<char>, value: Seq<char>) -> Seq<char> {
    key + seq!['='] + value
}

proof fn lemma_saved_line_reads(key: Seq<char>, value: Seq<char>, rest: Seq<char>)
    requires
        no_char(key, '='),
        no_char(key, '\n'),
        no_char(value, '\n'),
        value.len() > 0 ==> value.last() != '\r',
    ensures
        lines(line_of(key, value) + rest) == seq![saved_line(key, value)] + lines(rest),
        crate::text::split_once(saved_line(key, value), '=') == Some((key, value)),
{
    reveal_strlit("=");
    reveal_strlit("\n");
    let l = saved_line(key, value);
    assert forall|i: int| 0 <= i < l.len() implies l[i] != '\n' by {
        if i < key.len() {
            assert(l[i] == key[i]);
        } else if i > key.len() {
            assert(l[i] == value[i - key.len() - 1]);
        }
    }
    assert(line_of(key, value) + rest =~= l + seq!['\n'] + rest);
    lemma_lines_cons(l, rest);
    assert(crate::text::strip_cr(l) == l) by {
        if value.len() > 0 {
            assert(l.last() == value.last());
        }
    }
    lemma_split_key(key, value);
}


/// The text of a sanitized selector has no surrounding whitespace, and is
/// empty only for `Auto`.
proof fn lemma_sanitized_selector_text(sel: SelectorModel)
    ensures
        trim(selector_string(sanitize_selector(sel))) == selector_string(sanitize_selector(sel)),
        selector_string(sanitize_selector(sel)).len() == 0 ==> sanitize_selector(sel)
            == SelectorModel::Auto,
{
    match sel {
        SelectorModel::Auto => {
            assert(selector_string(SelectorModel::Auto) =~= Seq::<char>::empty());
        },
        SelectorModel::Index(n) => {
            crate::text::lemma_trim_dec_repr(n as nat);
            crate::text::lemma_dec_repr_digits(n as nat);
        },
        SelectorModel::Uuid(u) => {
            crate::text::lemma_trim_idempotent(u);
        },
        SelectorModel::PciBusId(b) => {
            let t = trim(b);
            crate::text::lemma_trim_idempotent(b);
            if t.len() > 0 {
                crate::text::lemma_trim_start_len(b);
                let a = crate::text::trim_start(b);
                crate::text::lemma_trim_end_props(a);
                assert(t[0] == a[0]);
                let w = normalize_bdf_spec(t);
                if crate::domain::is_long_bdf(t) && crate::text::hex_value(t.take(8)) < 0x10000 {
                    let h = crate::domain::hex4(crate::text::hex_value(t.take(8)));
                    assert(w == h + t.skip(8));
                    assert(w[0] == h[0]);
                    assert(w.last() == t.last());
                    assert(!crate::text::is_ws(h[0]));
                    crate::text::lemma_trim_unchanged(w);
                }
            }
        },
    }
}


/// Sanitizing a selector twice is sanitizing it once.
proof fn lemma_sanitize_selector_idempotent(sel: SelectorModel)
    ensures
        sanitize_selector(sanitize_selector(sel)) == sanitize_selector(sel),
{
    match sel {
        SelectorModel::Uuid(u) => {
            crate::text::lemma_trim_idempotent(u);
        },
        SelectorModel::PciBusId(b) => {
            let t = trim(b);
            crate::text::lemma_trim_idempotent(b);
            if t.len() > 0 {
                lemma_sanitized_selector_text(sel);
                let w = normalize_bdf_spec(t);
                assert(selector_string(SelectorModel::PciBusId(w)) == w);
                if crate::domain::is_long_bdf(t) && crate::text::hex_value(t.take(8)) < 0x10000 {
                    let h = crate::domain::hex4(crate::text::hex_value(t.take(8)));
                    assert(w =~= h + t.skip(8));
                    assert(w.len() == 12);
                    assert(!crate::domain::is_long_bdf(w));
                }
                assert(normalize_bdf_spec(w) == w);
                assert(trim(w) == w);
                assert(w.len() > 0);
            }
        },
        _ => {},
    }
}

/// Sanitizing a configuration twice is sanitizing it once: the settings
/// the monitor keeps are already in range, trimmed and normalized.
pub proof fn law_sanitize_idempotent(c: ConfigModel)
    ensures
        sanitize_config(sanitize_config(c)) == sanitize_config(c),
{
    lemma_sanitize_selector_idempotent(c.selector);
    match c.server {
        Some(s) => {
            crate::text::lemma_trim_idempotent(s);
        },
        None => {},
    }
}

/// A trimmed non-empty text does not end in a carriage return.
proof fn lemma_trimmed_no_cr(v: Seq<char>)
    requires
        trim(v) == v,
    ensures
        v.len() > 0 ==> v.last() != '\r',
{
    crate::text::lemma_trim_end_props(crate::text::trim_start(v));
}

proof fn lemma_digits_line(n: nat)
    ensures
        no_char(dec_repr(n), '\n'),
        dec_repr(n).len() > 0 && dec_repr(n).last() != '\r',
        trim(dec_repr(n)) == dec_repr(n),
{
    crate::text::lemma_dec_repr_digits(n);
    crate::text::lemma_trim_dec_repr(n);
    let d = dec_repr(n);
    assert(crate::text::is_digit(d[d.len() - 1]));
}

/// The lines of the tail every saved file ends with: the three intervals
/// and the auto-discovery switch.
proof fn lemma_tail_lines(c: ConfigModel)
    ensures
        ({
            let b: Seq<char> = if c.auto_discovery {
                "true"@
            } else {
                "false"@
            };
            lines(
                line_of("refresh_ms"@, dec_repr(c.refresh_ms as nat)) + line_of(
                    "process_refresh_ms"@,
                    dec_repr(c.process_refresh_ms as nat),
                ) + line_of("offline_grace_ms"@, dec_repr(c.offline_grace_ms as nat)) + line_of(
                    "auto_discovery"@,
                    b,
                ),
            ) == seq![
                saved_line("refresh_ms"@, dec_repr(c.refresh_ms as nat)),
                saved_line("process_refresh_ms"@, dec_repr(c.process_refresh_ms as nat)),
                saved_line("offline_grace_ms"@, dec_repr(c.offline_grace_ms as nat)),
                saved_line("auto_discovery"@, b),
            ]
        }),
{
    reveal_strlit("refresh_ms");
    reveal_strlit("process_refresh_ms");
    reveal_strlit("offline_grace_ms");
    reveal_strlit("auto_discovery");
    reveal_strlit("true");
    reveal_strlit("false");
    let b: Seq<char> = if c.auto_discovery {
        "true"@
    } else {
        "false"@
    };
    let r = dec_repr(c.refresh_ms as nat);
    let p = dec_repr(c.process_refresh_ms as nat);
    let o = dec_repr(c.offline_grace_ms as nat);
    lemma_digits_line(c.refresh_ms as nat);
    lemma_digits_line(c.process_refresh_ms as nat);
    lemma_digits_line(c.offline_grace_ms as nat);
    let e = Seq::<char>::empty();
    lemma_saved_line_reads("auto_discovery"@, b, e);
    assert(line_of("auto_discovery"@, b) + e =~= line_of("auto_discovery"@, b));
    lemma_saved_line_reads("offline_grace_ms"@, o, line_of("auto_discovery"@, b));
    lemma_saved_line_reads(
        "process_refresh_ms"@,
        p,
        line_of("offline_grace_ms"@, o) + line_of("auto_discovery"@, b),
    );
    lemma_saved_line_reads(
        "refresh_ms"@,
        r,
        line_of("process_refresh_ms"@, p) + line_of("offline_grace_ms"@, o) + line_of(
            "auto_discovery"@,
            b,
        ),
    );
    assert(line_of("refresh_ms"@, r) + line_of("process_refresh_ms"@, p) + line_of(
        "offline_grace_ms"@,
        o,
    ) + line_of("auto_discovery"@, b) =~= line_of("refresh_ms"@, r) + (line_of(
        "process_refresh_ms"@,
        p,
    ) + line_of("offline_grace_ms"@, o) + line_of("auto_discovery"@, b)));
    assert(line_of("process_refresh_ms"@, p) + line_of("offline_grace_ms"@, o) + line_of(
        "auto_discovery"@,
        b,
    ) =~= line_of("process_refresh_ms"@, p) + (line_of("offline_grace_ms"@, o) + line_of(
        "auto_discovery"@,
        b,
    )));
    assert(lines(e) =~= Seq::<Seq<char>>::empty());
}


/// The value after `key=` in a saved line, trimmed, as the parser sees it.
proof fn lemma_saved_step(st: ParseState, key: Seq<char>, value: Seq<char>)
    requires
        no_char(key, '='),
        trim(key) == key,
        trim(value) == value,
    ensures
        parse_step(st, saved_line(key, value)) == parse_step_kv(st, key, value),
{
    lemma_split_key(key, value);
}

/// [`parse_step`] once the line is split into key and value.
pub open spec fn parse_step_kv(st: ParseState, key: Seq<char>, value: Seq<char>) -> ParseState {
    let c = st.config;
    if key == "server"@ && value.len() > 0 {
        ParseState { config: ConfigModel { server: Some(value), ..c }, saw_server: true, ..st }
    } else if key == "gpu"@ {
        ParseState {
            config: ConfigModel { selector: parse_selector(value), ..c },
            saw_gpu_key: true,
            ..st
        }
    } else if key == "gpu_index"@ && !st.saw_gpu_key {
        match parse_uint(value, u32::MAX as nat) {
            Some(n) => ParseState { legacy_gpu_index: Some(n as u32), ..st },
            None => st,
        }
    } else if key == "refresh_ms"@ {
        match parse_uint(value, u64::MAX as nat) {
            Some(n) => ParseState { config: ConfigModel { refresh_ms: n as u64, ..c }, ..st },
            None => st,
        }
    } else if key == "process_refresh_ms"@ {
        match parse_uint(value, u64::MAX as nat) {
            Some(n) => ParseState {
                config: ConfigModel { process_refresh_ms: n as u64, ..c },
                ..st
            },
            None => st,
        }
    } else if key == "offline_grace_ms"@ {
        match parse_uint(value, u64::MAX as nat) {
            Some(n) => ParseState {
                config: ConfigModel { offline_grace_ms: n as u64, ..c },
                ..st
            },
            None => st,
        }
    } else if key == "auto_discovery"@ {
        match parse_bool_spec(value) {
            Some(b) => ParseState {
                config: ConfigModel { auto_discovery: b, ..c },
                saw_auto_discovery: true,
                ..st
            },
            None => st,
        }
    } else {
        st
    }
}

proof fn lemma_key_literal(key: Seq<char>)
    requires
        key.len() > 0,
        forall|i: int| 0 <= i < key.len() ==> ('_' == #[trigger] key[i] || ('a' <= key[i] && key[i] <= 'z')),
    ensures
        no_char(key, '='),
        trim(key) == key,
{
    crate::text::lemma_trim_unchanged(key);
}

/// Each setting line sets its setting: `auto_discovery=` with a false word
/// (`0`, `false`, `no`, `off`, any case) switches discovery off and with a
/// true word switches it on; `refresh_ms=`, `process_refresh_ms=` and
/// `offline_grace_ms=` with a number set that interval to the number.
pub proof fn law_setting_lines(st: ParseState, v: Seq<char>, n: u64)
    ensures
        trim(v) == v && (to_lower(v) == "0"@ || to_lower(v) == "false"@ || to_lower(v) == "no"@
            || to_lower(v) == "off"@) ==> !parse_step(st, "auto_discovery"@ + seq!['='] + v).config.auto_discovery,
        trim(v) == v && (to_lower(v) == "1"@ || to_lower(v) == "true"@ || to_lower(v) == "yes"@
            || to_lower(v) == "on"@) ==> parse_step(st, "auto_discovery"@ + seq!['='] + v).config.auto_discovery,
        parse_step(st, "refresh_ms"@ + seq!['='] + dec_repr(n as nat)).config.refresh_ms == n,
        parse_step(st, "process_refresh_ms"@ + seq!['='] + dec_repr(n as nat)).config.process_refresh_ms == n,
        parse_step(st, "offline_grace_ms"@ + seq!['='] + dec_repr(n as nat)).config.offline_grace_ms == n,
{
    reveal_strlit("refresh_ms");
    reveal_strlit("process_refresh_ms");
    reveal_strlit("offline_grace_ms");
    reveal_strlit("auto_discovery");
    reveal_strlit("server");
    reveal_strlit("gpu");
    reveal_strlit("gpu_index");
    lemma_key_literal("refresh_ms"@);
    lemma_key_literal("process_refresh_ms"@);
    lemma_key_literal("offline_grace_ms"@);
    lemma_key_literal("auto_discovery"@);
    law_bool_words(v);
    if trim(v) == v {
        lemma_saved_step(st, "auto_discovery"@, v);
    }
    lemma_digits_line(n as nat);
    crate::text::lemma_parse_dec_repr(n as nat, u64::MAX as nat);
    lemma_saved_step(st, "refresh_ms"@, dec_repr(n as nat));
    lemma_saved_step(st, "process_refresh_ms"@, dec_repr(n as nat));
    lemma_saved_step(st, "offline_grace_ms"@, dec_repr(n as nat));
    assert("auto_discovery"@ != "server"@ && "auto_discovery"@ != "gpu"@ && "auto_discovery"@ != "gpu_index"@);
    assert("auto_discovery"@ != "refresh_ms"@ && "auto_discovery"@ != "process_refresh_ms"@);
    assert("auto_discovery"@ != "offline_grace_ms"@) by {
        assert("auto_discovery"@[0] != "offline_grace_ms"@[0]);
    }
    assert("refresh_ms"@ != "server"@ && "refresh_ms"@ != "gpu"@ && "refresh_ms"@ != "gpu_index"@) by {
        assert("refresh_ms"@[0] != "server"@[0]);
    }
    assert("process_refresh_ms"@ != "server"@ && "process_refresh_ms"@ != "gpu"@ && "process_refresh_ms"@
        != "gpu_index"@ && "process_refresh_ms"@ != "refresh_ms"@);
    assert("offline_grace_ms"@ != "server"@ && "offline_grace_ms"@ != "gpu"@ && "offline_grace_ms"@
        != "gpu_index"@ && "offline_grace_ms"@ != "refresh_ms"@ && "offline_grace_ms"@ != "process_refresh_ms"@) by {
        assert("offline_grace_ms"@[0] != "process_refresh_ms"@[0]);
    }
}

/// The saved tail sets the intervals and the switch.
proof fn lemma_tail_steps(st: ParseState, c: ConfigModel)
    ensures
        ({
            let b: Seq<char> = if c.auto_discovery {
                "true"@
            } else {
                "false"@
            };
            let s1 = parse_step(st, saved_line("refresh_ms"@, dec_repr(c.refresh_ms as nat)));
            let s2 = parse_step(s1, saved_line("process_refresh_ms"@, dec_repr(c.process_refresh_ms as nat)));
            let s3 = parse_step(s2, saved_line("offline_grace_ms"@, dec_repr(c.offline_grace_ms as nat)));
            let s4 = parse_step(s3, saved_line("auto_discovery"@, b));
            s4 == ParseState {
                config: ConfigModel {
                    refresh_ms: c.refresh_ms,
                    process_refresh_ms: c.process_refresh_ms,
                    offline_grace_ms: c.offline_grace_ms,
                    auto_discovery: c.auto_discovery,
                    ..st.config
                },
                saw_auto_discovery: true,
                ..st
            }
        }),
{
    reveal_strlit("refresh_ms");
    reveal_strlit("process_refresh_ms");
    reveal_strlit("offline_grace_ms");
    reveal_strlit("auto_discovery");
    reveal_strlit("true");
    reveal_strlit("false");
    reveal_strlit("server");
    reveal_strlit("gpu");
    reveal_strlit("gpu_index");
    reveal_strlit("1");
    reveal_strlit("yes");
    reveal_strlit("on");
    reveal_strlit("0");
    reveal_strlit("no");
    reveal_strlit("off");
    let b: Seq<char> = if c.auto_discovery {
        "true"@
    } else {
        "false"@
    };
    lemma_digits_line(c.refresh_ms as nat);
    lemma_digits_line(c.process_refresh_ms as nat);
    lemma_digits_line(c.offline_grace_ms as nat);
    crate::text::lemma_parse_dec_repr(c.refresh_ms as nat, u64::MAX as nat);
    crate::text::lemma_parse_dec_repr(c.process_refresh_ms as nat, u64::MAX as nat);
    crate::text::lemma_parse_dec_repr(c.offline_grace_ms as nat, u64::MAX as nat);
    crate::text::lemma_trim_unchanged("refresh_ms"@);
    crate::text::lemma_trim_unchanged("process_refresh_ms"@);
    crate::text::lemma_trim_unchanged("offline_grace_ms"@);
    crate::text::lemma_trim_unchanged("auto_discovery"@);
    crate::text::lemma_trim_unchanged(b);
    let s1 = parse_step(st, saved_line("refresh_ms"@, dec_repr(c.refresh_ms as nat)));
    lemma_saved_step(st, "refresh_ms"@, dec_repr(c.refresh_ms as nat));
    let s2 = parse_step(s1, saved_line("process_refresh_ms"@, dec_repr(c.process_refresh_ms as nat)));
    lemma_saved_step(s1, "process_refresh_ms"@, dec_repr(c.process_refresh_ms as nat));
    let s3 = parse_step(s2, saved_line("offline_grace_ms"@, dec_repr(c.offline_grace_ms as nat)));
    lemma_saved_step(s2, "offline_grace_ms"@, dec_repr(c.offline_grace_ms as nat));
    lemma_saved_step(s3, "auto_discovery"@, b);
    assert(crate::text::to_lower(b) =~= b);
    assert(parse_bool_spec(b) == Some(c.auto_discovery));
}


proof fn lemma_parse_lines_push(ls: Seq<Seq<char>>, l: Seq<char>)
    ensures
        parse_lines(ls.push(l)) == parse_step(parse_lines(ls), l),
{
    assert(ls.push(l).drop_last() =~= ls);
}

/// The text written for the auto-discovery switch.
pub open spec fn switch_text(on: bool) -> Seq<char> {
    if on {
        "true"@
    } else {
        "false"@
    }
}

/// The lines a saved file opens with: the server, then the GPU selector,
/// each only where there is one.
pub open spec fn saved_head(c: ConfigModel) -> Seq<Seq<char>> {
    let g = selector_string(c.selector);
    let gpu: Seq<Seq<char>> = if g.len() > 0 {
        seq![saved_line("gpu"@, g)]
    } else {
        seq![]
    };
    match c.server {
        Some(sv) => seq![saved_line("server"@, sv)] + gpu,
        None => gpu,
    }
}

/// The lines a saved file ends with.
pub open spec fn saved_tail(c: ConfigModel) -> Seq<Seq<char>> {
    seq![
        saved_line("refresh_ms"@, dec_repr(c.refresh_ms as nat)),
        saved_line("process_refresh_ms"@, dec_repr(c.process_refresh_ms as nat)),
        saved_line("offline_grace_ms"@, dec_repr(c.offline_grace_ms as nat)),
        saved_line("auto_discovery"@, switch_text(c.auto_discovery)),
    ]
}

/// The state after reading the opening lines of a saved file.
pub open spec fn head_state(c: ConfigModel) -> ParseState {
    let g = selector_string(c.selector);
    ParseState {
        config: ConfigModel {
            server: c.server,
            selector: if g.len() > 0 {
                parse_selector(g)
            } else {
                SelectorModel::Auto
            },
            ..default_config()
        },
        saw_server: c.server is Some,
        saw_auto_discovery: false,
        saw_gpu_key: g.len() > 0,
        legacy_gpu_index: None,
    }
}

/// A saved file splits into its opening lines and its tail.
proof fn lemma_saved_text_lines(c: ConfigModel)
    requires
        sanitize_config(c) == c,
        match c.server {
            Some(s) => no_char(s, '\n'),
            None => true,
        },
        no_char(selector_string(c.selector), '\n'),
    ensures
        lines(config_text(c)) == saved_head(c) + saved_tail(c),
{
    reveal_strlit("server");
    reveal_strlit("gpu");
    let g = selector_string(c.selector);
    lemma_sanitized_selector_text(c.selector);
    lemma_trimmed_no_cr(g);
    let tail_text = line_of("refresh_ms"@, dec_repr(c.refresh_ms as nat)) + line_of(
        "process_refresh_ms"@,
        dec_repr(c.process_refresh_ms as nat),
    ) + line_of("offline_grace_ms"@, dec_repr(c.offline_grace_ms as nat)) + line_of(
        "auto_discovery"@,
        switch_text(c.auto_discovery),
    );
    lemma_tail_lines(c);
    assert(lines(tail_text) == saved_tail(c));
    let sl: Seq<char> = match c.server {
        Some(sv) => line_of("server"@, sv),
        None => seq![],
    };
    let gl: Seq<char> = if g.len() > 0 {
        line_of("gpu"@, g)
    } else {
        seq![]
    };
    assert(config_text(c) =~= sl + (gl + tail_text));
    let pre_g: Seq<Seq<char>> = if g.len() > 0 {
        seq![saved_line("gpu"@, g)]
    } else {
        seq![]
    };
    if g.len() > 0 {
        lemma_saved_line_reads("gpu"@, g, tail_text);
    } else {
        assert(gl + tail_text =~= tail_text);
    }
    assert(lines(gl + tail_text) =~= pre_g + saved_tail(c));
    match c.server {
        Some(sv) => {
            crate::text::lemma_trim_idempotent(sv);
            lemma_trimmed_no_cr(sv);
            lemma_saved_line_reads("server"@, sv, gl + tail_text);
            assert(saved_head(c) =~= seq![saved_line("server"@, sv)] + pre_g);
        },
        None => {
            assert(sl + (gl + tail_text) =~= gl + tail_text);
        },
    }
}

/// Reading the opening lines sets the server and the selector.
proof fn lemma_head_state(c: ConfigModel)
    requires
        sanitize_config(c) == c,
    ensures
        parse_lines(saved_head(c)) == head_state(c),
{
    reveal_strlit("server");
    reveal_strlit("gpu");
    let g = selector_string(c.selector);
    lemma_sanitized_selector_text(c.selector);
    crate::text::lemma_trim_unchanged("server"@);
    crate::text::lemma_trim_unchanged("gpu"@);
    let init = initial_state();
    let e = Seq::<Seq<char>>::empty();
    match c.server {
        Some(sv) => {
            crate::text::lemma_trim_idempotent(sv);
            let s1 = saved_line("server"@, sv);
            assert(seq![s1] =~= e.push(s1));
            lemma_parse_lines_push(e, s1);
            lemma_saved_step(init, "server"@, sv);
            if g.len() > 0 {
                assert(saved_head(c) =~= seq![s1].push(saved_line("gpu"@, g)));
                lemma_parse_lines_push(seq![s1], saved_line("gpu"@, g));
                lemma_saved_step(parse_lines(seq![s1]), "gpu"@, g);
            } else {
                assert(saved_head(c) =~= seq![s1]);
            }
        },
        None => {
            if g.len() > 0 {
                assert(saved_head(c) =~= e.push(saved_line("gpu"@, g)));
                lemma_parse_lines_push(e, saved_line("gpu"@, g));
                lemma_saved_step(init, "gpu"@, g);
            } else {
                assert(saved_head(c) =~= e);
            }
        },
    }
}

/// Reading the tail after any opening lines sets the intervals and the switch.
proof fn lemma_tail_state(head: Seq<Seq<char>>, c: ConfigModel)
    ensures
        parse_lines(head + saved_tail(c)) == (ParseState {
            config: ConfigModel {
                refresh_ms: c.refresh_ms,
                process_refresh_ms: c.process_refresh_ms,
                offline_grace_ms: c.offline_grace_ms,
                auto_discovery: c.auto_discovery,
                ..parse_lines(head).config
            },
            saw_auto_discovery: true,
            ..parse_lines(head)
        }),
{
    let t = saved_tail(c);
    assert(head + t =~= head.push(t[0]).push(t[1]).push(t[2]).push(t[3]));
    lemma_parse_lines_push(head.push(t[0]).push(t[1]).push(t[2]), t[3]);
    lemma_parse_lines_push(head.push(t[0]).push(t[1]), t[2]);
    lemma_parse_lines_push(head.push(t[0]), t[1]);
    lemma_parse_lines_push(head, t[0]);
    lemma_tail_steps(parse_lines(head), c);
}

/// Saving a configuration and loading the file back gives the same
/// configuration. This holds for every configuration as the monitor keeps
/// it (sanitized) whose server and GPU selector fit on one line and whose
/// selector text reads back as that selector.
pub proof fn law_saved_config_loads_back(c: ConfigModel)
    requires
        sanitize_config(c) == c,
        match c.server {
            Some(s) => no_char(s, '\n'),
            None => true,
        },
        no_char(selector_string(c.selector), '\n'),
        selector_string(c.selector).len() > 0 ==> sanitize_selector(
            parse_selector(selector_string(c.selector)),
        ) == c.selector,
    ensures
        parse_config_spec(config_text(c)) == c,
{
    lemma_saved_text_lines(c);
    lemma_head_state(c);
    lemma_tail_state(saved_head(c), c);
    lemma_sanitized_selector_text(c.selector);
    let st = parse_lines(lines(config_text(c)));
    assert(st.saw_auto_discovery);
    assert(st.saw_gpu_key || st.legacy_gpu_index is None);
    assert(sanitize_selector(st.config.selector) == c.selector);
}

} // verus!
