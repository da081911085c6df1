//! Which llama.cpp server the monitor watches, and how this program was
//! installed.

use vstd::prelude::*;

use crate::config::AppConfig;
use crate::discovery_llm::{
    cands_view, collect_candidates, collect_spec, discover_processes, discover_processes_spec,
    endpoint_pid, select_endpoint, select_spec, selected_endpoint_pid,
};
use crate::domain::opt_view;
use crate::paths::{components, components_of, file_name, file_name_of};
use crate::system::Sys;
use crate::text::{chars_of, eq_chars};

verus! {

/// The endpoint monitored when nothing else is known.
pub const DEFAULT_SERVER: &'static str = "http://127.0.0.1:8080";

/// A `bin` directory directly inside `.cargo` (a `cargo install` location).
pub open spec fn is_cargo_install_spec(dir: Seq<char>) -> bool {
    let cs = components(dir);
    file_name(dir) == Some("bin"@) && cs.len() >= 2 && cs[cs.len() - 2] == ".cargo"@
}

pub fn is_cargo_install_dir(dir: &str) -> (r: bool)
    ensures
        r == is_cargo_install_spec(dir@),
{
    proof {
        reveal_strlit("bin");
        reveal_strlit(".cargo");
    }
    let name = match file_name_of(dir) {
        Some(n) => n,
        None => return false,
    };
    if !eq_chars(name.as_slice(), chars_of("bin").as_slice()) {
        return false;
    }
    let cs = components_of(dir);
    if cs.len() < 2 {
        return false;
    }
    let p = &cs[cs.len() - 2];
    assert(p@ == components(dir@)[components(dir@).len() - 2]);
    eq_chars(p.as_slice(), chars_of(".cargo").as_slice())
}

/// The endpoint to monitor and the local process behind it, from the
/// candidates `sys` shows under `settings`.
pub open spec fn resolve_spec<S: Sys>(sys: &S, settings: crate::config::ConfigModel) -> (Seq<char>, Option<u32>) {
    let cands = collect_spec(sys, settings.auto_discovery, settings.server);
    let endpoint = select_spec(cands, DEFAULT_SERVER@);
    (endpoint, endpoint_pid(cands, endpoint))
}

/// Resolve the endpoint to monitor *and* the local process PID behind it,
/// scanning `/proc` once.
pub fn resolve_server_full<S: Sys>(sys: &S, settings: &AppConfig) -> (r: (String, Option<u32>))
    ensures
        r.0@ == resolve_spec(sys, settings@).0,
        r.1 == resolve_spec(sys, settings@).1,
{
    let configured = match &settings.server {
        Some(s) => Some(s.as_str()),
        None => None,
    };
    let candidates = collect_candidates(sys, settings.auto_discovery, configured);
    let endpoint = select_endpoint(candidates.as_slice(), DEFAULT_SERVER);
    let pid = selected_endpoint_pid(candidates.as_slice(), endpoint.as_str());
    (endpoint, pid)
}

pub fn resolve_server<S: Sys>(sys: &S, settings: &AppConfig) -> (r: String)
    ensures
        r@ == resolve_spec(sys, settings@).0,
{
    resolve_server_full(sys, settings).0
}

/// The local process PID behind the resolved endpoint, when it was produced
/// by a discovered server process; `None` for configured/remote endpoints.
pub fn resolve_server_pid<S: Sys>(sys: &S, settings: &AppConfig) -> (r: Option<u32>)
    ensures
        r == resolve_spec(sys, settings@).1,
{
    resolve_server_full(sys, settings).1
}

/// True when auto-discovery is enabled and at least one local llama server
/// process is running.
pub fn server_is_auto_discovered<S: Sys>(sys: &S, settings: &AppConfig) -> (r: bool)
    ensures
        r == (settings.auto_discovery && discover_processes_spec(sys).len() > 0),
{
    if !settings.auto_discovery {
        return false;
    }
    let found = discover_processes(sys);
    assert(cands_view(found@).len() == found@.len());
    found.len() > 0
}

} // verus!
