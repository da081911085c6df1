use orsiktop::discovery_llm::{
    cli_value, collect_candidates, connect_host, discover_processes, endpoint_from_args,
    is_llama_server_process, parse_cmdline, parse_port, select_endpoint, selected_endpoint_pid,
    ServerSource,
};
use orsiktop::system::FixtureSys;

fn cmdline(parts: &[&str]) -> String {
    parts.join("\0")
}

#[test]
fn recognizes_both_llama_server_cli_forms() {
    let server = vec!["/usr/bin/llama-server".to_string()];
    let serve = vec![
        "/home/user/.local/bin/llama".to_string(),
        "serve".to_string(),
    ];
    let unrelated = vec!["/usr/bin/llama".to_string(), "chat".to_string()];

    assert!(is_llama_server_process(&server));
    assert!(is_llama_server_process(&serve));
    assert!(!is_llama_server_process(&unrelated));
}

#[test]
fn discovers_endpoint_from_llama_serve_args() {
    let args = vec![
        "/home/user/.local/bin/llama".to_string(),
        "serve".to_string(),
        "--host".to_string(),
        "127.0.0.1".to_string(),
        "--port".to_string(),
        "8081".to_string(),
    ];

    assert_eq!(endpoint_from_args(&args), "http://127.0.0.1:8081");
}

#[test]
fn wildcard_bind_is_reached_through_loopback() {
    let args = vec![
        "/usr/bin/llama-server".to_string(),
        "--host=0.0.0.0".to_string(),
        "--port=9090".to_string(),
    ];

    assert_eq!(endpoint_from_args(&args), "http://127.0.0.1:9090");
}

fn proc_fixture() -> FixtureSys {
    let mut sys = FixtureSys::default();
    sys.dir_entry("/proc", "4000", false, false)
        .dir_entry("/proc", "5000", false, false)
        .dir_entry("/proc", "6000", false, false);
    sys.file(
        "/proc/4000/cmdline",
        &cmdline(&["/usr/bin/llama-server", "--port", "9090"]),
    );
    sys.file(
        "/proc/5000/cmdline",
        &cmdline(&[
            "/usr/bin/llama-server",
            "--host",
            "127.0.0.1",
            "--port",
            "8081",
        ]),
    );
    sys.file(
        "/proc/6000/cmdline",
        &cmdline(&["/usr/bin/other", "--port", "1234"]),
    );
    sys
}

#[test]
fn discovers_all_servers_and_ignores_non_llama() {
    let sys = proc_fixture();
    let candidates = discover_processes(&sys);

    assert_eq!(candidates.len(), 2, "only the two llama servers");
    assert_eq!(candidates[0].endpoint, "http://127.0.0.1:8081");
    assert!(matches!(
        candidates[0].source,
        ServerSource::Process { pid: 5000 }
    ));
    assert_eq!(candidates[1].endpoint, "http://127.0.0.1:9090");
    assert!(matches!(
        candidates[1].source,
        ServerSource::Process { pid: 4000 }
    ));
}

#[test]
fn selection_is_by_port_not_pid() {
    let sys = proc_fixture();
    let candidates = discover_processes(&sys);

    let best = select_endpoint(&candidates, "http://127.0.0.1:8080");
    assert_eq!(best, "http://127.0.0.1:8081");
}

#[test]
fn dedupes_identical_endpoints() {
    let mut sys = FixtureSys::default();
    sys.dir_entry("/proc", "100", false, false)
        .dir_entry("/proc", "200", false, false);
    sys.file(
        "/proc/100/cmdline",
        &cmdline(&["/usr/bin/llama-server", "--port", "8080"]),
    );
    sys.file(
        "/proc/200/cmdline",
        &cmdline(&["/usr/bin/llama-server", "--port", "8080"]),
    );

    let candidates = discover_processes(&sys);
    assert_eq!(candidates.len(), 1);
    assert_eq!(candidates[0].endpoint, "http://127.0.0.1:8080");
}

#[test]
fn missing_proc_yields_no_candidates() {
    let sys = FixtureSys::default();
    assert!(discover_processes(&sys).is_empty());
}

#[test]
fn configured_and_default_selection() {
    let sys = FixtureSys::default();

    let c = collect_candidates(&sys, true, Some("http://10.0.0.7:9090"));
    assert_eq!(
        select_endpoint(&c, "http://127.0.0.1:8080"),
        "http://10.0.0.7:9090"
    );

    let c = collect_candidates(&sys, true, None);
    assert_eq!(
        select_endpoint(&c, "http://127.0.0.1:8080"),
        "http://127.0.0.1:8080"
    );
}

#[test]
fn configured_duplicate_of_discovered_is_not_pushed_twice() {
    let sys = proc_fixture();
    let c = collect_candidates(&sys, true, Some("http://127.0.0.1:8081"));
    assert_eq!(
        c.iter()
            .filter(|x| x.endpoint == "http://127.0.0.1:8081")
            .count(),
        1
    );
}

#[test]
fn auto_discovery_off_excludes_processes() {
    let sys = proc_fixture();
    let c = collect_candidates(&sys, false, Some("http://10.0.0.5:8080"));
    assert_eq!(c.len(), 1);
    assert!(matches!(c[0].source, ServerSource::Configured));
    assert_eq!(
        select_endpoint(&c, "http://127.0.0.1:8080"),
        "http://10.0.0.5:8080"
    );
}

#[test]
fn discovered_beats_configured_when_auto_is_on() {
    let sys = proc_fixture();
    let c = collect_candidates(&sys, true, Some("http://10.0.0.5:8080"));
    assert_eq!(c[0].source, ServerSource::Process { pid: 5000 });
    assert_eq!(
        select_endpoint(&c, "http://127.0.0.1:8080"),
        "http://127.0.0.1:8081"
    );
    assert!(c.iter().any(|x| x.endpoint == "http://10.0.0.5:8080"));
}

#[test]
fn selected_endpoint_maps_back_to_its_process() {
    let sys = proc_fixture();
    let c = collect_candidates(&sys, true, Some("http://10.0.0.5:8080"));
    assert_eq!(selected_endpoint_pid(&c, "http://127.0.0.1:9090"), Some(4000));
    assert_eq!(selected_endpoint_pid(&c, "http://10.0.0.5:8080"), None);
    assert_eq!(selected_endpoint_pid(&c, "http://elsewhere:1"), None);
}

#[test]
fn command_line_helpers() {
    assert_eq!(
        parse_cmdline("a\0\0b\0"),
        vec!["a".to_string(), "b".to_string()]
    );
    let args = vec!["x".to_string(), "--port".to_string()];
    assert_eq!(cli_value(&args, "--port"), None);
    assert_eq!(connect_host("::1"), "[::1]");
    assert_eq!(connect_host("fe80::2"), "[fe80::2]");
    assert_eq!(connect_host(" example.org "), "example.org");
    assert_eq!(parse_port("http://h:8081"), 8081);
    assert_eq!(parse_port("http://h"), 0);
    assert_eq!(
        endpoint_from_args(&["llama-server".to_string(), "--port".to_string(), "x".to_string()]),
        "http://127.0.0.1:8080"
    );
}

#[test]
fn discovered_process_records_its_command_line() {
    let sys = proc_fixture();
    let c = discover_processes(&sys);
    assert_eq!(
        c[0].command.as_deref(),
        Some("/usr/bin/llama-server --host 127.0.0.1 --port 8081")
    );
}
