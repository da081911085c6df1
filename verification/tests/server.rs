use orsiktop::config::AppConfig;
use orsiktop::server::{
    is_cargo_install_dir, resolve_server, resolve_server_full, server_is_auto_discovered,
};
use orsiktop::system::FixtureSys;

#[test]
fn manual_server_is_used_when_auto_discovery_is_disabled() {
    let settings = AppConfig {
        server: Some("http://10.0.0.5:8080".to_string()),
        auto_discovery: false,
        ..AppConfig::default()
    };
    assert_eq!(resolve_server(&FixtureSys::default(), &settings), "http://10.0.0.5:8080");
}

#[test]
fn cargo_install_dir_is_recognized() {
    assert!(is_cargo_install_dir("/home/user/.cargo/bin"));
    assert!(!is_cargo_install_dir("/home/user/.local/bin"));
}

#[test]
fn discovered_server_is_resolved_with_its_process() {
    let mut sys = FixtureSys::default();
    sys.dir_entry("/proc", "321", false, false);
    sys.file("/proc/321/cmdline", "llama-server\0--port\09000");
    let settings = AppConfig::default();
    assert_eq!(
        resolve_server_full(&sys, &settings),
        ("http://127.0.0.1:9000".to_string(), Some(321))
    );
    assert!(server_is_auto_discovered(&sys, &settings));
    assert_eq!(
        resolve_server_full(&FixtureSys::default(), &settings),
        ("http://127.0.0.1:8080".to_string(), None)
    );
}
