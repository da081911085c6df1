use orsiktop::config::{
    config_dir, config_path, parse_bool, parse_config, render_config, AppConfig,
    MAX_OFFLINE_GRACE_MS, MAX_PROCESS_REFRESH_MS,
};
use orsiktop::domain::GpuSelector;

#[test]
fn parses_complete_config() {
    let config = parse_config(
        "server=http://10.0.0.7:9090\n\
         gpu=GPU-1a2b3c\n\
         refresh_ms=200\n\
         process_refresh_ms=1500\n\
         offline_grace_ms=4000\n\
         auto_discovery=off\n",
    );
    assert_eq!(config.server.as_deref(), Some("http://10.0.0.7:9090"));
    assert_eq!(
        config.gpu_selector,
        GpuSelector::Uuid("GPU-1a2b3c".to_string())
    );
    assert_eq!(config.refresh_ms, 200);
    assert_eq!(config.process_refresh_ms, 1500);
    assert_eq!(config.offline_grace_ms, 4000);
    assert!(!config.auto_discovery);
}

#[test]
fn legacy_gpu_index_migrates_to_index_selector() {
    let config = parse_config("gpu_index=2\n");
    assert_eq!(config.gpu_selector, GpuSelector::Index(2));
}

#[test]
fn modern_gpu_key_wins_over_legacy_gpu_index() {
    let first = parse_config("gpu_index=1\ngpu=0000:41:00.0\n");
    assert_eq!(
        first.gpu_selector,
        GpuSelector::PciBusId("0000:41:00.0".to_string())
    );
    let second = parse_config("gpu=0000:41:00.0\ngpu_index=1\n");
    assert_eq!(
        second.gpu_selector,
        GpuSelector::PciBusId("0000:41:00.0".to_string())
    );
}

#[test]
fn legacy_server_config_keeps_manual_server_semantics() {
    let config = parse_config("server=http://10.0.0.7:9090\n");
    assert_eq!(config.server.as_deref(), Some("http://10.0.0.7:9090"));
    assert!(!config.auto_discovery);
}

#[test]
fn gpu_selector_round_trips_through_save_and_parse() {
    for raw in ["", "3", "GPU-1a2b3c", "0000:41:00.0"] {
        let first = GpuSelector::parse(raw);
        let second = GpuSelector::parse(first.as_string().as_str());
        assert_eq!(first, second, "round trip changed selector for {raw}");
    }
    assert_eq!(GpuSelector::parse("").as_string(), "");
    assert_eq!(GpuSelector::Index(5).as_string(), "5");
    assert_eq!(
        GpuSelector::PciBusId("0000:41:00.0".to_string()).as_string(),
        "0000:41:00.0"
    );
}

#[test]
fn gpu_selector_sanitized_trims_blank_to_auto() {
    assert_eq!(
        GpuSelector::Uuid("   ".to_string()).sanitized(),
        GpuSelector::Auto
    );
    assert_eq!(
        GpuSelector::PciBusId(" 0000:41:00.0 ".to_string()).sanitized(),
        GpuSelector::PciBusId("0000:41:00.0".to_string())
    );
    assert_eq!(GpuSelector::Index(2).sanitized(), GpuSelector::Index(2));
}

#[test]
fn sanitizes_runtime_intervals() {
    let config = AppConfig {
        refresh_ms: 1,
        process_refresh_ms: 99_999,
        offline_grace_ms: 99_999,
        ..AppConfig::default()
    }
    .sanitized();
    assert_eq!(config.refresh_ms, 100);
    assert_eq!(config.process_refresh_ms, MAX_PROCESS_REFRESH_MS);
    assert_eq!(config.offline_grace_ms, MAX_OFFLINE_GRACE_MS);
}

#[test]
fn bool_values_are_case_insensitive() {
    assert_eq!(parse_bool("YES"), Some(true));
    assert_eq!(parse_bool("OFF"), Some(false));
    assert_eq!(parse_bool(" off "), None);
    assert_eq!(parse_bool("1"), Some(true));
    assert_eq!(parse_bool("maybe"), None);
}

#[test]
fn rendered_config_parses_back_to_the_same_settings() {
    let config = AppConfig {
        server: Some("http://10.0.0.7:9090".to_string()),
        gpu_selector: GpuSelector::PciBusId("0000:41:00.0".to_string()),
        refresh_ms: 300,
        process_refresh_ms: 2000,
        offline_grace_ms: 500,
        auto_discovery: false,
    };
    let text = render_config(&config);
    assert_eq!(parse_config(&text), config);
}

#[test]
fn config_location_follows_xdg_then_home() {
    assert_eq!(
        config_dir(Some("/x/cfg"), Some("/home/u")).as_deref(),
        Some("/x/cfg/orsiktop")
    );
    assert_eq!(
        config_dir(Some(""), Some("/home/u")).as_deref(),
        Some("/home/u/.config/orsiktop")
    );
    assert_eq!(config_dir(None, None), None);
    assert_eq!(
        config_path(None, Some("/home/u")).as_deref(),
        Some("/home/u/.config/orsiktop/config")
    );
}

#[test]
fn sanitizing_twice_is_sanitizing_once() {
    let config = AppConfig {
        server: Some("  http://10.0.0.5:8080  ".to_string()),
        gpu_selector: GpuSelector::PciBusId(" 00000000:41:00.0 ".to_string()),
        refresh_ms: 5,
        process_refresh_ms: 999_999,
        offline_grace_ms: 999_999,
        auto_discovery: false,
    };
    let once = config.sanitized();
    assert_eq!(once.gpu_selector, GpuSelector::PciBusId("0000:41:00.0".to_string()));
    assert_eq!(once.server.as_deref(), Some("http://10.0.0.5:8080"));
    assert_eq!(once.clone().sanitized(), once);
}
