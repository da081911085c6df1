use orsiktop::system::{FixtureSys, Sys};

#[test]
fn fixture_round_trips_files_dirs_and_symlinks() {
    let mut fixture = FixtureSys::default();
    fixture
        .file("/proc/cpuinfo", "vendor_id : GenuineIntel\n")
        .dir_entry("/sys/class/drm", "card0", false, true)
        .dir_entry("/sys/class/drm", "card0-HDMI-A-1", false, true)
        .dir_entry("/sys/class/drm", "version", false, false)
        .symlink(
            "/sys/class/drm/card0",
            "../../devices/pci0000:00/0000:00:02.0",
        );

    let sys = &fixture;
    assert_eq!(
        sys.read_to_string("/proc/cpuinfo").as_deref(),
        Some("vendor_id : GenuineIntel\n")
    );
    assert_eq!(sys.read_to_string("/proc/missing"), None);

    let entries = sys.read_dir("/sys/class/drm").unwrap();
    assert_eq!(entries.len(), 3);
    let card0 = entries.iter().find(|entry| entry.name == "card0").unwrap();
    assert!(card0.is_symlink);
    assert!(!card0.is_dir);

    assert_eq!(
        sys.symlink_target("/sys/class/drm/card0").as_deref(),
        Some("../../devices/pci0000:00/0000:00:02.0")
    );
    assert_eq!(sys.read_dir("/missing"), None);
}

#[test]
fn fixture_keeps_the_latest_file_content() {
    let mut fixture = FixtureSys::default();
    fixture.file("/a", "one").file("/a", "two");
    assert_eq!(fixture.read_to_string("/a").as_deref(), Some("two"));
}
