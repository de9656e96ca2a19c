use app_deleter::entry::{icon_to_image_path, parse_entry, registry_string, RawEntry};

fn s(x: &str) -> Option<String> {
    Some(x.to_string())
}

fn raw(name: &str) -> RawEntry {
    RawEntry {
        display_name: s(name),
        system_component: None,
        release_type: None,
        parent_key_name: None,
        uninstall_string: None,
        quiet_uninstall_string: None,
        install_location: None,
        display_icon: None,
        estimated_size: None,
        publisher: None,
        display_version: None,
    }
}

#[test]
fn registry_string_trims_and_drops_blank_values() {
    assert_eq!(registry_string(&s("  x y \t")), s("x y"));
    assert_eq!(registry_string(&s(" \t ")), None);
    assert_eq!(registry_string(&None), None);
}

#[test]
fn full_entry_is_converted() {
    let mut r = raw(" Visual Studio Code ");
    r.publisher = s(" Microsoft ");
    r.display_version = s("1.90");
    r.uninstall_string = s("  \"C:\\VS\\unins000.exe\"  ");
    r.quiet_uninstall_string = s("q.exe /S");
    r.install_location = s(" C:\\VS ");
    r.estimated_size = Some(1000);
    let app = parse_entry(r, "SOFTWARE\\Uninstall", "{ABC}").unwrap();
    assert_eq!(app.id, "SOFTWARE\\Uninstall\\{ABC}");
    assert_eq!(app.name, " Visual Studio Code ");
    assert_eq!(app.publisher, s("Microsoft"));
    assert_eq!(app.version, s("1.90"));
    assert_eq!(app.uninstall_string, s("\"C:\\VS\\unins000.exe\""));
    assert_eq!(app.install_location, s("C:\\VS"));
    assert_eq!(app.size_bytes, 1_024_000);
    assert!(app.size_estimated);
    assert_eq!(app.icon_path, None);
}

#[test]
fn quiet_uninstall_string_is_the_fallback() {
    let mut r = raw("App");
    r.uninstall_string = s("   ");
    r.quiet_uninstall_string = s(" q.exe /S ");
    let app = parse_entry(r, "B", "K").unwrap();
    assert_eq!(app.uninstall_string, s("q.exe /S"));
    assert_eq!(app.size_bytes, 0);
    assert_eq!(app.install_location, None);
}

#[test]
fn largest_estimated_size_does_not_overflow() {
    let mut r = raw("Big");
    r.estimated_size = Some(u32::MAX);
    let app = parse_entry(r, "B", "K").unwrap();
    assert_eq!(app.size_bytes, u32::MAX as u64 * 1024);
}

#[test]
fn entries_without_a_name_are_skipped() {
    let mut r = raw("x");
    r.display_name = None;
    assert!(parse_entry(r, "B", "K").is_none());
    assert!(parse_entry(raw(" \t "), "B", "K").is_none());
}

#[test]
fn system_components_are_skipped() {
    let mut r = raw("Runtime");
    r.system_component = Some(1);
    assert!(parse_entry(r, "B", "K").is_none());
    let mut r = raw("Runtime");
    r.system_component = Some(0);
    assert!(parse_entry(r, "B", "K").is_some());
}

#[test]
fn updates_hotfixes_and_security_releases_are_skipped() {
    for rt in ["Update", "Security Update", "HOTFIX", "ServicePack Security"] {
        let mut r = raw("KB123");
        r.release_type = s(rt);
        assert!(parse_entry(r, "B", "K").is_none(), "{rt}");
    }
    let mut r = raw("App");
    r.release_type = s("Application");
    assert!(parse_entry(r, "B", "K").is_some());
}

#[test]
fn child_entries_are_skipped() {
    let mut r = raw("Part");
    r.parent_key_name = s("Parent");
    assert!(parse_entry(r, "B", "K").is_none());
    let mut r = raw("Part");
    r.parent_key_name = s("  ");
    assert!(parse_entry(r, "B", "K").is_some());
}

#[test]
fn icon_paths_keep_only_ico_files() {
    assert_eq!(icon_to_image_path(s("\"C:\\App\\app.ico\",0")), s("C:\\App\\app.ico"));
    assert_eq!(icon_to_image_path(s("C:\\App\\APP.ICO, -2 ")), s("C:\\App\\APP.ICO"));
    assert_eq!(icon_to_image_path(s("C:\\App\\app.ico,")), s("C:\\App\\app.ico"));
    assert_eq!(icon_to_image_path(s("C:\\App\\app.exe,0")), None);
    assert_eq!(icon_to_image_path(s("C:\\a,b\\icon.ico")), s("C:\\a,b\\icon.ico"));
    assert_eq!(icon_to_image_path(s("  \"C:\\x.ico\"  ")), s("C:\\x.ico"));
    assert_eq!(icon_to_image_path(None), None);
}

#[test]
fn entry_icon_goes_through_icon_reduction() {
    let mut r = raw("App");
    r.display_icon = s(" \"C:\\App\\app.ico\",0 ");
    let app = parse_entry(r, "B", "K").unwrap();
    assert_eq!(app.icon_path, s("C:\\App\\app.ico"));
}
