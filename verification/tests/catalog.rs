use app_deleter::catalog::{arrange_apps, merge_apps, sort_apps_by_size};
use app_deleter::entry::InstalledApp;

fn app(id: &str, name: &str, size: u64, uninstall: Option<&str>) -> InstalledApp {
    InstalledApp {
        id: id.to_string(),
        name: name.to_string(),
        publisher: None,
        version: None,
        install_location: None,
        size_bytes: size,
        size_estimated: true,
        uninstall_string: uninstall.map(|s| s.to_string()),
        icon_path: None,
    }
}

#[test]
fn same_name_in_any_case_is_listed_once() {
    let merged = merge_apps(vec![app("1", "Foo", 1, None), app("2", "FOO", 2, None), app("3", "bar", 3, None)]);
    let ids: Vec<&str> = merged.iter().map(|a| a.id.as_str()).collect();
    assert_eq!(ids, vec!["1", "3"]);
}

#[test]
fn record_with_uninstall_command_is_preferred() {
    let merged = merge_apps(vec![
        app("1", "Foo", 1, None),
        app("2", "foo", 2, Some("u2.exe")),
        app("3", "FOO", 3, Some("u3.exe")),
    ]);
    assert_eq!(merged.len(), 1);
    assert_eq!(merged[0].id, "2");
}

#[test]
fn first_record_with_uninstall_command_is_kept() {
    let merged = merge_apps(vec![app("1", "Foo", 1, Some("a")), app("2", "foo", 2, Some("b"))]);
    assert_eq!(merged.len(), 1);
    assert_eq!(merged[0].id, "1");
}

#[test]
fn largest_first_and_ties_keep_their_order() {
    let sorted = sort_apps_by_size(vec![
        app("a", "a", 5, None),
        app("b", "b", 10, None),
        app("c", "c", 5, None),
        app("d", "d", 0, None),
        app("e", "e", 10, None),
    ]);
    let ids: Vec<&str> = sorted.iter().map(|a| a.id.as_str()).collect();
    assert_eq!(ids, vec!["b", "e", "a", "c", "d"]);
}

#[test]
fn arranged_list_is_merged_and_sorted() {
    let list = arrange_apps(vec![
        app("1", "Small", 1, Some("x")),
        app("2", "Big", 100, None),
        app("3", "big", 50, Some("y")),
        app("4", "Mid", 10, None),
    ]);
    let ids: Vec<&str> = list.iter().map(|a| a.id.as_str()).collect();
    assert_eq!(ids, vec!["3", "4", "1"]);
    for w in list.windows(2) {
        assert!(w[0].size_bytes >= w[1].size_bytes);
    }
}

#[test]
fn empty_list_stays_empty() {
    assert!(arrange_apps(Vec::new()).is_empty());
}
