use app_deleter::data_roots::{
    appdata_roots, collect_roots, dedupe_roots, normalize, normalize_parts, size_update,
    strong_match, sum_sizes, AppDataIndex, Job,
};
use app_deleter::entry::InstalledApp;

fn strings(v: &[&str]) -> Vec<String> {
    v.iter().map(|s| s.to_string()).collect()
}

#[test]
fn normalize_keeps_lowercase_alphanumerics() {
    assert_eq!(normalize("Visual Studio Code"), "visualstudiocode");
    assert_eq!(normalize("7-Zip 23.01 (x64)"), "7zip2301x64");
    assert_eq!(normalize("Ünïcode Ärger"), "ünïcodeärger");
    assert_eq!(normalize("--- ..."), "");
}

#[test]
fn strong_match_cases() {
    assert!(strong_match("discord", "discord"));
    assert!(strong_match("visualstudiocode", "visualstudio"));
    assert!(!strong_match("visualstudiocodeinsidersbeta", "visualstudio"));
    assert!(!strong_match("abc", "abcd"));
    assert!(strong_match("abcd", "abcdefgh"));
    assert!(!strong_match("abcd", "abcdefghi"));
    assert!(!strong_match("", ""));
    assert!(strong_match("zoom", "zoomer2"));
    assert!(!strong_match("zoom", "zoomer2xx"));
    assert!(strong_match("zoom", "zoomer"));
}

#[test]
fn strong_match_is_symmetric_on_examples() {
    let names = ["discord", "discordptb", "abcd", "abcdefgh", "abcdefghi", "x", "steam", "steamapps"];
    for a in names {
        for b in names {
            assert_eq!(strong_match(a, b), strong_match(b, a), "{a} {b}");
        }
    }
}

#[test]
fn matches_skips_short_names() {
    let mut idx = AppDataIndex::new();
    idx.add("Git", "C:\\Data\\Git".to_string());
    idx.add("Discord", "C:\\Data\\Discord".to_string());
    idx.add("DiscordPTB", "C:\\Data\\DiscordPTB".to_string());
    idx.add("Spotify", "C:\\Data\\Spotify".to_string());
    assert!(idx.matches("git").is_empty());
    assert_eq!(idx.matches("discord"), strings(&["C:\\Data\\Discord", "C:\\Data\\DiscordPTB"]));
    assert_eq!(idx.entries[0].0, "git");
}

#[test]
fn dedupe_drops_covered_folders() {
    let kept = dedupe_roots(strings(&["C:\\A\\B", "c:\\a", "C:\\AB"]));
    assert_eq!(kept, strings(&["c:\\a", "C:\\AB"]));
}

#[test]
fn dedupe_keeps_first_of_equal_folders() {
    let kept = dedupe_roots(strings(&["D:\\X", "d:\\x", "D:\\Y"]));
    assert_eq!(kept, strings(&["D:\\X", "D:\\Y"]));
}

#[test]
fn dedupe_laws_on_example() {
    let input = strings(&["C:\\P\\App\\sub", "C:\\P\\App", "C:\\Users\\u\\AppData\\App", "c:\\p\\app\\x\\y", "C:\\P\\Apple"]);
    let kept = dedupe_roots(input.clone());
    let covers = |k: &str, r: &str| {
        let (k, r) = (k.to_lowercase(), r.to_lowercase());
        r == k || r.starts_with(&(k + "\\"))
    };
    for k in &kept {
        assert!(input.contains(k));
    }
    for r in &input {
        assert!(kept.iter().any(|k| covers(k, r)));
    }
    for i in 0..kept.len() {
        for j in i + 1..kept.len() {
            assert!(!covers(&kept[i], &kept[j]));
        }
    }
    assert_eq!(kept.len(), 3);
}

fn job() -> Job {
    let app = InstalledApp {
        id: "K\\1".to_string(),
        name: "Discord".to_string(),
        publisher: None,
        version: None,
        install_location: Some("C:\\Apps\\Discord".to_string()),
        size_bytes: 4096,
        size_estimated: true,
        uninstall_string: None,
        icon_path: None,
    };
    Job::new(&app, Some("C:\\Icons".to_string()))
}

#[test]
fn job_carries_the_normalized_name() {
    let j = job();
    assert_eq!(j.name_norm, "discord");
    assert_eq!(j.fallback_bytes, 4096);
    assert_eq!(j.icon_dir.as_deref(), Some("C:\\Icons"));
}

#[test]
fn collect_roots_prefers_install_folder_then_icon_folder() {
    let mut idx = AppDataIndex::new();
    idx.add("discord", "C:\\Apps\\Discord\\data".to_string());
    idx.add("Discord", "C:\\Roaming\\discord".to_string());
    let j = job();
    assert_eq!(collect_roots(&j, true, true, &idx), strings(&["C:\\Apps\\Discord", "C:\\Roaming\\discord"]));
    assert_eq!(
        collect_roots(&j, false, true, &idx),
        strings(&["C:\\Icons", "C:\\Roaming\\discord", "C:\\Apps\\Discord\\data"])
    );
    assert_eq!(collect_roots(&j, false, false, &AppDataIndex::new()), Vec::<String>::new());
}

#[test]
fn size_update_falls_back_to_estimate_without_folders() {
    let j = job();
    let u = size_update(&j, &[]);
    assert_eq!((u.id.as_str(), u.size_bytes, u.size_estimated), ("K\\1", 4096, true));
    let u = size_update(&j, &[10, 20, 0]);
    assert_eq!((u.size_bytes, u.size_estimated), (30, false));
    let u = size_update(&j, &[0]);
    assert_eq!((u.size_bytes, u.size_estimated), (0, false));
    assert_eq!(sum_sizes(&[u64::MAX - 1, 1]), u64::MAX);
}

#[test]
fn appdata_roots_order() {
    let s = |x: &str| Some(x.to_string());
    assert_eq!(
        appdata_roots(s("R"), s("LL"), s("L"), s("PD")),
        strings(&["R", "LL", "L", "PD"])
    );
    assert_eq!(appdata_roots(None, s("LL"), None, s("PD")), strings(&["PD"]));
    assert_eq!(appdata_roots(s("R"), None, s("L"), None), strings(&["R", "L"]));
}

#[test]
fn kelvin_sign_folder_is_kept_beside_the_one_it_contains() {
    // "\u{212A}" (KELVIN SIGN) lower-cases to "k" but takes 3 bytes, so it sorts
    // after "k\x" and is kept although it lower-cases to that folder's parent.
    let kept = dedupe_roots(strings(&["k\\x", "\u{212A}"]));
    assert_eq!(kept, strings(&["k\\x", "\u{212A}"]));
}

#[test]
fn strong_match_counts_characters() {
    assert!(!strong_match("가나", "가나다"));
    assert!(strong_match("가나다라", "가나다라마바"));
    assert!(strong_match("가나다라", "가나다라마바사아"));
    assert!(!strong_match("가나다라", "가나다라마바사아자"));
    assert!(strong_match("가나다라마", "가나다라"));
    assert!(!strong_match("가나다마", "가나다라마"));
    assert!(strong_match("가나다라마", "가나다라마"));
}

#[test]
fn normalize_parts_joins_flagged_lowercase_forms() {
    let lowers = vec![vec!['a'], vec![' '], vec!['i', '\u{307}'], vec!['-']];
    assert_eq!(normalize_parts(&[true, false, true, false], &lowers), "ai\u{307}");
    assert_eq!(normalize_parts(&[], &[]), "");
    assert_eq!(normalize("İx"), "i\u{307}x");
}

#[test]
fn dedupe_is_idempotent_on_example() {
    let input = strings(&["C:\\P\\App\\sub", "C:\\P\\App", "c:\\p\\app", "C:\\Q", "C:\\P\\Apple"]);
    let once = dedupe_roots(input);
    assert_eq!(dedupe_roots(once.clone()), once);
    assert_eq!(once, strings(&["C:\\Q", "C:\\P\\App", "C:\\P\\Apple"]));
}
