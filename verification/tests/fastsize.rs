use app_deleter::fastsize::{
    child_path, classify_entry, file_size, is_dot_entry, name_len, search_pattern, total_size,
    DirScan, EntryKind, FILE_ATTRIBUTE_DIRECTORY, FILE_ATTRIBUTE_REPARSE_POINT,
};

fn wide(s: &str) -> Vec<u16> {
    s.encode_utf16().collect()
}

fn name_buf(s: &str) -> Vec<u16> {
    let mut v = wide(s);
    v.resize(260, 0);
    v
}

#[test]
fn name_len_stops_at_nul() {
    assert_eq!(name_len(&name_buf("abc")), 3);
    assert_eq!(name_len(&wide("abc")), 3);
    assert_eq!(name_len(&[0, 5]), 0);
}

#[test]
fn dot_entries_are_recognized() {
    assert!(is_dot_entry(&name_buf(".")));
    assert!(is_dot_entry(&name_buf("..")));
    assert!(!is_dot_entry(&name_buf("...")));
    assert!(!is_dot_entry(&name_buf(".git")));
    assert!(!is_dot_entry(&name_buf("a")));
}

#[test]
fn pattern_and_child_paths() {
    assert_eq!(search_pattern(&wide("C:\\Dir")), wide("C:\\Dir\\*\0"));
    assert_eq!(search_pattern(&wide("C:\\")), wide("C:\\*\0"));
    assert_eq!(search_pattern(&[]), wide("\\*\0"));
    assert_eq!(child_path(&wide("C:\\Dir"), &name_buf("sub")), wide("C:\\Dir\\sub"));
    assert_eq!(child_path(&wide("C:\\"), &name_buf("sub")), wide("C:\\sub"));
}

#[test]
fn file_size_combines_both_halves() {
    assert_eq!(file_size(0, 5), 5);
    assert_eq!(file_size(1, 5), (1u64 << 32) + 5);
    assert_eq!(file_size(u32::MAX, u32::MAX), u64::MAX);
}

#[test]
fn records_are_classified() {
    assert_eq!(classify_entry(&name_buf("."), FILE_ATTRIBUTE_DIRECTORY), EntryKind::Skip);
    assert_eq!(classify_entry(&name_buf("link"), FILE_ATTRIBUTE_DIRECTORY | FILE_ATTRIBUTE_REPARSE_POINT), EntryKind::Skip);
    assert_eq!(classify_entry(&name_buf("d"), FILE_ATTRIBUTE_DIRECTORY), EntryKind::Directory);
    assert_eq!(classify_entry(&name_buf("f.txt"), 0x20), EntryKind::File);
}

#[test]
fn scan_counts_files_and_stacks_directories() {
    let mut scan = DirScan::new(wide("C:\\R"));
    let dir = scan.next_dir().unwrap();
    assert_eq!(dir, wide("C:\\R"));
    scan.record(&dir, &name_buf("."), FILE_ATTRIBUTE_DIRECTORY, 0, 0);
    scan.record(&dir, &name_buf("a.bin"), 0x20, 0, 100);
    scan.record(&dir, &name_buf("sub"), FILE_ATTRIBUTE_DIRECTORY, 0, 0);
    scan.record(&dir, &name_buf("junction"), FILE_ATTRIBUTE_DIRECTORY | FILE_ATTRIBUTE_REPARSE_POINT, 0, 0);
    scan.record(&dir, &name_buf("b.bin"), 0x20, 1, 0);
    assert_eq!(scan.total, 100 + (1u64 << 32));
    assert_eq!(scan.next_dir(), Some(wide("C:\\R\\sub")));
    assert_eq!(scan.next_dir(), None);
    assert!(scan.would_overflow(&name_buf("huge"), 0x20, u32::MAX, u32::MAX));
    assert!(!scan.would_overflow(&name_buf("d"), FILE_ATTRIBUTE_DIRECTORY, u32::MAX, u32::MAX));
}

#[test]
fn take_pending_hands_over_the_stack() {
    let mut scan = DirScan::empty();
    scan.record(&wide("C:\\R"), &name_buf("x"), FILE_ATTRIBUTE_DIRECTORY, 0, 0);
    scan.record(&wide("C:\\R"), &name_buf("y"), FILE_ATTRIBUTE_DIRECTORY, 0, 0);
    let subs = scan.take_pending();
    assert_eq!(subs, vec![wide("C:\\R\\x"), wide("C:\\R\\y")]);
    assert!(scan.pending.is_empty());
    assert_eq!(total_size(7, &[1, 2, 3]), 13);
}
