use lsd_table::listing::{
    classify_entry, classify_with_stamp, extract_files_from_entries, EntryKind, EntryMeta, RawEntry,
};

fn meta(is_dir: bool, is_file: bool, mode: u32, len: u64, secs: Option<i64>) -> Option<EntryMeta> {
    Some(EntryMeta { is_dir, is_file, mode, len, modified_secs: secs })
}

fn file(name: &str, mode: u32, len: u64) -> RawEntry {
    RawEntry { name: name.to_string(), meta: meta(false, true, mode, len, Some(0)) }
}

fn dir(name: &str) -> RawEntry {
    RawEntry { name: name.to_string(), meta: meta(true, false, 0o755, 4096, Some(86_400)) }
}

fn names(v: &[lsd_table::listing::FileInfo]) -> Vec<String> {
    v.iter().map(|f| f.name.clone()).collect()
}

#[test]
fn regular_file_is_classified_with_formatted_fields() {
    let (kind, info) = classify_entry(&file("notes.txt", 0o644, 1536)).unwrap();
    assert_eq!(kind, EntryKind::File);
    assert_eq!(info.name, "notes.txt");
    assert_eq!(info.readable_size, "1.50 KB");
    assert_eq!(info.modified_at, "1970-01-01 00:00:00");
}

#[test]
fn timestamp_is_utc() {
    let e = RawEntry { name: "x".to_string(), meta: meta(false, true, 0o644, 0, Some(1_700_000_000)) };
    let (_, info) = classify_entry(&e).unwrap();
    assert_eq!(info.modified_at, "2023-11-14 22:13:20");
}

#[test]
fn execute_bit_beats_extension() {
    for mode in [0o100, 0o010, 0o001, 0o755] {
        let (kind, _) = classify_entry(&file("photo.jpg", mode, 1)).unwrap();
        assert_eq!(kind, EntryKind::Executable);
    }
    let (kind, _) = classify_entry(&file("run.sh", 0o644, 1)).unwrap();
    assert_eq!(kind, EntryKind::File);
}

#[test]
fn directory_ignores_execute_bits() {
    let (kind, _) = classify_entry(&dir("sub")).unwrap();
    assert_eq!(kind, EntryKind::Directory);
}

#[test]
fn other_entry_types_are_files() {
    let e = RawEntry { name: "link".to_string(), meta: meta(false, false, 0o777, 10, Some(0)) };
    let (kind, _) = classify_entry(&e).unwrap();
    assert_eq!(kind, EntryKind::File);
}

#[test]
fn dot_entries_are_dropped() {
    assert!(classify_entry(&dir(".")).is_none());
    assert!(classify_entry(&dir("..")).is_none());
    assert!(classify_entry(&dir("...")).is_some());
}

#[test]
fn unreadable_entries_are_dropped() {
    let no_meta = RawEntry { name: "a".to_string(), meta: None };
    assert!(classify_entry(&no_meta).is_none());
    let no_time = RawEntry { name: "a".to_string(), meta: meta(false, true, 0, 0, None) };
    assert!(classify_entry(&no_time).is_none());
    let out_of_range = RawEntry { name: "a".to_string(), meta: meta(false, true, 0, 0, Some(i64::MAX)) };
    assert!(classify_entry(&out_of_range).is_none());
}

#[test]
fn given_stamp_is_used_as_is() {
    let e = file("a.rs", 0o644, 2048);
    let (kind, info) = classify_with_stamp(&e, Some("2001-02-03 04:05:06".to_string())).unwrap();
    assert_eq!(kind, EntryKind::File);
    assert_eq!(info.modified_at, "2001-02-03 04:05:06");
    assert_eq!(info.readable_size, "2.00 KB");
    assert!(classify_with_stamp(&e, None).is_none());
}

#[test]
fn three_entries_scenario() {
    let entries = vec![dir("."), dir(".."), file("notes.txt", 0o644, 12), dir("sub"), file("run.sh", 0o755, 40)];
    let dc = extract_files_from_entries(&entries);
    assert_eq!(names(&dc.directories), vec!["sub"]);
    assert_eq!(names(&dc.files), vec!["notes.txt"]);
    assert_eq!(names(&dc.executables), vec!["run.sh"]);
    let text = dc.table_text();
    assert!(text.contains("📁 1970-01-02 00:00:00\t4.00 KB\tsub/\n"));
    assert!(text.contains("📝 1970-01-01 00:00:00\t12.00 B\tnotes.txt\n"));
    assert!(text.contains("⚡ 1970-01-01 00:00:00\t40.00 B\trun.sh\n"));
    assert_eq!(text.lines().count(), 5);
}

#[test]
fn groups_sort_ignoring_case() {
    let entries = vec![
        file("b.txt", 0o644, 1),
        file("C.txt", 0o644, 1),
        file("a.txt", 0o644, 1),
        file("B.md", 0o644, 1),
        dir("Zeta"),
        dir("alpha"),
    ];
    let dc = extract_files_from_entries(&entries);
    assert_eq!(names(&dc.files), vec!["a.txt", "B.md", "b.txt", "C.txt"]);
    assert_eq!(names(&dc.directories), vec!["alpha", "Zeta"]);
    assert!(dc.executables.is_empty());
}

#[test]
fn names_equal_but_for_case_are_ordered_by_name() {
    let entries = vec![file("readme", 0o644, 1), file("README", 0o644, 1), file("ReadMe", 0o644, 1)];
    let dc = extract_files_from_entries(&entries);
    assert_eq!(names(&dc.files), vec!["README", "ReadMe", "readme"]);
}

#[test]
fn enumeration_order_does_not_matter() {
    let a = vec![file("x.rs", 0o644, 5), dir("src"), file("Y.go", 0o700, 9), file("a", 0o644, 0), dir("Docs")];
    let mut b = a.clone();
    b.reverse();
    b.swap(1, 3);
    let ta = extract_files_from_entries(&a).table_text();
    let tb = extract_files_from_entries(&b).table_text();
    assert_eq!(ta, tb);
    assert_eq!(extract_files_from_entries(&a).render(), extract_files_from_entries(&b).render());
}

#[test]
fn empty_directory_lists_nothing() {
    let dc = extract_files_from_entries(&vec![dir("."), dir("..")]);
    assert!(dc.files.is_empty() && dc.directories.is_empty() && dc.executables.is_empty());
}

#[test]
fn executable_with_known_extension_is_listed_as_executable() {
    let entries = vec![file("tool.py", 0o755, 3), file("lib.py", 0o644, 3)];
    let dc = extract_files_from_entries(&entries);
    assert_eq!(names(&dc.executables), vec!["tool.py"]);
    assert_eq!(names(&dc.files), vec!["lib.py"]);
    assert!(dc.directories.is_empty());
    let text = dc.table_text();
    assert!(text.contains("⚡ 1970-01-01 00:00:00\t3.00 B\ttool.py\n"));
    assert!(text.contains("🐍 1970-01-01 00:00:00\t3.00 B\tlib.py\n"));
}

#[test]
fn equal_listings_render_the_same_bytes() {
    let entries = vec![file("a.rs", 0o644, 5), dir("b")];
    let a = extract_files_from_entries(&entries);
    let b = extract_files_from_entries(&entries);
    let ra = a.render();
    assert!(ra.is_some());
    assert_eq!(ra, b.render());
}
