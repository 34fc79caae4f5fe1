use lsd_table::listing::{DirContents, FileInfo};

fn info(name: &str, size: &str, at: &str) -> FileInfo {
    FileInfo { name: name.to_string(), readable_size: size.to_string(), modified_at: at.to_string() }
}

fn sample() -> DirContents {
    DirContents {
        files: vec![info("a.txt", "1.00 B", "2020-01-01 00:00:00"), info("Makefile", "123.45 KB", "2020-01-01 00:00:00")],
        directories: vec![info("a_longer_directory", "4.00 KB", "2021-05-06 07:08:09")],
        executables: vec![info("run", "1.00 MB", "2022-12-31 23:59:59")],
    }
}

#[test]
fn widths_of_each_column() {
    let w = sample().get_longest_field_entries();
    assert_eq!(w.max_name_len, "a_longer_directory/".len());
    assert_eq!(w.max_size_len, "123.45 KB".len());
    assert_eq!(w.max_date_len, 19);
}

#[test]
fn widths_of_an_empty_listing_are_the_headers() {
    let dc = DirContents { files: vec![], directories: vec![], executables: vec![] };
    let w = dc.get_longest_field_entries();
    assert_eq!((w.max_name_len, w.max_size_len, w.max_date_len), (4, 4, 8));
    assert_eq!(dc.table_text(), "Modified\tSize\tName\n-----------\t----\t----\n");
}

#[test]
fn table_text_rows_in_group_order() {
    let text = sample().table_text();
    let lines: Vec<&str> = text.lines().collect();
    assert_eq!(lines[0], "Modified\tSize\tName");
    assert_eq!(lines[1], format!("{}\t{}\t{}", "-".repeat(22), "-".repeat(9), "-".repeat(19)));
    assert_eq!(lines[2], "📁 2021-05-06 07:08:09\t4.00 KB\ta_longer_directory/");
    assert_eq!(lines[3], "📝 2020-01-01 00:00:00\t1.00 B\ta.txt");
    assert_eq!(lines[4], "📄 2020-01-01 00:00:00\t123.45 KB\tMakefile");
    assert_eq!(lines[5], "⚡ 2022-12-31 23:59:59\t1.00 MB\trun");
    assert_eq!(lines.len(), 6);
}

#[test]
fn separator_covers_every_cell() {
    let dc = DirContents {
        files: vec![info("x.png", "1.00 B", "2020-01-01 00:00:00"), info("y.md", "1.00 B", "2020")],
        directories: vec![info("dddddddddddddddddddd", "1.00 B", "2020-01-01 00:00:00")],
        executables: vec![],
    };
    let text = dc.table_text();
    let rows: Vec<Vec<&str>> = text.lines().map(|l| l.split('\t').collect()).collect();
    for row in &rows {
        for col in 0..3 {
            assert!(row[col].chars().count() <= rows[1][col].chars().count(), "{:?}", row);
        }
    }
}

#[test]
fn rendered_table_is_aligned() {
    let out = String::from_utf8(sample().render().unwrap()).unwrap();
    let lines: Vec<&str> = out.lines().collect();
    assert_eq!(lines.len(), 6);
    assert!(lines[0].starts_with("Modified    "));
    assert!(!out.contains('\t'));
    let name_col = lines[0].find("Name").unwrap();
    assert!(lines[1].len() > name_col);
    assert!(lines[5].ends_with("run"));
}
