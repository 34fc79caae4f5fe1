use lsd_table::icon::{get_file_emoji, glyph_for_extension};

#[test]
fn extension_case_is_ignored() {
    assert_eq!(get_file_emoji("Photo.JPG"), get_file_emoji("photo.jpg"));
    assert_eq!(get_file_emoji("Photo.JPG"), "📷");
    assert_eq!(get_file_emoji("README.MD"), "⬇️");
}

#[test]
fn missing_or_unknown_extension_is_generic() {
    assert_eq!(get_file_emoji("Makefile"), "📄");
    assert_eq!(get_file_emoji("data.xyz"), "📄");
    assert_eq!(get_file_emoji(""), "📄");
}

#[test]
fn last_dot_decides() {
    assert_eq!(get_file_emoji("archive.tar"), "📦");
    assert_eq!(get_file_emoji("archive.tar.gz"), "📄");
    assert_eq!(get_file_emoji("notes.txt"), "📝");
    assert_eq!(get_file_emoji("trailing."), "📄");
    assert_eq!(get_file_emoji(".json"), "📑");
}

#[test]
fn every_table_entry() {
    let table = [
        ("a.txt", "📝"),
        ("a.md", "⬇️"),
        ("a.rs", "🦀"),
        ("a.rb", "💎"),
        ("a.go", "🐹"),
        ("a.py", "🐍"),
        ("a.java", "☕"),
        ("a.zig", "⚡"),
        ("a.c", "💾"),
        ("a.cpp", "💾"),
        ("a.js", "📜"),
        ("a.html", "🌐"),
        ("a.css", "🎨"),
        ("a.json", "📑"),
        ("a.csv", "📊"),
        ("a.mp3", "🎵"),
        ("a.wav", "🎵"),
        ("a.mp4", "🎬"),
        ("a.png", "🖼️"),
        ("a.jpg", "📷"),
        ("a.jpeg", "📷"),
        ("a.gif", "🎞️"),
        ("a.zip", "📦"),
        ("a.jar", "📦"),
        ("a.tar", "📦"),
        ("a.pdf", "📕"),
    ];
    for (name, glyph) in table {
        assert_eq!(get_file_emoji(name), glyph, "for {}", name);
    }
}

#[test]
fn extension_lookup_on_lowercase_extensions() {
    assert_eq!(glyph_for_extension("jpg"), Some("📷"));
    assert_eq!(glyph_for_extension("txt"), Some("📝"));
    assert_eq!(glyph_for_extension("JPG"), None);
    assert_eq!(glyph_for_extension("xyz"), None);
    assert_eq!(glyph_for_extension(""), None);
}
