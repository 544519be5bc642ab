use markch_document::decimal::{decimal3_of, decimal_of, parse_usize_of};
use markch_document::paths::{
    document_dir, file_from_note_id, normalize_rel_path, page_file_name, page_id, sanitize_filename,
    validate_document_path, validate_page_file,
};
use markch_document::split::{join_of, lines_of, split_of, words_of};
use markch_document::text::{chars_of, is_whitespace, string_of, trim_of};

fn s(v: &Vec<char>) -> String {
    string_of(v)
}

#[test]
fn trims_whitespace_on_both_sides() {
    assert_eq!(s(&trim_of(&chars_of("  a b \n"))), "a b");
    assert_eq!(s(&trim_of(&chars_of(" \t "))), "");
}

#[test]
fn whitespace_agrees_with_std_on_every_char() {
    for code in 0u32..=0x10FFFF {
        if let Some(c) = char::from_u32(code) {
            assert_eq!(is_whitespace(c), c.is_whitespace(), "U+{:04X}", code);
        }
    }
}

#[test]
fn lines_drop_carriage_returns_and_final_newline() {
    let ls: Vec<String> = lines_of(&chars_of("a\r\nb\n\nc\n")).iter().map(s).collect();
    assert_eq!(ls, vec!["a", "b", "", "c"]);
    assert!(lines_of(&chars_of("")).is_empty());
}

#[test]
fn split_keeps_empty_pieces() {
    let parts: Vec<String> = split_of(&chars_of("a//b/"), '/').iter().map(s).collect();
    assert_eq!(parts, vec!["a", "", "b", ""]);
}

#[test]
fn words_split_on_any_whitespace() {
    let ws: Vec<String> = words_of(&chars_of("  one\ttwo\n three  ")).iter().map(s).collect();
    assert_eq!(ws, vec!["one", "two", "three"]);
}

#[test]
fn join_puts_separator_between_parts() {
    let parts = vec![chars_of("a"), chars_of("b"), chars_of("c")];
    assert_eq!(s(&join_of(&parts, &chars_of(", "))), "a, b, c");
    assert_eq!(s(&join_of(&Vec::new(), &chars_of(", "))), "");
}

#[test]
fn decimals_format_and_parse() {
    assert_eq!(s(&decimal_of(0)), "0");
    assert_eq!(s(&decimal_of(120)), "120");
    assert_eq!(s(&decimal3_of(7)), "007");
    assert_eq!(s(&decimal3_of(1234)), "1234");
    assert_eq!(parse_usize_of(&chars_of("042")), Some(42));
    assert_eq!(parse_usize_of(&chars_of("+7")), Some(7));
    assert_eq!(parse_usize_of(&chars_of("+")), None);
    assert_eq!(parse_usize_of(&chars_of("")), None);
    assert_eq!(parse_usize_of(&chars_of("-1")), None);
    assert_eq!(parse_usize_of(&chars_of("99999999999999999999999")), None);
}

#[test]
fn sanitize_replaces_forbidden_characters() {
    assert_eq!(sanitize_filename("Project Alpha"), "Project Alpha");
    assert_eq!(sanitize_filename("a/b\\c:d"), "a-b-c-d");
    assert_eq!(sanitize_filename("  spaced  "), "spaced");
    assert_eq!(sanitize_filename("   "), "Untitled");
    assert_eq!(sanitize_filename("nul\0byte"), "nul-byte");
}

#[test]
fn normalizes_relative_paths() {
    assert_eq!(normalize_rel_path("/Parent/Doc/"), "Parent/Doc");
    assert_eq!(normalize_rel_path("Parent\\Doc"), "Parent/Doc");
}

#[test]
fn validates_document_paths() {
    assert!(validate_document_path("Parent/Doc").is_ok());
    assert_eq!(validate_document_path("//"), Err("Document path cannot be empty".to_string()));
    assert_eq!(validate_document_path("../outside"), Err("Invalid document path".to_string()));
    assert_eq!(validate_document_path("a/./b"), Err("Invalid document path".to_string()));
    assert_eq!(validate_document_path("a//b"), Err("Invalid document path".to_string()));
    assert_eq!(validate_document_path("a\0b"), Err("Invalid document path".to_string()));
    assert_eq!(document_dir("/Parent\\Doc/"), Ok("Parent/Doc".to_string()));
    assert!(document_dir("..").is_err());
}

#[test]
fn validates_page_files() {
    assert!(validate_page_file("001-Page 1.md").is_ok());
    assert_eq!(validate_page_file("a/b.md"), Err("Invalid page file".to_string()));
    assert_eq!(validate_page_file("a\\b.md"), Err("Invalid page file".to_string()));
    assert_eq!(validate_page_file("notes.txt"), Err("Page file must be markdown".to_string()));
    assert_eq!(validate_page_file(".md"), Err("Page file must be markdown".to_string()));
}

#[test]
fn names_page_files_and_ids() {
    assert_eq!(page_file_name(1, "Page 1"), "001-Page 1.md");
    assert_eq!(page_file_name(12, "A/B"), "012-A-B.md");
    assert_eq!(page_id("/Parent/Doc/", "001-First.md"), "Parent/Doc/001-First");
    assert_eq!(page_id("Doc", "notes"), "Doc/notes");
    assert_eq!(
        file_from_note_id("Parent/Doc/001-First"),
        Some(("Parent/Doc".to_string(), "001-First.md".to_string()))
    );
    assert_eq!(file_from_note_id("loose-note"), None);
}

#[test]
fn note_id_round_trip_of_a_page_file() {
    let id = page_id("Parent/Doc", "002-Second.md");
    assert_eq!(
        file_from_note_id(&id),
        Some(("Parent/Doc".to_string(), "002-Second.md".to_string()))
    );
}

#[test]
fn generated_page_file_names_are_valid() {
    for (i, title) in [(1usize, "Page 1"), (7, "a/b"), (1000, "  "), (3, "x.md")] {
        assert!(validate_page_file(&page_file_name(i, title)).is_ok());
    }
}
