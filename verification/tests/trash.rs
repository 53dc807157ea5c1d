use filescope::fileops::unique_destination;
use filescope::trash::{
    entries_from_infos, entry_from_info, info_item_name, percent_decode, position_of_original, sort_entries, value_of,
    Entry,
};

fn info(original: &str, date: &str) -> String {
    format!("[Trash Info]\nPath={original}\nDeletionDate={date}\n")
}

#[test]
fn lists_entries_with_their_original_path_and_date() {
    let entries = entries_from_infos(vec![(
        "notes.txt".to_string(),
        info("/home/me/notes.txt", "2026-07-14T10:00:00"),
    )]);
    assert_eq!(entries.len(), 1);
    assert_eq!(entries[0].name, "notes.txt");
    assert_eq!(entries[0].original, "/home/me/notes.txt");
    assert_eq!(entries[0].deleted.as_deref(), Some("2026-07-14T10:00:00"));
}

#[test]
fn an_empty_or_missing_trash_lists_nothing() {
    assert!(entries_from_infos(Vec::new()).is_empty());
}

#[test]
fn percent_encoded_paths_are_decoded() {
    // The spec percent-encodes the Path value.
    let entries =
        entries_from_infos(vec![("my file".to_string(), info("/home/me/my%20file", "2026-07-14T10:00:00"))]);
    assert_eq!(entries[0].original, "/home/me/my file");
}

#[test]
fn restore_puts_the_item_back_and_clears_its_info() {
    // Nothing at the original path: the item goes back exactly there.
    let landed = unique_destination("/home/me", "notes.txt", &[]);
    assert_eq!(landed, "/home/me/notes.txt");
}

#[test]
fn restore_does_not_clobber_something_back_at_the_original_path() {
    let original = "/home/me/notes.txt";
    let landed = unique_destination("/home/me", "notes.txt", &["notes.txt".to_string()]);
    assert_ne!(landed, original, "restored beside it, not over it");
    assert_eq!(landed, "/home/me/notes (copy).txt");
}

#[test]
fn newest_recorded_entries_come_first() {
    let entries = entries_from_infos(vec![
        ("a.txt".to_string(), info("/home/me/a.txt", "2026-07-14T10:00:00")),
        ("b.txt".to_string(), info("/home/me/b.txt", "2026-07-14T11:00:00")),
        ("c.txt".to_string(), "[Trash Info]\nPath=/home/me/c.txt\n".to_string()),
        ("0.txt".to_string(), info("/home/me/0.txt", "2026-07-14T10:00:00")),
    ]);
    let names: Vec<&str> = entries.iter().map(|e| e.name.as_str()).collect();
    // Newest first, equal dates by name, and an entry without a date last.
    assert_eq!(names, ["b.txt", "0.txt", "a.txt", "c.txt"]);
}

#[test]
fn an_info_without_a_path_is_not_listed() {
    assert!(entry_from_info("x".to_string(), "[Trash Info]\nDeletionDate=2026-07-14T10:00:00\n").is_none());
    assert!(entries_from_infos(vec![("x".to_string(), "garbage".to_string())]).is_empty());
}

#[test]
fn value_of_finds_the_first_matching_key() {
    let body = "[Trash Info]\n Path = /a \nPath=/b\nDeletionDate=2026\n";
    assert_eq!(value_of(body, "Path").as_deref(), Some("/a"));
    assert_eq!(value_of(body, "DeletionDate").as_deref(), Some("2026"));
    assert_eq!(value_of(body, "Missing"), None);
    assert_eq!(value_of("path=/x", "Path"), None);
}

#[test]
fn percent_decoding_reads_two_hex_digit_escapes() {
    assert_eq!(percent_decode("/a%2Fb%2fc"), "/a/b/c");
    // Too short, or not hexadecimal: left alone.
    assert_eq!(percent_decode("100%"), "100%");
    assert_eq!(percent_decode("%4"), "%4");
    assert_eq!(percent_decode("%zz"), "%zz");
    // Only '%' and two hexadecimal digits is an escape.
    assert_eq!(percent_decode("%+41"), "%+41");
    assert_eq!(percent_decode("%+1"), "%+1");
    assert_eq!(percent_decode("plain"), "plain");
    // Escapes next to multi-byte characters decode byte by byte, never splitting them.
    assert_eq!(percent_decode("%aé"), "%aé");
    assert_eq!(percent_decode("%€x"), "%€x");
    // Multi-byte UTF-8, escaped byte by byte.
    assert_eq!(percent_decode("caf%C3%A9"), "café");
    // Bytes that are not UTF-8 become the replacement character.
    assert_eq!(percent_decode("%FF"), "\u{FFFD}");
    assert_eq!(percent_decode("é%20"), "é ");
}

#[test]
fn info_file_names_lose_their_suffix() {
    assert_eq!(info_item_name("notes.txt.trashinfo").as_deref(), Some("notes.txt"));
    assert_eq!(info_item_name(".trashinfo").as_deref(), Some(""));
    assert_eq!(info_item_name("notes.txt"), None);
}

#[test]
fn sorting_keeps_equal_entries_in_their_order() {
    let e = |name: &str, original: &str| Entry {
        name: name.to_string(),
        original: original.to_string(),
        deleted: Some("2026".to_string()),
    };
    let sorted = sort_entries(vec![e("x", "/1"), e("x", "/2"), e("a", "/3")]);
    let originals: Vec<&str> = sorted.iter().map(|e| e.original.as_str()).collect();
    assert_eq!(originals, ["/3", "/1", "/2"]);
}

#[test]
fn the_first_entry_from_an_original_is_found() {
    let e = |name: &str, original: &str| Entry { name: name.to_string(), original: original.to_string(), deleted: None };
    let entries = vec![e("a", "/x"), e("b", "/y"), e("c", "/y")];
    assert_eq!(position_of_original(&entries, "/y"), Some(1));
    assert_eq!(position_of_original(&entries, "/z"), None);
    // Paths are compared as paths: repeated or trailing slashes and `.` parts
    // do not make a different path.
    assert_eq!(position_of_original(&entries, "//y/"), Some(1));
    assert_eq!(position_of_original(&entries, "/./x"), Some(0));
    assert_eq!(position_of_original(&entries, "y"), None);
}
