use filescope::bookmarks::{add, contains, label, parse, remove, serialize};

#[test]
fn bookmarks_save_and_load_back() {
    let list = vec!["/home/me/Projects".to_string(), "/mnt/data".to_string()];
    let text = serialize(&list);
    assert_eq!(text, "/home/me/Projects\n/mnt/data\n");
    assert_eq!(parse(&text), list);
}

#[test]
fn loading_trims_and_skips_blank_lines() {
    assert_eq!(parse("  /a  \n\n\t\r\n/b\r\n"), ["/a", "/b"]);
    assert!(parse("").is_empty());
}

#[test]
fn a_folder_is_bookmarked_once() {
    let mut marks = Vec::new();
    assert!(add(&mut marks, "/a".to_string()));
    assert!(!add(&mut marks, "/a".to_string()));
    assert!(add(&mut marks, "/b".to_string()));
    assert_eq!(marks, ["/a", "/b"]);
    assert!(contains(&marks, "/b"));
    remove(&mut marks, "/a");
    assert_eq!(marks, ["/b"]);
    remove(&mut marks, "/zzz");
    assert_eq!(marks, ["/b"]);
}

#[test]
fn bookmarks_are_labelled_by_their_folder() {
    assert_eq!(label("/home/me/Projects"), "Projects");
    assert_eq!(label("/home/me/Projects/"), "Projects");
    assert_eq!(label("/"), "/");
}

#[test]
fn the_same_folder_written_differently_is_one_bookmark() {
    let mut marks = vec!["/home/me/Projects/".to_string()];
    assert!(contains(&marks, "/home/me/Projects"));
    assert!(!add(&mut marks, "/home/me//Projects".to_string()));
    assert!(add(&mut marks, "/home/me/Projects2".to_string()));
    remove(&mut marks, "/home/me/./Projects");
    assert_eq!(marks, ["/home/me/Projects2"]);
}
