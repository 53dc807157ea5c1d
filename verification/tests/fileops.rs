use filescope::fileops::{copy_into, file_name, is_valid_name, same_path, split_name, unique_destination, FileOpError};

#[test]
fn split_name_handles_extensions_and_dotfiles() {
    assert_eq!(split_name("photo.jpg"), ("photo", ".jpg"));
    assert_eq!(split_name("archive.tar.gz"), ("archive.tar", ".gz"));
    assert_eq!(split_name("README"), ("README", ""));
    assert_eq!(split_name(".bashrc"), (".bashrc", ""));
}

#[test]
fn unique_destination_avoids_collisions() {
    let tmp = "/tmp/filescope-test";
    let name = "file.txt";
    // Nothing there yet → the plain name.
    assert_eq!(unique_destination(tmp, name, &[]), "/tmp/filescope-test/file.txt");
    // With the original present → " (copy)".
    let taken = vec!["file.txt".to_string()];
    assert_eq!(unique_destination(tmp, name, &taken), "/tmp/filescope-test/file (copy).txt");
    // With the copy present too → " (copy 2)".
    let taken = vec!["file.txt".to_string(), "file (copy).txt".to_string()];
    assert_eq!(unique_destination(tmp, name, &taken), "/tmp/filescope-test/file (copy 2).txt");
}

#[test]
fn unique_destination_counts_past_every_taken_copy() {
    let mut taken = vec!["a.txt".to_string(), "a (copy).txt".to_string()];
    for n in 2..=11 {
        taken.push(format!("a (copy {n}).txt"));
    }
    assert_eq!(unique_destination("/d", "a.txt", &taken), "/d/a (copy 12).txt");
    // Unrelated names do not matter, and the order of `taken` does not either.
    let taken = vec!["b".to_string(), "a (copy).txt".to_string(), "a.txt".to_string()];
    assert_eq!(unique_destination("/d", "a.txt", &taken), "/d/a (copy 2).txt");
}

#[test]
fn unique_destination_copies_of_dotfiles_and_bare_names() {
    let taken = vec![".bashrc".to_string()];
    assert_eq!(unique_destination("/h", ".bashrc", &taken), "/h/.bashrc (copy)");
    let taken = vec!["Docs".to_string()];
    assert_eq!(unique_destination("/h/", "Docs", &taken), "/h/Docs (copy)");
    assert_eq!(unique_destination("", "Docs", &[]), "Docs");
}

#[test]
fn file_name_follows_path_components() {
    assert_eq!(file_name("/usr/bin/").as_deref(), Some("bin"));
    assert_eq!(file_name("tmp/foo.txt").as_deref(), Some("foo.txt"));
    assert_eq!(file_name("foo.txt/.").as_deref(), Some("foo.txt"));
    assert_eq!(file_name("foo.txt/.//").as_deref(), Some("foo.txt"));
    assert_eq!(file_name("foo.txt/.."), None);
    assert_eq!(file_name("/"), None);
    assert_eq!(file_name(""), None);
    assert_eq!(file_name("."), None);
    assert_eq!(file_name("./a").as_deref(), Some("a"));
}

#[test]
fn copy_into_names_the_copy_after_the_source() {
    let taken = vec!["notes.txt".to_string()];
    assert_eq!(copy_into("/home/me/notes.txt", "/tmp/out", &taken), Ok("/tmp/out/notes (copy).txt".to_string()));
    assert_eq!(copy_into("/home/me/src/", "/tmp/out", &[]), Ok("/tmp/out/src".to_string()));
}

#[test]
fn copy_into_refuses_a_path_without_a_name() {
    assert_eq!(copy_into("/", "/tmp/out", &[]), Err(FileOpError::NoFileName));
    assert_eq!(copy_into("a/..", "/tmp/out", &[]), Err(FileOpError::NoFileName));
}

#[test]
fn new_names_must_be_nonempty_single_components() {
    assert!(is_valid_name("New Folder"));
    assert!(!is_valid_name(""));
    assert!(!is_valid_name("a/b"));
    assert!(is_valid_name(".hidden"));
}

#[test]
fn paths_compare_component_by_component() {
    assert!(same_path("/a//b/", "/a/b"));
    assert!(same_path("/a/./b", "/a/b"));
    assert!(same_path("./a", "./a/"));
    assert!(!same_path("./a", "a"));
    assert!(!same_path("/a", "a"));
    assert!(!same_path("/a/../b", "/b"));
    assert!(same_path("", ""));
    assert!(!same_path("/a/b", "/a/bc"));
}
