use filescope::ops::Kind;
use filescope::window::{
    accepts_drop, action_states, folder_order, clipboard_toast, delete_prompt, drop_kind, finish_message, gnome_clipboard_text, list_icon,
    mount_dir_name, ntfs3g_argv, parse_clipboard, permission_string, plural, sort_key_for,
    trash_toast, uri_list_text, visible, zoom_level, History, GNOME_COPIED, URI_LIST, ZOOM_STEP,
};

#[test]
fn parses_gnome_copy_and_cut() {
    // GNOME format: first line is the action, then one URI per line.
    assert_eq!(
        parse_clipboard(GNOME_COPIED, "copy\nfile:///a\nfile:///b"),
        (false, vec!["file:///a".to_string(), "file:///b".to_string()])
    );
    assert_eq!(parse_clipboard(GNOME_COPIED, "cut\nfile:///x"), (true, vec!["file:///x".to_string()]));
}

#[test]
fn parses_uri_list_skipping_comments() {
    // A plain URI list is always a copy; comment and blank lines are ignored.
    assert_eq!(
        parse_clipboard(URI_LIST, "# comment\r\nfile:///a\r\n\r\nfile:///b\r\n"),
        (false, vec!["file:///a".to_string(), "file:///b".to_string()])
    );
}

#[test]
fn drop_kind_honours_modifier_then_filesystem() {
    // The source sits next to the destination, on the same filesystem.
    let same_fs = true;
    // An explicit single action wins regardless of filesystem.
    assert_eq!(drop_kind(false, true, same_fs), Kind::Move);
    assert_eq!(drop_kind(true, false, same_fs), Kind::Copy);
    // No modifier (both offered) + same filesystem → move, like Nautilus.
    assert_eq!(drop_kind(true, true, same_fs), Kind::Move);
    // ...and across filesystems → copy.
    assert_eq!(drop_kind(true, true, false), Kind::Copy);
}

#[test]
fn what_is_copied_is_what_is_pasted() {
    let uris = vec!["file:///a".to_string(), "file:///b%20c".to_string()];
    let gnome = gnome_clipboard_text(true, &uris);
    assert_eq!(gnome, "cut\nfile:///a\nfile:///b%20c");
    assert_eq!(parse_clipboard(GNOME_COPIED, &gnome), (true, uris.clone()));
    let list = uri_list_text(&uris);
    assert_eq!(list, "file:///a\r\nfile:///b%20c\r\n");
    assert_eq!(parse_clipboard(URI_LIST, &list), (false, uris));
    assert_eq!(parse_clipboard(URI_LIST, &uri_list_text(&[])), (false, Vec::new()));
    assert_eq!(parse_clipboard(GNOME_COPIED, ""), (false, Vec::new()));
}

#[test]
fn history_goes_back_and_forward() {
    let mut h = History::new(Some("/home"));
    assert!(!h.can_go_back());
    h.navigate("/home/docs");
    h.navigate("/home/docs/a");
    assert!(h.go_back());
    assert_eq!(h.current(), Some(&"/home/docs"));
    assert!(h.can_go_forward());
    assert!(h.go_forward());
    assert_eq!(h.current(), Some(&"/home/docs/a"));
    assert!(!h.go_forward());
    h.go_back();
    h.navigate("/tmp");
    // Navigating clears the way forward.
    assert!(!h.can_go_forward());
    assert!(h.go_back());
    assert_eq!(h.current(), Some(&"/home/docs"));
    assert!(h.go_back());
    assert!(!h.go_back());
    assert_eq!(h.current(), Some(&"/home"));
}

#[test]
fn zoom_steps_stay_in_range() {
    assert_eq!(zoom_level(80, ZOOM_STEP), 96);
    assert_eq!(zoom_level(160, ZOOM_STEP), 160);
    assert_eq!(zoom_level(48, -ZOOM_STEP), 48);
    assert_eq!(list_icon(80), 20);
    assert_eq!(list_icon(48), 16);
    assert_eq!(list_icon(160), 40);
    assert_eq!(list_icon(-7), 16);
}

#[test]
fn texts_read_naturally() {
    assert_eq!(plural(1), "");
    assert_eq!(plural(0), "s");
    assert_eq!(clipboard_toast(false, 1), "Copied 1 item");
    assert_eq!(clipboard_toast(true, 3), "Cut 3 items");
    assert_eq!(trash_toast(2, 0), "Moved 2 items to Trash");
    assert_eq!(trash_toast(1, 1), "Moved 1 item to Trash; 1 failed");
    assert_eq!(delete_prompt(2), "Permanently delete 2 items?");
    assert_eq!(finish_message(Kind::Copy, false, 4, 0), "Copied 4 items");
    assert_eq!(finish_message(Kind::Move, false, 3, 1), "Moved 3; 1 failed");
    assert_eq!(finish_message(Kind::Delete, true, 2, 0), "Deleting cancelled — 2 done");
}

#[test]
fn permissions_read_like_ls() {
    assert_eq!(permission_string(0o755), "rwxr-xr-x");
    assert_eq!(permission_string(0o640), "rw-r-----");
    assert_eq!(permission_string(0), "---------");
    assert_eq!(permission_string(0o100777), "rwxrwxrwx");
}

#[test]
fn sort_choice_names_a_column() {
    assert_eq!(sort_key_for("name"), 0);
    assert_eq!(sort_key_for("size"), 1);
    assert_eq!(sort_key_for("modified"), 2);
    assert_eq!(sort_key_for("other"), 0);
}

#[test]
fn hidden_files_and_search_filter_the_listing() {
    assert!(!visible(false, false, ".bashrc", ".bashrc", ""));
    assert!(visible(true, false, ".bashrc", ".bashrc", ""));
    assert!(!visible(false, true, "x", "x", ""));
    assert!(visible(false, false, "Report.pdf", "report.pdf", "port"));
    assert!(!visible(false, false, "Report.pdf", "report.pdf", "xls"));
    assert!(visible(false, false, "a", "a", "a"));
}

#[test]
fn mount_points_and_ntfs_commands() {
    assert_eq!(mount_dir_name("Data Disk!"), "Data_Disk_");
    assert_eq!(mount_dir_name("Über-Laufwerk_2"), "Über-Laufwerk_2");
    assert_eq!(mount_dir_name(""), "drive");
    assert_eq!(
        ntfs3g_argv(true, 1000, 1000, "/dev/sdb1", "/run/user/1000/filescope-mounts/Data"),
        ["pkexec", "ntfs-3g", "-o", "uid=1000,gid=1000,umask=022", "/dev/sdb1", "/run/user/1000/filescope-mounts/Data"]
    );
    assert_eq!(ntfs3g_argv(false, 0, 5, "/dev/x", "/m"), ["ntfs-3g", "-o", "uid=0,gid=5,umask=022", "/dev/x", "/m"]);
}

#[test]
fn actions_follow_the_selection_and_clipboard() {
    let none = action_states(0, false);
    assert!(none.iter().all(|(_, on)| !on));
    let one = action_states(1, true);
    assert!(one.iter().all(|(_, on)| *on));
    let two = action_states(2, false);
    let enabled: Vec<&str> = two.iter().filter(|(_, on)| *on).map(|(n, _)| *n).collect();
    assert_eq!(enabled, ["open", "cut", "copy", "trash", "delete"]);
}

fn parts(p: &[&str]) -> Vec<String> {
    p.iter().map(|c| c.to_string()).collect()
}

#[test]
fn drops_that_would_do_nothing_are_refused() {
    let dest = parts(&["/", "home", "me", "Docs"]);
    // Already in the destination folder.
    assert!(!accepts_drop(&parts(&["/", "home", "me", "Docs", "a.txt"]), &dest));
    // The destination itself.
    assert!(!accepts_drop(&dest, &dest));
    // A folder that holds the destination.
    assert!(!accepts_drop(&parts(&["/", "home", "me"]), &dest));
    assert!(!accepts_drop(&parts(&["/"]), &dest));
    // Anything else goes.
    assert!(accepts_drop(&parts(&["/", "home", "me", "b.txt"]), &dest));
    assert!(accepts_drop(&parts(&["/", "home", "me", "Docs2"]), &dest));
    assert!(accepts_drop(&parts(&["/", "home", "me", "Docs", "sub", "c"]), &dest));
}

#[test]
fn folders_list_before_files() {
    assert_eq!(folder_order(true, false), -1);
    assert_eq!(folder_order(false, true), 1);
    assert_eq!(folder_order(true, true), 0);
    assert_eq!(folder_order(false, false), 0);
}
