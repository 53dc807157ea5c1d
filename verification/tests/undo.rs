use filescope::undo::{count, Action};

#[test]
fn describe_reads_naturally() {
    let a = Action::Rename { from: "x".into(), to: "y".into() };
    assert_eq!(a.describe(), "rename");
    let m = Action::Move { pairs: vec![("a".into(), "b".into())] };
    assert_eq!(m.describe(), "move of 1 item");
    let t = Action::Trash { originals: vec!["a".into(), "b".into()] };
    assert_eq!(t.describe(), "trashing of 2 items");
}

#[test]
fn describe_every_kind_of_action() {
    assert_eq!(Action::Copy { pairs: Vec::new() }.describe(), "copy of 0 items");
    assert_eq!(Action::NewFolder { path: "/x".into() }.describe(), "new folder");
    assert_eq!(count(1), "1 item");
    assert_eq!(count(10), "10 items");
}
