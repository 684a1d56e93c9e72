use filepwn::walk::{EntryKind, Walk};

fn s(x: &str) -> String {
    x.to_string()
}

#[test]
fn walks_a_small_tree() {
    let mut w = Walk::new(vec![s("r/a.txt"), s("r/sub")]);
    assert!(!w.is_done());
    assert_eq!(w.next_entry(), Some(s("r/a.txt")));
    w.record(EntryKind::File(s("/t/r/a.txt")));
    assert_eq!(w.next_entry(), Some(s("r/sub")));
    w.record(EntryKind::Directory(s("/t/r/sub"), vec![s("r/sub/b.txt")]));
    assert!(!w.is_done());
    assert_eq!(w.next_entry(), Some(s("r/sub/b.txt")));
    w.record(EntryKind::File(s("/t/r/sub/b.txt")));
    assert!(w.is_done());
    assert_eq!(w.next_entry(), None);
    let (files, dirs) = w.finish();
    assert_eq!(files, vec![s("/t/r/a.txt"), s("/t/r/sub/b.txt")]);
    assert_eq!(dirs, vec![s("/t/r/sub")]);
}

#[test]
fn breadth_first_order() {
    let mut w = Walk::new(vec![s("d1"), s("d2"), s("f0")]);
    assert_eq!(w.next_entry(), Some(s("d1")));
    w.record(EntryKind::Directory(s("/d1"), vec![s("d1/x"), s("d1/e")]));
    assert_eq!(w.next_entry(), Some(s("d2")));
    w.record(EntryKind::Directory(s("/d2"), vec![s("d2/y")]));
    assert_eq!(w.next_entry(), Some(s("f0")));
    w.record(EntryKind::File(s("/f0")));
    assert_eq!(w.next_entry(), Some(s("d1/x")));
    w.record(EntryKind::File(s("/d1/x")));
    assert_eq!(w.next_entry(), Some(s("d1/e")));
    w.record(EntryKind::Directory(s("/d1/e"), vec![s("d1/e/z")]));
    assert_eq!(w.next_entry(), Some(s("d2/y")));
    w.record(EntryKind::File(s("/d2/y")));
    assert_eq!(w.next_entry(), Some(s("d1/e/z")));
    w.record(EntryKind::File(s("/d1/e/z")));
    assert_eq!(w.next_entry(), None);
    let (files, dirs) = w.finish();
    assert_eq!(files, vec![s("/f0"), s("/d1/x"), s("/d2/y"), s("/d1/e/z")]);
    assert_eq!(dirs, vec![s("/d1"), s("/d2"), s("/d1/e")]);
}

#[test]
fn empty_directory_adds_only_itself() {
    let mut w = Walk::new(vec![s("r/empty")]);
    assert_eq!(w.next_entry(), Some(s("r/empty")));
    w.record(EntryKind::Directory(s("/r/empty"), vec![]));
    assert!(w.is_done());
    let (files, dirs) = w.finish();
    assert!(files.is_empty());
    assert_eq!(dirs, vec![s("/r/empty")]);
}

#[test]
fn empty_root_gives_nothing() {
    let mut w = Walk::new(vec![]);
    assert!(w.is_done());
    assert_eq!(w.next_entry(), None);
    let (files, dirs) = w.finish();
    assert!(files.is_empty());
    assert!(dirs.is_empty());
}

#[test]
fn skipped_entries_record_nothing() {
    let mut w = Walk::new(vec![s("gone"), s("odd"), s("link"), s("ok")]);
    assert_eq!(w.next_entry(), Some(s("gone")));
    w.record(EntryKind::Unresolved);
    assert_eq!(w.next_entry(), Some(s("odd")));
    w.record(EntryKind::UnknownType);
    assert_eq!(w.next_entry(), Some(s("link")));
    w.record(EntryKind::Other);
    assert_eq!(w.next_entry(), Some(s("ok")));
    w.record(EntryKind::File(s("/ok")));
    assert!(w.is_done());
    let (files, dirs) = w.finish();
    assert_eq!(files, vec![s("/ok")]);
    assert!(dirs.is_empty());
}

#[test]
fn unlisted_directory_is_kept_not_expanded() {
    let mut w = Walk::new(vec![s("locked"), s("f")]);
    assert_eq!(w.next_entry(), Some(s("locked")));
    w.record(EntryKind::Unlisted(s("/locked")));
    assert_eq!(w.next_entry(), Some(s("f")));
    w.record(EntryKind::File(s("/f")));
    assert_eq!(w.next_entry(), None);
    let (files, dirs) = w.finish();
    assert_eq!(files, vec![s("/f")]);
    assert_eq!(dirs, vec![s("/locked")]);
}
