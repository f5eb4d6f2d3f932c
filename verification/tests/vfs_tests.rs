use lspcore::fmt::Range;
use lspcore::pos::Position;
use lspcore::vfs::{ChangeEvent, Document, VfsError, VFS};

fn full_change(text: &str) -> ChangeEvent {
    ChangeEvent {
        range: None,
        text: text.to_owned(),
    }
}

#[test]
fn document_new_holds_fields() {
    let d = Document::new("body".to_owned(), 7);
    assert_eq!(d.text, "body");
    assert_eq!(d.version, 7);
}

#[test]
fn open_then_read_snapshot() {
    let mut vfs = VFS::default();
    assert_eq!(vfs.add_doc("file:///a.py".to_owned(), "print(1)".to_owned(), 1), Ok(()));
    let d = vfs.get_doc("file:///a.py").unwrap();
    assert_eq!(d.text, "print(1)");
    assert_eq!(d.version, 1);
}

#[test]
fn open_twice_is_refused() {
    let mut vfs = VFS::default();
    assert_eq!(vfs.add_doc("f".to_owned(), "x".to_owned(), 1), Ok(()));
    assert_eq!(
        vfs.add_doc("f".to_owned(), "y".to_owned(), 2),
        Err(VfsError::AlreadyTracked)
    );
    // The first registration is untouched.
    let d = vfs.get_doc("f").unwrap();
    assert_eq!((d.text.as_str(), d.version), ("x", 1));
}

#[test]
fn version_must_strictly_increase() {
    let mut vfs = VFS::default();
    assert_eq!(vfs.add_doc("f".to_owned(), "x".to_owned(), 1), Ok(()));
    // Same version: refused, store unchanged.
    assert_eq!(
        vfs.apply_changes("f", 1, vec![full_change("y")]),
        Err(VfsError::StaleVersion)
    );
    let d = vfs.get_doc("f").unwrap();
    assert_eq!((d.text.as_str(), d.version), ("x", 1));
    // Lower version: refused as well.
    assert_eq!(
        vfs.apply_changes("f", 0, vec![full_change("y")]),
        Err(VfsError::StaleVersion)
    );
    // Strictly greater: applied.
    assert_eq!(vfs.apply_changes("f", 2, vec![full_change("y")]), Ok(()));
    let d = vfs.get_doc("f").unwrap();
    assert_eq!((d.text.as_str(), d.version), ("y", 2));
}

#[test]
fn ranged_change_is_refused() {
    let mut vfs = VFS::default();
    assert_eq!(vfs.add_doc("f".to_owned(), "x".to_owned(), 1), Ok(()));
    let ranged = ChangeEvent {
        range: Some(Range {
            start: Position::new(0, 0),
            end: Position::new(0, 1),
        }),
        text: "y".to_owned(),
    };
    assert_eq!(
        vfs.apply_changes("f", 2, vec![ranged]),
        Err(VfsError::NotFullReplacement)
    );
    let d = vfs.get_doc("f").unwrap();
    assert_eq!((d.text.as_str(), d.version), ("x", 1));
}

#[test]
fn two_changes_under_one_version_are_refused() {
    let mut vfs = VFS::default();
    assert_eq!(vfs.add_doc("f".to_owned(), "x".to_owned(), 1), Ok(()));
    assert_eq!(
        vfs.apply_changes("f", 2, vec![full_change("y"), full_change("z")]),
        Err(VfsError::StaleVersion)
    );
    let d = vfs.get_doc("f").unwrap();
    assert_eq!((d.text.as_str(), d.version), ("x", 1));
}

#[test]
fn empty_change_batch_is_a_no_op() {
    let mut vfs = VFS::default();
    assert_eq!(vfs.add_doc("f".to_owned(), "x".to_owned(), 1), Ok(()));
    assert_eq!(vfs.apply_changes("f", 5, vec![]), Ok(()));
    let d = vfs.get_doc("f").unwrap();
    assert_eq!((d.text.as_str(), d.version), ("x", 1));
}

#[test]
fn untracked_uri_is_refused() {
    let mut vfs = VFS::default();
    assert_eq!(
        vfs.apply_changes("missing", 1, vec![full_change("y")]),
        Err(VfsError::NotTracked)
    );
    assert_eq!(vfs.close_doc("missing"), Err(VfsError::NotTracked));
    assert!(vfs.get_doc("missing").is_none());
}

#[test]
fn close_removes_only_that_document() {
    let mut vfs = VFS::default();
    assert_eq!(vfs.add_doc("a".to_owned(), "1".to_owned(), 1), Ok(()));
    assert_eq!(vfs.add_doc("b".to_owned(), "2".to_owned(), 1), Ok(()));
    assert_eq!(vfs.close_doc("a"), Ok(()));
    assert!(vfs.get_doc("a").is_none());
    assert_eq!(vfs.close_doc("a"), Err(VfsError::NotTracked));
    let d = vfs.get_doc("b").unwrap();
    assert_eq!((d.text.as_str(), d.version), ("2", 1));
}

#[test]
fn reopen_after_close() {
    let mut vfs = VFS::default();
    assert_eq!(vfs.add_doc("f".to_owned(), "x".to_owned(), 3), Ok(()));
    assert_eq!(vfs.close_doc("f"), Ok(()));
    assert_eq!(vfs.add_doc("f".to_owned(), "z".to_owned(), 1), Ok(()));
    let d = vfs.get_doc("f").unwrap();
    assert_eq!((d.text.as_str(), d.version), ("z", 1));
}
