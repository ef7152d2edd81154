use libedit::error::EditError;
use libedit::fs::{EditFs, InMemoryFs};

#[test]
fn memory_fs_write_read() {
    let mut fs = InMemoryFs::new();
    fs.write("a.txt", "hello").expect("write should succeed");
    assert!(fs.file_exists("a.txt").expect("exists should succeed"));
    assert_eq!(fs.read("a.txt").expect("read should succeed"), "hello");
}

#[test]
fn memory_fs_not_found() {
    let fs = InMemoryFs::new();
    let err = fs.read("nope.txt").unwrap_err();
    assert!(matches!(err, EditError::FileNotFound { .. }));
}

#[test]
fn memory_fs_delete() {
    let mut fs = InMemoryFs::new();
    fs.write("a.txt", "x").expect("write should succeed");
    fs.delete("a.txt").expect("delete should succeed");
    assert!(!fs.file_exists("a.txt").expect("exists should succeed"));
}

#[test]
fn memory_fs_with_files() {
    let fs = InMemoryFs::with_files(&[("a.txt", "aaa"), ("b.txt", "bbb")]);
    assert_eq!(fs.get("a.txt"), Some("aaa".to_string()));
    assert_eq!(fs.get("b.txt"), Some("bbb".to_string()));
    assert_eq!(fs.get("c.txt"), None);
}
