use cibos::abi::ids::BoundaryId;
use cibos::abi::limits::ResourceLimits;
use cibos::sdk::fs::Filesystem;
use cibos::sdk::system::System;

#[test]
fn write_read_delete() {
    let mut fs = Filesystem::new();
    assert!(fs.is_empty());
    assert!(fs.write("/notes/todo.txt", b"buy milk"));
    assert!(fs.path_exists("/notes/todo.txt"));
    assert_eq!(fs.read("/notes/todo.txt").as_deref(), Some(&b"buy milk"[..]));
    assert_eq!(fs.len(), 1);
    assert!(fs.delete("/notes/todo.txt"));
    assert!(!fs.path_exists("/notes/todo.txt"));
    assert!(fs.read("/notes/todo.txt").is_none());
}

#[test]
fn list_by_prefix() {
    let mut fs = Filesystem::new();
    fs.write("/a/one", b"1");
    fs.write("/a/two", b"2");
    fs.write("/b/three", b"3");
    let under_a = fs.list("/a/");
    assert_eq!(under_a, vec!["/a/one".to_string(), "/a/two".to_string()]);
    assert_eq!(fs.list("").len(), 3);
}

#[test]
fn rejects_invalid_paths() {
    let mut fs = Filesystem::new();
    assert!(!fs.write("", b"x"));
    assert!(!fs.write("has space", b"x"));
    assert!(!fs.write("has\"quote", b"x"));
    assert!(fs.is_empty());
}

#[test]
fn shared_handles_see_same_store() {
    // All tasks of one system see one store.
    let mut system = System::new(ResourceLimits::default_application(), BoundaryId::new(1));
    system.filesystem().write("/k", b"v");
    assert_eq!(system.filesystem().read("/k").as_deref(), Some(&b"v"[..]));
}

#[test]
fn listing_is_sorted_by_bytes() {
    let mut fs = Filesystem::new();
    for path in ["/z", "/a/b", "/\u{e9}", "/a", "/a-b"] {
        assert!(fs.write(path, b""));
    }
    assert_eq!(fs.list("/"), vec!["/a", "/a-b", "/a/b", "/z", "/\u{e9}"]);
    assert_eq!(fs.list("/a"), vec!["/a", "/a-b", "/a/b"]);
    assert!(fs.list("/nothing").is_empty());
}

#[test]
fn second_write_replaces() {
    let mut fs = Filesystem::new();
    assert!(fs.write("/k", b"old"));
    assert!(fs.write("/k", b"new"));
    assert_eq!(fs.len(), 1);
    assert_eq!(fs.read("/k").as_deref(), Some(&b"new"[..]));
    assert!(!fs.delete("/other"));
    assert_eq!(fs.len(), 1);
}

#[test]
fn white_space_is_unicode() {
    assert!(!Filesystem::is_valid_path("a\tb"));
    assert!(!Filesystem::is_valid_path("a\u{a0}b"));
    assert!(!Filesystem::is_valid_path("a\u{2003}b"));
    assert!(!Filesystem::is_valid_path("a\u{3000}"));
    assert!(!Filesystem::is_valid_path("it's"));
    assert!(Filesystem::is_valid_path("a\u{200b}b"));
    assert!(Filesystem::is_valid_path("/caf\u{e9}"));
    // Every character, against the standard library.
    for c in (0..=0x10ffffu32).filter_map(char::from_u32) {
        let mut s = String::new();
        s.push(c);
        let quote = c == '\'' || c == '"';
        assert_eq!(Filesystem::is_valid_path(&s), !c.is_whitespace() && !quote);
    }
}
