//! Paths and tables.
use world::path::{join, parts_of, same, within};
use world::table::Table;

#[test]
fn parts_are_those_of_the_standard_library() {
    for text in ["", "/", "//", ".", "./a", "a/./b", "/a//b/", "/./a", "a/..", "../a", "/..", ".a"] {
        let expected: Vec<&[u8]> = std::path::Path::new(text)
            .components()
            .map(|c| c.as_os_str().as_encoded_bytes())
            .collect();
        assert_eq!(parts_of(text.as_bytes()), expected, "{text}");
    }
}

#[test]
fn directories_hold_what_is_below_them() {
    for (path, dir, expected) in [
        ("/a/b", "/a", true),
        ("/a", "/a", true),
        ("/a/", "/a", true),
        ("/ab", "/a", false),
        ("/a", "/a/b", false),
        ("/a/b", "/", true),
        ("a/b", "/", false),
        ("a/b", "", true),
        ("/dev/shm/x", "/dev", true),
        ("/device", "/dev", false),
    ] {
        assert_eq!(within(path.as_bytes(), dir.as_bytes()), expected, "{path} in {dir}");
        let std = std::path::Path::new(path).starts_with(dir);
        assert_eq!(std, expected, "{path} in {dir}");
    }
    assert!(same(b"/a/./b/", b"/a//b"));
    assert!(!same(b"/a", b"/a/b"));
}

#[test]
fn joining_keeps_absolute_paths() {
    for (base, path) in [("/w", "a"), ("/w/", "a"), ("/w", "/a"), ("", "a"), ("/w", ""), ("", "")] {
        let expected = std::path::Path::new(base).join(path);
        let joined = join(base.as_bytes(), path.as_bytes());
        assert_eq!(joined, expected.as_os_str().as_encoded_bytes(), "{base} + {path}");
    }
}

#[test]
fn table_keeps_one_value_a_name() {
    let mut table: Table<u32> = Table::new();
    assert_eq!(table.len(), 0);
    table.insert("a".to_string(), 1);
    table.insert("b".to_string(), 2);
    table.insert("a".to_string(), 3);
    assert_eq!(table.len(), 2);
    assert_eq!(table.get("a"), Some(&3));
    assert_eq!((table.key_at(1).as_str(), *table.value_at(1)), ("b", 2));
    assert_eq!(table.remove("a"), Some(3));
    assert_eq!(table.remove("a"), None);
    assert_eq!(table.get("a"), None);
    assert_eq!(table.get("b"), Some(&2));
}
