use diskscan::{build_listing, RawChild, RawKind};

fn child(name: &str, path: &str, kind: RawKind) -> RawChild {
    RawChild { name: String::from(name), path: String::from(path), kind }
}

#[test]
fn directories_come_before_files() {
    let raw = vec![
        child("banana.txt", "/d/banana.txt", RawKind::File(10)),
        child("Apple", "/d/Apple", RawKind::Dir(3)),
        child("Cherry.txt", "/d/Cherry.txt", RawKind::File(5)),
        child("zebra", "/d/zebra", RawKind::Dir(0)),
    ];
    let out = build_listing(&raw);
    assert_eq!(out.len(), 4);
    assert_eq!(out[0].name, "Apple");
    assert_eq!(out[1].name, "zebra");
    assert_eq!(out[2].name, "banana.txt");
    assert_eq!(out[3].name, "Cherry.txt");
    assert!(out[0].is_dir);
    assert!(out[1].is_dir);
    assert!(!out[2].is_dir);
    assert!(!out[3].is_dir);
}

#[test]
fn ordering_is_case_insensitive() {
    // Case-sensitively "Banana" (B = 0x42) would come before "apple"
    // (a = 0x61); the listing lowercases the names first.
    let raw = vec![
        child("Banana", "/d/Banana", RawKind::File(1)),
        child("apple", "/d/apple", RawKind::File(2)),
    ];
    let out = build_listing(&raw);
    assert_eq!(out[0].name, "apple");
    assert_eq!(out[1].name, "Banana");
}

#[test]
fn directories_get_placeholder_size_and_direct_count() {
    let raw = vec![child("sub", "/d/sub", RawKind::Dir(42))];
    let out = build_listing(&raw);
    assert_eq!(out.len(), 1);
    assert!(out[0].is_dir);
    assert_eq!(out[0].size, 0);
    assert_eq!(out[0].item_count, 42);
    assert_eq!(out[0].path, "/d/sub");
}

#[test]
fn files_get_real_size_and_no_count() {
    let raw = vec![child("a.bin", "/d/a.bin", RawKind::File(12345))];
    let out = build_listing(&raw);
    assert_eq!(out.len(), 1);
    assert!(!out[0].is_dir);
    assert_eq!(out[0].size, 12345);
    assert_eq!(out[0].item_count, 0);
}

#[test]
fn symlinks_and_unreadable_children_are_skipped() {
    let raw = vec![
        child("link", "/d/link", RawKind::Other),
        child("file", "/d/file", RawKind::File(7)),
        child("ghost", "/d/ghost", RawKind::Unreadable),
    ];
    let out = build_listing(&raw);
    assert_eq!(out.len(), 1);
    assert_eq!(out[0].name, "file");
}

#[test]
fn empty_directory_lists_nothing() {
    let raw: Vec<RawChild> = Vec::new();
    let out = build_listing(&raw);
    assert!(out.is_empty());
}

#[test]
fn equal_names_after_lowercasing_stay_adjacent() {
    let raw = vec![
        child("README", "/d/README", RawKind::File(1)),
        child("zzz", "/d/zzz", RawKind::File(9)),
        child("readme", "/d/readme", RawKind::File(2)),
    ];
    let out = build_listing(&raw);
    assert_eq!(out.len(), 3);
    // The two case-variants of the same name sort together, before "zzz".
    assert!(out[0].name.eq_ignore_ascii_case("readme"));
    assert!(out[1].name.eq_ignore_ascii_case("readme"));
    assert_eq!(out[2].name, "zzz");
}
