use diskscan::{ChildKind, ChildRecord, SizeScan};

fn file(path: &str, len: u64) -> ChildRecord {
    ChildRecord { path: String::from(path), kind: ChildKind::File(len) }
}

fn dir(path: &str) -> ChildRecord {
    ChildRecord { path: String::from(path), kind: ChildKind::Dir }
}

fn other(path: &str) -> ChildRecord {
    ChildRecord { path: String::from(path), kind: ChildKind::Other }
}

#[test]
fn unreadable_root_measures_zero() {
    let mut scan = SizeScan::new(String::from("/gone"));
    let next = scan.next_dir();
    assert_eq!(next, Some(String::from("/gone")));
    // The root could not be read: it contributes an empty listing.
    scan.absorb_listing(&Vec::new());
    assert!(scan.done());
    let r = scan.result();
    assert_eq!(r.size, 0);
    assert_eq!(r.item_count, 0);
}

#[test]
fn flat_directory_sums_files() {
    let mut scan = SizeScan::new(String::from("/d"));
    assert_eq!(scan.next_dir(), Some(String::from("/d")));
    scan.absorb_listing(&vec![file("/d/a", 1), file("/d/b", 2), file("/d/c", 3)]);
    assert!(scan.done());
    let r = scan.result();
    assert_eq!(r.size, 6);
    assert_eq!(r.item_count, 3);
}

#[test]
fn nested_directory_counts_itself_and_contents() {
    let mut scan = SizeScan::new(String::from("/a"));
    assert_eq!(scan.next_dir(), Some(String::from("/a")));
    scan.absorb_listing(&vec![dir("/a/b")]);
    assert!(!scan.done());
    // The subdirectory itself was queued to be read next.
    assert_eq!(scan.next_dir(), Some(String::from("/a/b")));
    scan.absorb_listing(&vec![file("/a/b/f", 7)]);
    assert!(scan.done());
    let r = scan.result();
    assert_eq!(r.size, 7);
    assert_eq!(r.item_count, 2);
}

#[test]
fn symlink_counts_once_and_is_never_entered() {
    let mut scan = SizeScan::new(String::from("/d"));
    assert_eq!(scan.next_dir(), Some(String::from("/d")));
    scan.absorb_listing(&vec![other("/d/link")]);
    // Nothing was queued: the walk never follows the link.
    assert!(scan.done());
    let r = scan.result();
    assert_eq!(r.size, 0);
    assert_eq!(r.item_count, 1);
}

#[test]
fn unreadable_children_are_skipped_silently() {
    let mut scan = SizeScan::new(String::from("/d"));
    scan.next_dir();
    scan.absorb_listing(&vec![
        ChildRecord { path: String::from("/d/x"), kind: ChildKind::Unreadable },
        file("/d/y", 5),
    ]);
    assert!(scan.done());
    let r = scan.result();
    assert_eq!(r.size, 5);
    assert_eq!(r.item_count, 1);
}

#[test]
fn walk_is_depth_first_over_queued_directories() {
    let mut scan = SizeScan::new(String::from("/r"));
    assert_eq!(scan.next_dir(), Some(String::from("/r")));
    scan.absorb_listing(&vec![dir("/r/a"), dir("/r/b")]);
    // The most recently queued directory is read first.
    assert_eq!(scan.next_dir(), Some(String::from("/r/b")));
    scan.absorb_listing(&vec![file("/r/b/f", 10)]);
    assert_eq!(scan.next_dir(), Some(String::from("/r/a")));
    scan.absorb_listing(&Vec::new());
    assert!(scan.done());
    assert_eq!(scan.next_dir(), None);
    let r = scan.result();
    assert_eq!(r.size, 10);
    assert_eq!(r.item_count, 3);
}

#[test]
fn totals_saturate_instead_of_wrapping() {
    let mut scan = SizeScan::new(String::from("/d"));
    scan.next_dir();
    scan.absorb_listing(&vec![file("/d/huge", u64::MAX), file("/d/more", 1)]);
    assert!(scan.done());
    let r = scan.result();
    assert_eq!(r.size, u64::MAX);
    assert_eq!(r.item_count, 2);
}
