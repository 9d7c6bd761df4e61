use std::cmp::Ordering;
use sysctl_explorer::tree_entry::TreeEntry;

#[test]
fn new_takes_segment_at_depth() {
    let e = TreeEntry::new("a.b.c", 1, None);
    assert_eq!(e.name, "b");
    assert_eq!(e.ctlname, "a.b.c");
    assert_eq!(e.depth, 1);
    assert_eq!(e.ctl, None);
}

#[test]
fn new_at_root_and_last_segment() {
    assert_eq!(TreeEntry::new("kern.ipc.somaxconn", 0, None).name, "kern");
    let leaf = TreeEntry::new("kern.ipc.somaxconn", 2, Some(7));
    assert_eq!(leaf.name, "somaxconn");
    assert_eq!(leaf.ctl, Some(7));
}

#[test]
fn new_keeps_empty_segments() {
    assert_eq!(TreeEntry::new("a..b", 1, None).name, "");
    assert_eq!(TreeEntry::new("a..b", 2, None).name, "b");
    assert_eq!(TreeEntry::new("", 0, None).name, "");
}

#[test]
fn path_truncates_to_own_depth() {
    assert_eq!(TreeEntry::new("a.b.c", 0, None).path(), "a");
    assert_eq!(TreeEntry::new("a.b.c", 1, None).path(), "a.b");
    assert_eq!(TreeEntry::new("a.b.c", 2, None).path(), "a.b.c");
    assert_eq!(TreeEntry::new("kern.ipc.shm.max", 1, None).path(), "kern.ipc");
}

#[test]
fn path_with_non_ascii_names() {
    let e = TreeEntry::new("dév.ü.x", 1, None);
    assert_eq!(e.name, "ü");
    assert_eq!(e.path(), "dév.ü");
}

#[test]
fn equality_is_by_name_only() {
    let a = TreeEntry::new("x.b", 1, Some(1));
    let b = TreeEntry::new("y.b.c", 1, None);
    let c = TreeEntry::new("x.c", 1, Some(1));
    assert!(a == b);
    assert!(a != c);
}

#[test]
fn text_is_the_name() {
    assert_eq!(TreeEntry::new("a.b.c", 2, None).to_string(), "c");
}

#[test]
fn ordering_is_by_name() {
    let a = TreeEntry::new("z.apple", 1, None);
    let b = TreeEntry::new("a.banana", 1, Some(3));
    let a2 = TreeEntry::new("q.apple.x", 1, None);
    assert!(a < b);
    assert!(b > a);
    assert_eq!(a.partial_cmp(&a2), Some(Ordering::Equal));
    assert_eq!(TreeEntry::new("B", 0, None).partial_cmp(&TreeEntry::new("a", 0, None)), Some(Ordering::Less));
    assert_eq!(TreeEntry::new("ab", 0, None).partial_cmp(&TreeEntry::new("a", 0, None)), Some(Ordering::Greater));
}
