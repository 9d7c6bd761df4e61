use sysctl_explorer::ctl_tree::{CtlRecord, CtlTree};
use sysctl_explorer::tree_entry::TreeEntry;

const READ_ONLY: u32 = 0x80000000;
const DORMANT: u32 = 0x20000000;

fn rec(name: &str) -> CtlRecord {
    CtlRecord { name: Some(name.to_string()), flags: Some(READ_ONLY) }
}

fn tree(names: &[&str]) -> CtlTree {
    CtlTree::new(names.iter().map(|n| rec(n)).collect())
}

fn shape(v: &[TreeEntry]) -> Vec<(String, usize, bool)> {
    v.iter().map(|e| (e.name.clone(), e.depth, e.ctl.is_some())).collect()
}

fn names(v: &[TreeEntry]) -> Vec<String> {
    v.iter().map(|e| e.name.clone()).collect()
}

#[test]
fn end_to_end_kern_example() {
    let t = tree(&["kern.maxfiles", "kern.ipc.somaxconn", "kern.ipc.shm.max"]);
    assert_eq!(shape(&t.contents("")), vec![("kern".to_string(), 0, false)]);
    assert_eq!(
        shape(&t.contents("kern")),
        vec![("ipc".to_string(), 1, false), ("maxfiles".to_string(), 1, true)]
    );
    assert_eq!(
        shape(&t.contents("kern.ipc")),
        vec![("shm".to_string(), 2, false), ("somaxconn".to_string(), 2, true)]
    );
    assert_eq!(t.contents("kern")[1].ctl, Some(0));
    assert_eq!(t.contents("kern.ipc")[1].ctl, Some(1));
}

#[test]
fn direct_child_and_deep_descendant() {
    let t = tree(&["a.b", "a.b.c", "a.bb"]);
    let r = t.contents("a");
    assert_eq!(names(&r), vec!["b", "bb"]);
    assert_eq!(r[0].ctl, Some(0));
    assert_eq!(r[1].ctl, Some(2));
    assert!(r.iter().all(|e| e.name != "c"));
    let deeper = t.contents("a.b");
    assert_eq!(shape(&deeper), vec![("c".to_string(), 2, true)]);
}

#[test]
fn deep_descendant_first_gives_container() {
    let t = tree(&["a.b.c", "a.b"]);
    let r = t.contents("a");
    assert_eq!(shape(&r), vec![("b".to_string(), 1, false)]);
    assert_eq!(r[0].ctlname, "a.b.c");
}

#[test]
fn root_dedups_and_sorts() {
    let t = tree(&["vm.x", "kern.a", "vm.y", "debug.z", "kern.b", "kern"]);
    let r = t.contents("");
    assert_eq!(names(&r), vec!["debug", "kern", "vm"]);
    assert!(r.iter().all(|e| e.ctl.is_none() && e.depth == 0));
    assert_eq!(r[1].ctlname, "kern.a");
}

#[test]
fn root_orders_by_code_point() {
    let t = tree(&["b.x", "B.x", "a.x", "é.x", "ab.x"]);
    assert_eq!(names(&t.contents("")), vec!["B", "a", "ab", "b", "é"]);
}

#[test]
fn prefix_that_is_not_a_path_is_skipped() {
    let t = tree(&["path.a", "pathological.b", "pat.c"]);
    assert_eq!(names(&t.contents("path")), vec!["a"]);
}

#[test]
fn depth_follows_dots_in_path() {
    let t = tree(&["a.b.c.d.e", "a.b.c.f"]);
    for e in t.contents("a.b.c") {
        assert_eq!(e.depth, 3);
    }
    assert_eq!(names(&t.contents("a.b.c")), vec!["d", "f"]);
    assert_eq!(t.contents("a.b.c.d")[0].depth, 4);
}

#[test]
fn empty_snapshot_and_unknown_path() {
    let empty = CtlTree::new(Vec::new());
    assert!(empty.contents("").is_empty());
    assert!(empty.contents("kern").is_empty());
    let t = tree(&["kern.maxfiles"]);
    assert!(t.contents("vm").is_empty());
    assert!(t.contents("kern.maxfiles").is_empty());
}

#[test]
fn contents_is_repeatable() {
    let t = tree(&["kern.maxfiles", "kern.ipc.somaxconn", "vm.stats", "kern.ipc.shm.max"]);
    for p in ["", "kern", "kern.ipc", "vm"] {
        assert_eq!(shape(&t.contents(p)), shape(&t.contents(p)));
    }
}

#[test]
fn filter_keeps_matching_names() {
    let mut t = tree(&["kern.maxfiles", "kern.ipc.somaxconn", "vm.maxproc", "net.inet"]);
    t.filter(Some("max".to_string()));
    assert_eq!(names(&t.contents("")), vec!["kern", "vm"]);
    let k = t.contents("kern");
    assert_eq!(names(&k), vec!["ipc", "maxfiles"]);
    for p in ["", "kern", "kern.ipc", "vm"] {
        for e in t.contents(p) {
            assert!(e.ctlname.contains("max"));
        }
    }
}

#[test]
fn filter_with_no_match_gives_nothing() {
    let mut t = tree(&["kern.maxfiles", "vm.stats"]);
    t.filter(Some("zzz".to_string()));
    assert!(t.contents("").is_empty());
    assert!(t.contents("kern").is_empty());
}

#[test]
fn clearing_filter_restores_listing() {
    let mut t = tree(&["kern.maxfiles", "kern.ipc.somaxconn", "vm.maxproc", "net.inet"]);
    let before: Vec<_> = ["", "kern", "net"].iter().map(|p| shape(&t.contents(p))).collect();
    t.filter(Some("ipc".to_string()));
    assert_eq!(names(&t.contents("")), vec!["kern"]);
    t.filter(None);
    let after: Vec<_> = ["", "kern", "net"].iter().map(|p| shape(&t.contents(p))).collect();
    assert_eq!(before, after);
}

#[test]
fn skipped_records_never_listed() {
    let t = CtlTree::new(vec![
        CtlRecord { name: Some("kern.hidden".to_string()), flags: Some(DORMANT | READ_ONLY) },
        rec("kern.shown"),
        CtlRecord { name: Some("secret.x".to_string()), flags: Some(DORMANT) },
    ]);
    assert_eq!(names(&t.contents("")), vec!["kern"]);
    assert_eq!(shape(&t.contents("kern")), vec![("shown".to_string(), 1, true)]);
    assert!(t.contents("secret").is_empty());
}

#[test]
fn other_flag_bits_do_not_hide() {
    let t = CtlTree::new(vec![
        CtlRecord { name: Some("a.x".to_string()), flags: Some(0x40000000) },
        CtlRecord { name: Some("a.y".to_string()), flags: Some(0) },
        CtlRecord { name: Some("a.z".to_string()), flags: Some(0xdfffffff) },
    ]);
    assert_eq!(names(&t.contents("a")), vec!["x", "y", "z"]);
}

#[test]
fn unreadable_records_are_dropped() {
    let t = CtlTree::new(vec![
        CtlRecord { name: None, flags: Some(READ_ONLY) },
        CtlRecord { name: Some("kern.noflags".to_string()), flags: None },
        rec("kern.ok"),
    ]);
    assert_eq!(names(&t.contents("kern")), vec!["ok"]);
    assert_eq!(t.contents("kern")[0].ctl, Some(2));
}

#[test]
fn duplicate_names_first_wins() {
    let t = tree(&["a.b", "a.b", "a.b.c"]);
    let r = t.contents("a");
    assert_eq!(r.len(), 1);
    assert_eq!(r[0].ctl, Some(0));
}

#[test]
fn entries_path_leads_to_children() {
    let t = tree(&["kern.ipc.shm.max", "kern.ipc.somaxconn"]);
    let root = t.contents("");
    let p0 = root[0].path();
    assert_eq!(p0, "kern");
    let lvl1 = t.contents(&p0);
    let p1 = lvl1[0].path();
    assert_eq!(p1, "kern.ipc");
    assert_eq!(names(&t.contents(&p1)), vec!["shm", "somaxconn"]);
}
