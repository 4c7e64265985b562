use dirnav::paths::ancestors_of;
use dirnav::tree::{DirEntry, LinkStatus, ScanEntry};

fn dir_entry(name: &str) -> ScanEntry {
    ScanEntry {
        name: name.to_string(),
        is_dir: true,
        link_status: LinkStatus::Normal,
        link_target: None,
    }
}

fn file_entry(name: &str) -> ScanEntry {
    ScanEntry {
        name: name.to_string(),
        is_dir: false,
        link_status: LinkStatus::Normal,
        link_target: None,
    }
}

fn names(node: &DirEntry) -> Vec<String> {
    node.children.iter().map(|c| c.name.clone()).collect()
}

#[test]
fn new_derives_name_from_last_component() {
    let n = DirEntry::new("/a/b".to_string(), LinkStatus::Normal, None);
    assert_eq!(n.name, "b");
    assert_eq!(n.path, "/a/b");
    assert!(!n.expanded);
    assert!(!n.is_loaded);
    let root = DirEntry::new("/".to_string(), LinkStatus::Normal, None);
    assert_eq!(root.name, "/");
}

#[test]
fn load_children_keeps_directories_sorted() {
    let mut n = DirEntry::new("/p".to_string(), LinkStatus::Normal, None);
    let scan = vec![
        dir_entry("zeta"),
        file_entry("aaa"),
        dir_entry("alpha"),
        dir_entry("mid"),
    ];
    n.load_children(&scan);
    assert!(n.is_loaded);
    assert_eq!(names(&n), vec!["alpha", "mid", "zeta"]);
    assert_eq!(n.children[0].path, "/p/alpha");
}

#[test]
fn load_children_is_idempotent() {
    let mut n = DirEntry::new("/p".to_string(), LinkStatus::Normal, None);
    n.load_children(&vec![dir_entry("one")]);
    let before = names(&n);
    n.load_children(&vec![dir_entry("two"), dir_entry("three")]);
    assert!(n.is_loaded);
    assert_eq!(names(&n), before, "a second load must not re-read");
}

#[test]
fn load_only_retains_only_the_chain_to_the_target() {
    let mut n = DirEntry::new("/".to_string(), LinkStatus::Normal, None);
    let scan = vec![dir_entry("a"), dir_entry("ab"), dir_entry("b")];
    let r = n.load_only("/a/deeper", &scan);
    assert_eq!(r, Some(0));
    assert_eq!(names(&n), vec!["a"], "only the path-continuing child stays");
    assert!(!n.is_loaded, "a priming load leaves the node not loaded");
    let r2 = n.load_only("/zzz/q", &vec![dir_entry("a")]);
    assert_eq!(r2, None);
    assert!(names(&n).is_empty());
}

#[test]
fn collapse_all_collapses_every_descendant_and_keeps_children() {
    let mut root = DirEntry::new("/".to_string(), LinkStatus::Normal, None);
    root.expanded = true;
    root.load_children(&vec![dir_entry("a"), dir_entry("b")]);
    root.children[0].expanded = true;
    root.children[0].load_children(&vec![dir_entry("x")]);
    root.children[0].children[0].expanded = true;
    root.collapse_all();
    assert!(!root.expanded);
    assert!(!root.children[0].expanded);
    assert!(!root.children[0].children[0].expanded);
    assert_eq!(names(&root), vec!["a", "b"], "collapsing discards nothing");
    assert!(root.is_loaded, "collapsing forgets no load");
}

#[test]
fn collapse_then_expand_restores_children_without_reload() {
    let mut n = DirEntry::new("/p".to_string(), LinkStatus::Normal, None);
    n.expanded = true;
    n.load_children(&vec![dir_entry("a"), dir_entry("b")]);
    let before = names(&n);
    n.collapse_all();
    n.expanded = true;
    // Re-expansion triggers a load, which must be a no-op: offer a scan that
    // would change the children if it were read.
    n.load_children(&vec![dir_entry("other")]);
    assert_eq!(names(&n), before);
    assert!(n.is_loaded);
}

#[test]
fn ancestor_chain_runs_from_root_to_path() {
    assert_eq!(ancestors_of("/a/b"), vec!["/", "/a", "/a/b"]);
    assert_eq!(ancestors_of("/"), vec!["/"]);
    assert_eq!(ancestors_of("/one"), vec!["/", "/one"]);
}
