use globazog::error::EntryError;
use globazog::walk::{scan_failure, ScanFailure};
use globazog::builder::paths::{canon_key, canon_path_key, within};
use globazog::builder::{FollowLinks, Options, QueryBuilder};
use globazog::predicate::{Cmp, EntryType, Leaf};
use globazog::ring::{ContainerId, TerminalReason};
use globazog::syntax::dialect::Dialect;
use globazog::syntax::set::PatternSet;
use globazog::sys::{DirEntry, FileId};
use globazog::walk::{
    confined_descent_allowed, descend_action, emit_mask, enum_plan, match_item, pattern_set_of,
    referenced_roots, terminal_reason, wants_descend, worker_count, ContainerTree, DescendAction,
    Visited,
};

#[test]
fn within_is_component_wise_not_string_prefix() {
    let root = canon_path_key("/base/root", false);
    let sib = canon_path_key("/base/rootsibling/x", false);
    let child = canon_path_key("/base/root/x", false);
    assert!(within(&root, &child));
    assert!(!within(&root, &sib));
    assert!(within(&root, &root));
}

#[test]
fn windows_case_only_siblings_are_not_contained() {
    let foo_root = canon_path_key(r"C:\base\Foo", true);
    let foo_lower = canon_path_key(r"C:\base\foo\secret", true);
    assert_ne!(foo_root, canon_path_key(r"C:\base\foo", true));
    assert!(
        !within(&foo_root, &foo_lower),
        "case-only sibling escaped confinement: fold must not be applied"
    );
    let foo_child = canon_path_key(r"C:\base\Foo\secret", true);
    assert!(within(&foo_root, &foo_child));
}

#[test]
fn windows_keys_fold_case_and_accept_both_separators() {
    let a = canon_key("C:/Data/x", true).unwrap();
    let b = canon_key(r"c:\data\X", true).unwrap();
    assert_eq!(a, b);
    assert_eq!(a, vec![vec!['C', ':'], vec!['D', 'A', 'T', 'A'], vec!['X']]);
    assert!(canon_key(r"\foo", true).is_err());
    assert!(canon_key("C:foo", true).is_err());
    assert!(canon_key(r"\\srv\share\x", true).is_ok());
    assert!(canon_key("/foo", true).is_err());
}

#[test]
fn canon_key_folds_dots_and_refuses_climbing() {
    let k = canon_key("/a/./b//", false).unwrap();
    assert_eq!(k, vec![vec!['a'], vec!['b']]);
    assert!(canon_key("/a/../b", false).is_err());
    assert!(canon_key("a/b", false).is_err());
}

#[test]
fn container_ends_cascade_bottom_up() {
    let mut t = ContainerTree::new();
    let root = t.add_root();
    t.enter(root);
    let a = t.add_child(root);
    t.enter(a);
    let b = t.add_child(a);
    t.enter(b);
    assert!(t.is_scanning(root));
    assert_eq!(t.finish(root), Vec::<ContainerId>::new());
    assert!(t.is_live(root) && !t.is_scanning(root));
    assert_eq!(t.finish(a), Vec::<ContainerId>::new());
    assert_eq!(t.finish(b), vec![b, a, root]);
    assert!(!t.is_live(root));
    assert_eq!(t.created(), 3);
}

#[test]
fn unentered_containers_owe_no_end() {
    let mut t = ContainerTree::new();
    let root = t.add_root();
    t.enter(root);
    let a = t.add_child(root);
    assert_eq!(t.finish(root), Vec::<ContainerId>::new());
    assert_eq!(t.finish(a), vec![root]);
}

#[test]
fn sibling_keeps_parent_alive() {
    let mut t = ContainerTree::new();
    let root = t.add_root();
    t.enter(root);
    let a = t.add_child(root);
    let b = t.add_child(root);
    t.enter(a);
    t.enter(b);
    assert!(t.finish(root).is_empty());
    assert_eq!(t.finish(a), vec![a]);
    assert!(t.is_live(root));
    assert_eq!(t.finish(b), vec![b, root]);
}

#[test]
fn teardown_drains_open_containers_deepest_first() {
    let mut t = ContainerTree::new();
    let root = t.add_root();
    t.enter(root);
    let a = t.add_child(root);
    t.enter(a);
    let b = t.add_child(a);
    t.enter(b);
    let c = t.add_child(root);
    let drained = t.drain_entered();
    assert_eq!(drained, vec![b, a, root]);
    assert!(t.is_live(c));
    assert!(t.drain_entered().is_empty());
}

#[test]
fn terminal_reason_priority() {
    assert_eq!(terminal_reason(true, true), TerminalReason::Failed);
    assert_eq!(terminal_reason(false, true), TerminalReason::Cancelled);
    assert_eq!(terminal_reason(false, false), TerminalReason::Completed);
}

#[test]
fn at_least_one_worker() {
    let mut o = Options::default();
    o.permits = 0;
    assert_eq!(worker_count(&o), 1);
    o.permits = 8;
    assert_eq!(worker_count(&o), 8);
}

fn entry(name: &str, ty: EntryType, reparse: bool, id: u128) -> DirEntry {
    DirEntry {
        name: name.chars().map(|c| c as u32).collect(),
        entry_type: ty,
        is_reparse: reparse,
        reparse_tag: 0,
        attributes: 0,
        size: 5,
        btime: 0,
        mtime: 0,
        atime: 0,
        ctime: 0,
        file_id: FileId { volume: 1, id },
    }
}

#[test]
fn cycle_gate_admits_a_reparse_target_once() {
    let mut v = Visited::new();
    let link = entry("l", EntryType::Other, true, 9);
    assert!(v.first_visit(&link, true));
    assert!(!v.first_visit(&link, true));
    assert!(v.first_visit(&link, false));
    let dir = entry("d", EntryType::Dir, false, 9);
    assert!(v.first_visit(&dir, true));
}

fn cps(s: &str) -> Vec<u32> {
    s.chars().map(|c| c as u32).collect()
}

#[test]
fn emit_and_descend_decisions_follow_roots_and_filters() {
    let q = QueryBuilder::new()
        .root("/a")
        .root("/b")
        .pattern("*.log", Dialect::Posix, vec![Leaf::Size { op: Cmp::Gt, value: 1 }])
        .pattern("/etc/*.conf", Dialect::Posix, Vec::new())
        .build()
        .unwrap();
    let set = pattern_set_of(&q);
    let name = cps("x.log");
    let e = entry("x.log", EntryType::File, false, 1);
    let meta = e.meta(0);
    let path: Vec<&[u32]> = vec![&name];
    let m = emit_mask(&set, &q, 0, &path, &meta).unwrap();
    assert_eq!(m.iter(), vec![0]);
    assert!(emit_mask(&set, &q, 2, &path, &meta).is_none());

    let d = entry("sub", EntryType::Dir, false, 2);
    let sub = cps("sub");
    let dpath: Vec<&[u32]> = vec![&sub];
    assert!(!wants_descend(&set, &q, 0, &dpath, &d.meta(0), &d));
    assert!(!wants_descend(&set, &q, 2, &dpath, &d.meta(0), &d));

    assert_eq!(referenced_roots(&q), vec![true, true, true]);
    let plan = enum_plan(&q);
    assert!(plan.want_stat);
    assert!(!plan.want_file_id);
    assert!(!plan.want_reparse_file_id);
}

#[test]
fn recursive_pattern_descends_into_directories_only() {
    let q = QueryBuilder::new()
        .root("/a")
        .pattern("**/*.rs", Dialect::Posix, Vec::new())
        .follow_links(FollowLinks::Never)
        .build()
        .unwrap();
    let set = pattern_set_of(&q);
    let sub = cps("sub");
    let dpath: Vec<&[u32]> = vec![&sub];
    let d = entry("sub", EntryType::Dir, false, 2);
    assert!(wants_descend(&set, &q, 0, &dpath, &d.meta(0), &d));
    let link = entry("sub", EntryType::Other, true, 3);
    assert!(!wants_descend(&set, &q, 0, &dpath, &link.meta(0), &link));
    assert!(!enum_plan(&q).want_stat);
}

#[test]
fn cycle_gate_tells_volumes_apart() {
    let mut v = Visited::new();
    let mut a = entry("a", EntryType::Other, true, 7);
    assert!(v.first_visit(&a, true));
    a.file_id.volume = 2;
    assert!(v.first_visit(&a, true));
    assert!(!v.first_visit(&a, true));
    let unknown = DirEntry { file_id: FileId { volume: 0, id: 0 }, ..entry("u", EntryType::Other, true, 0) };
    assert!(v.first_visit(&unknown, true));
    assert!(v.first_visit(&unknown, true));
}

#[test]
fn confinement_declines_links_that_leave_the_roots() {
    let confined = QueryBuilder::new()
        .root("/base/root")
        .confine_to_roots(true)
        .follow_links(FollowLinks::Always)
        .pattern("**", Dialect::Posix, Vec::new())
        .build()
        .unwrap();
    let roots = vec![canon_path_key("/base/root", false)];
    let link = entry("l", EntryType::Other, true, 4);
    let inside = Some(canon_path_key("/base/root/real", false));
    let outside = Some(canon_path_key("/base/rootsibling", false));
    assert!(confined_descent_allowed(&confined, &link, &inside, &roots));
    assert!(!confined_descent_allowed(&confined, &link, &outside, &roots));
    assert!(!confined_descent_allowed(&confined, &link, &None, &roots));
    let dir = entry("d", EntryType::Dir, false, 5);
    assert!(confined_descent_allowed(&confined, &dir, &None, &roots));

    let free = QueryBuilder::new()
        .root("/base/root")
        .follow_links(FollowLinks::Always)
        .pattern("**", Dialect::Posix, Vec::new())
        .build()
        .unwrap();
    assert!(confined_descent_allowed(&free, &link, &outside, &roots));
}

#[test]
fn pattern_set_follows_query_order() {
    let q = QueryBuilder::new()
        .root("/a")
        .pattern("*.log", Dialect::Posix, Vec::new())
        .pattern("**/*.rs", Dialect::Posix, Vec::new())
        .build()
        .unwrap();
    let set = pattern_set_of(&q);
    assert_eq!(set.len(), 2);
    let name = cps("x.rs");
    let path: Vec<&[u32]> = vec![&name];
    assert_eq!(set.matches(&path), vec![1]);
    assert_eq!(set.get(0).unwrap().pattern, q.patterns[0].glob.pattern);
}

#[test]
fn descend_action_blocks_escaping_links_of_confined_queries() {
    let q = QueryBuilder::new()
        .root("/base/root")
        .confine_to_roots(true)
        .follow_links(FollowLinks::Always)
        .pattern("**/*.rs", Dialect::Posix, Vec::new())
        .build()
        .unwrap();
    let set = pattern_set_of(&q);
    let roots = vec![canon_path_key("/base/root", false)];
    let name = cps("l");
    let path: Vec<&[u32]> = vec![&name];
    let link = entry("l", EntryType::Other, true, 4);
    let meta = link.meta(0);
    let out = Some(canon_path_key("/elsewhere", false));
    let inside = Some(canon_path_key("/base/root/x", false));
    assert_eq!(descend_action(&set, &q, 0, &path, &meta, &link, &out, &roots), DescendAction::Block);
    assert_eq!(descend_action(&set, &q, 0, &path, &meta, &link, &inside, &roots), DescendAction::Enter);
    let file = entry("l", EntryType::File, false, 5);
    assert_eq!(
        descend_action(&set, &q, 0, &path, &file.meta(0), &file, &None, &roots),
        DescendAction::Skip
    );
}

#[test]
fn match_items_carry_name_mask_and_metadata() {
    let q = QueryBuilder::new()
        .root("/a")
        .pattern("*.log", Dialect::Posix, Vec::new())
        .pattern("*.txt", Dialect::Posix, Vec::new())
        .build()
        .unwrap();
    let set = pattern_set_of(&q);
    let name = cps("x.txt");
    let e = entry("x.txt", EntryType::File, false, 1);
    let meta = e.meta(0);
    let path: Vec<&[u32]> = vec![&name];
    let m = match_item(&set, &q, 0, &path, &meta, ContainerId(7), &name, q.fetch_mask()).unwrap();
    assert_eq!(m.container, ContainerId(7));
    assert_eq!(m.name.code_points(), &name[..]);
    assert_eq!(m.matched.iter(), vec![1]);
    assert_eq!(m.meta.size, 5);
    let other = cps("x.md");
    let opath: Vec<&[u32]> = vec![&other];
    assert!(match_item(&set, &q, 0, &opath, &meta, ContainerId(7), &other, q.fetch_mask()).is_none());
}

#[test]
fn unopenable_roots_are_fatal_and_children_are_reported() {
    match scan_failure(None, 2, EntryError::new(None, std::io::Error::other("gone"))) {
        ScanFailure::Fatal(e) => {
            assert_eq!(e.root, Some(2));
            assert_eq!(e.container, None);
        }
        ScanFailure::Reported(_) => panic!("a root failure is fatal"),
    }
    match scan_failure(Some(ContainerId(4)), 1, EntryError::new(None, std::io::Error::other("x"))) {
        ScanFailure::Reported(e) => {
            assert_eq!(e.root, Some(1));
            assert_eq!(e.container, Some(ContainerId(4)));
        }
        ScanFailure::Fatal(_) => panic!("a child failure is reported"),
    }
}
