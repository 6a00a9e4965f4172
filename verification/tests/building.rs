use globazog::builder::{FollowLinks, Options, QueryBuilder, Root};
use globazog::error::Error;
use globazog::predicate::{Cmp, Leaf, MetaMask};
use globazog::syntax::dialect::Dialect;
use globazog::syntax::parse::Anchor;
use globazog::syntax::CaseSensitivity;

fn empty_emit() -> Vec<Leaf> {
    Vec::new()
}

#[test]
fn relative_pattern_binds_to_explicit_root() {
    let q = QueryBuilder::new()
        .root("/home/user")
        .pattern("**/*.rs", Dialect::Posix, empty_emit())
        .build()
        .unwrap();
    assert_eq!(q.roots, vec![Root::new("/home/user")]);
    assert_eq!(q.patterns.len(), 1);
    assert_eq!(q.patterns[0].glob.anchor, Anchor::Relative);
    assert_eq!(q.patterns[0].glob.case, CaseSensitivity::Sensitive);
}

#[test]
fn relative_pattern_without_root_errors() {
    let err = QueryBuilder::new()
        .pattern("*.rs", Dialect::Posix, empty_emit())
        .build()
        .unwrap_err();
    assert!(matches!(err, Error::Pattern(_)));
}

#[test]
fn empty_query_errors() {
    let err = QueryBuilder::new().build().unwrap_err();
    assert!(matches!(err, Error::Pattern(_)));
}

#[test]
fn posix_absolute_pattern_peels_literal_prefix_into_root() {
    let q = QueryBuilder::new()
        .pattern("/etc/systemd/*.conf", Dialect::Posix, empty_emit())
        .build()
        .unwrap();

    assert_eq!(q.roots, vec![Root::new("/etc/systemd")]);
    assert_eq!(q.patterns.len(), 1);

    assert_eq!(q.patterns[0].glob.pattern.segments.len(), 1);
    assert_eq!(q.patterns[0].glob.anchor, Anchor::Root);
}

#[test]
fn posix_absolute_stops_peeling_at_first_wildcard() {
    let q = QueryBuilder::new()
        .pattern("/var/*/cache/**", Dialect::Posix, empty_emit())
        .build()
        .unwrap();
    assert_eq!(q.roots, vec![Root::new("/var")]);

    assert_eq!(q.patterns[0].glob.pattern.segments.len(), 3);
}

#[test]
fn posix_absolute_all_literal_keeps_final_segment() {
    let q = QueryBuilder::new()
        .pattern("/etc/hosts", Dialect::Posix, empty_emit())
        .build()
        .unwrap();


    assert_eq!(q.roots, vec![Root::new("/etc")]);
    assert_eq!(q.patterns[0].glob.pattern.segments.len(), 1);
}

#[test]
fn case_override_applies() {
    let q = QueryBuilder::new()
        .root("/data")
        .pattern_cased(
            "*.TXT",
            Dialect::Posix,
            CaseSensitivity::Insensitive,
            empty_emit(),
        )
        .build()
        .unwrap();
    assert_eq!(q.patterns[0].glob.case, CaseSensitivity::Insensitive);
}

#[test]
fn query_level_default_case_applies_when_pattern_gives_none() {
    let opts = Options {
        default_case: Some(CaseSensitivity::Insensitive),
        ..Options::default()
    };
    let q = QueryBuilder::new()
        .root("/data")
        .options(opts)
        .pattern("*.txt", Dialect::Posix, empty_emit())
        .build()
        .unwrap();
    assert_eq!(q.patterns[0].glob.case, CaseSensitivity::Insensitive);
}

#[test]
fn duplicate_derived_roots_are_deduped() {
    let q = QueryBuilder::new()
        .pattern("/opt/app/*.log", Dialect::Posix, empty_emit())
        .pattern("/opt/app/*.tmp", Dialect::Posix, empty_emit())
        .build()
        .unwrap();
    assert_eq!(q.roots, vec![Root::new("/opt/app")]);
    assert_eq!(q.patterns.len(), 2);
}

#[test]
fn anchored_pattern_scopes_to_its_own_root_only() {
    let q = QueryBuilder::new()
        .root("/tmp")
        .pattern("*.txt", Dialect::Posix, empty_emit())
        .pattern("/etc/*.conf", Dialect::Posix, empty_emit())
        .build()
        .unwrap();
    assert_eq!(q.roots, vec![Root::new("/tmp"), Root::new("/etc")]);

    assert_eq!(q.patterns[0].roots, vec![0]);

    assert_eq!(q.patterns[1].roots, vec![1]);
}

#[test]
fn fetch_mask_unions_emit_descend_and_result_shape() {
    let q = QueryBuilder::new()
        .root("/data")
        .pattern(
            "*.log",
            Dialect::Posix,
            vec![Leaf::Size {
                op: Cmp::Gt,
                value: 0,
            }],
        )
        .descend(vec![Leaf::IsReparse { negate: true }])
        .result_shape(MetaMask::mtime())
        .build()
        .unwrap();
    let mask = q.fetch_mask();
    assert!(mask.contains(MetaMask::size()));
    assert!(mask.contains(MetaMask::reparse()));
    assert!(mask.contains(MetaMask::mtime()));
    assert!(!mask.contains(MetaMask::attrs()));
}

#[test]
fn follow_links_defaults_to_never_and_is_settable() {
    let q = QueryBuilder::new()
        .root("/data")
        .pattern("*.txt", Dialect::Posix, empty_emit())
        .build()
        .unwrap();
    assert_eq!(q.options.follow_links, FollowLinks::Never);

    let q = QueryBuilder::new()
        .root("/data")
        .follow_links(FollowLinks::Always)
        .pattern("*.txt", Dialect::Posix, empty_emit())
        .build()
        .unwrap();
    assert_eq!(q.options.follow_links, FollowLinks::Always);
}

#[test]
fn win_leading_separator_without_base_errors() {


    let r = QueryBuilder::new()
        .pattern(r"\foo\*.txt", Dialect::Win, empty_emit())
        .build();
    assert!(r.is_err());
}

#[test]
fn win_dialect_unsupported_off_windows() {
    let err = QueryBuilder::new()
        .pattern("*.txt", Dialect::Win, empty_emit())
        .build()
        .unwrap_err();
    assert!(matches!(err, Error::Pattern(_)));
}

#[test]
fn duplicate_supplied_roots_are_deduped() {

    let q = QueryBuilder::new()
        .root("/data")
        .root("/data")
        .pattern("*.txt", Dialect::Posix, empty_emit())
        .build()
        .unwrap();
    assert_eq!(q.roots, vec![Root::new("/data")]);
    assert_eq!(q.patterns[0].roots, vec![0]);
}

#[test]
fn lexically_equal_roots_are_deduped() {

    let q = QueryBuilder::new()
        .root("/data")
        .root("/data/.")
        .pattern("*.txt", Dialect::Posix, empty_emit())
        .build()
        .unwrap();
    assert_eq!(q.roots.len(), 1);
}

#[test]
fn nested_supplied_roots_are_rejected() {


    let r = QueryBuilder::new()
        .root("/tmp")
        .root("/tmp/sub")
        .pattern("*.c", Dialect::Posix, empty_emit())
        .build();
    assert!(matches!(r, Err(Error::Options(_))));

    let r = QueryBuilder::new()
        .root("/tmp/sub")
        .root("/tmp")
        .pattern("*.c", Dialect::Posix, empty_emit())
        .build();
    assert!(matches!(r, Err(Error::Options(_))));
}

#[test]
fn sibling_supplied_roots_are_allowed() {
    let q = QueryBuilder::new()
        .root("/a")
        .root("/b")
        .pattern("*.c", Dialect::Posix, empty_emit())
        .build()
        .unwrap();
    assert_eq!(q.roots.len(), 2);
}

#[test]
fn parent_dir_in_root_is_rejected() {

    let r = QueryBuilder::new()
        .root("/a/../b")
        .pattern("*.c", Dialect::Posix, empty_emit())
        .build();
    assert!(matches!(r, Err(Error::Options(_))));
}

#[test]
fn zero_ring_capacity_is_rejected() {
    let opts = Options {
        ring_capacity: 0,
        ..Options::default()
    };
    let r = QueryBuilder::new()
        .root("/data")
        .options(opts)
        .pattern("*.txt", Dialect::Posix, empty_emit())
        .build();
    assert!(matches!(r, Err(Error::Options(_))));
}

#[test]
fn relative_base_is_rejected() {


    let r = QueryBuilder::new()
        .base("relative/dir")
        .pattern("/foo/*.c", Dialect::Posix, empty_emit())
        .build();
    assert!(r.is_err());
}

#[test]
fn root_dedup_ignores_repeated_separators() {
    let q = QueryBuilder::new()
        .root("/data//x/")
        .root("/data/x")
        .pattern("*.txt", Dialect::Posix, empty_emit())
        .build()
        .unwrap();
    assert_eq!(q.roots, vec![Root::new("/data//x/")]);
}

#[test]
fn relative_root_is_rejected() {
    let r = QueryBuilder::new()
        .root("data")
        .pattern("*.txt", Dialect::Posix, empty_emit())
        .build();
    assert!(matches!(r, Err(Error::Options(_))));
}

#[test]
fn parse_error_surfaces_as_pattern_error() {
    let r = QueryBuilder::new()
        .root("/data")
        .pattern("a/../b", Dialect::Posix, empty_emit())
        .build();
    assert!(matches!(r, Err(Error::Pattern(_))));
}

#[test]
fn absolute_pattern_with_absolute_base_roots_at_slash() {
    let q = QueryBuilder::new()
        .base("/work")
        .pattern("/*.c", Dialect::Posix, empty_emit())
        .build()
        .unwrap();
    assert_eq!(q.roots, vec![Root::new("/")]);
    assert_eq!(q.patterns[0].roots, vec![0]);
}

#[test]
fn drive_relative_host_refuses_leading_separator_without_base() {
    let r = QueryBuilder::new()
        .pattern("/foo/*.c", Dialect::Posix, empty_emit())
        .build_for(true);
    assert!(matches!(r, Err(Error::Pattern(_))));
}

#[test]
fn win_drive_absolute_peels_into_drive_root() {
    let q = QueryBuilder::new()
        .pattern(r"C:\Users\*\Documents", Dialect::Win, empty_emit())
        .build_for(true)
        .unwrap();
    assert_eq!(q.roots, vec![Root::new(r"C:\Users")]);
    assert_eq!(q.patterns[0].glob.anchor, Anchor::Drive('C'));
}

#[test]
fn win_leading_separator_with_base_roots_at_base_drive() {
    let q = QueryBuilder::new()
        .base(r"D:\work")
        .pattern(r"\foo\*.txt", Dialect::Win, empty_emit())
        .build_for(true)
        .unwrap();
    assert_eq!(q.roots, vec![Root::new(r"D:\foo")]);
}

#[test]
fn win_leading_separator_with_unc_base_roots_at_its_share() {
    let q = QueryBuilder::new()
        .base(r"\\srv\share\work")
        .pattern(r"\foo\*.txt", Dialect::Win, empty_emit())
        .build_for(true)
        .unwrap();
    assert_eq!(q.roots, vec![Root::new(r"\\srv\share\foo")]);
}

#[test]
fn windows_roots_dedup_case_insensitively() {
    let q = QueryBuilder::new()
        .root("C:/Data")
        .root("C:/data")
        .pattern("*.c", Dialect::Posix, empty_emit())
        .build_for(true)
        .unwrap();
    assert_eq!(q.roots.len(), 1);
}

#[test]
fn drive_relative_pattern_without_base_errors() {
    let r = QueryBuilder::new()
        .pattern("C:foo/*.txt", Dialect::Win, empty_emit())
        .build_for(true);
    assert!(matches!(r, Err(Error::Pattern(_))));
}

#[test]
fn drive_relative_pattern_resolves_against_a_base_on_its_drive() {
    let q = QueryBuilder::new()
        .base(r"c:\work")
        .pattern("C:foo/*.txt", Dialect::Win, empty_emit())
        .build_for(true)
        .unwrap();
    assert_eq!(q.roots, vec![Root::new(r"c:\work\foo")]);
    assert_eq!(q.patterns[0].glob.anchor, Anchor::DriveRelative('C'));
    let r = QueryBuilder::new()
        .base(r"D:\work")
        .pattern("C:foo/*.txt", Dialect::Win, empty_emit())
        .build_for(true);
    assert!(matches!(r, Err(Error::Pattern(_))));
}

#[test]
fn unc_pattern_needs_literal_server_and_share() {
    let r = QueryBuilder::new()
        .pattern("\\\\*\\share\\x", Dialect::Win, empty_emit())
        .build_for(true);
    assert!(matches!(r, Err(Error::Pattern(_))));
}

#[test]
fn options_and_shape_are_carried_over() {
    let q = QueryBuilder::new()
        .root("/data")
        .confine_to_roots(true)
        .pattern("*.txt", Dialect::Posix, empty_emit())
        .descend(vec![Leaf::IsReparse { negate: true }])
        .build()
        .unwrap();
    assert!(q.options.confine_to_roots);
    assert_eq!(q.options.ring_capacity, 1024);
    assert_eq!(q.options.permits, 64);
    assert_eq!(q.descend.len(), 1);
    assert_eq!(q.result_shape, MetaMask::empty());
}

#[test]
fn supplied_roots_keep_first_occurrence_order() {
    let q = QueryBuilder::new()
        .root("/b")
        .root("/a")
        .root("/b/.")
        .root("/c")
        .pattern("*.txt", Dialect::Posix, empty_emit())
        .build()
        .unwrap();
    assert_eq!(q.roots, vec![Root::new("/b"), Root::new("/a"), Root::new("/c")]);
    assert_eq!(q.patterns[0].roots, vec![0, 1, 2]);
}

#[test]
fn entries_take_case_from_override_then_query_then_dialect() {
    let opts = Options {
        default_case: Some(CaseSensitivity::Insensitive),
        ..Options::default()
    };
    let q = QueryBuilder::new()
        .root("/a")
        .options(opts)
        .pattern("*.a", Dialect::Posix, empty_emit())
        .pattern_cased("*.b", Dialect::Posix, CaseSensitivity::Sensitive, empty_emit())
        .build()
        .unwrap();
    assert_eq!(q.patterns[0].glob.case, CaseSensitivity::Insensitive);
    assert_eq!(q.patterns[1].glob.case, CaseSensitivity::Sensitive);
    let q = QueryBuilder::new()
        .root("/a")
        .pattern("*.a", Dialect::Posix, empty_emit())
        .build()
        .unwrap();
    assert_eq!(q.patterns[0].glob.case, CaseSensitivity::Sensitive);
}

#[test]
fn one_more_pattern_appends_one_entry() {
    let b = QueryBuilder::new().root("/a").pattern("*.a", Dialect::Posix, empty_emit());
    let q = b
        .pattern("/etc/*.conf", Dialect::Posix, vec![Leaf::IsReparse { negate: true }])
        .build()
        .unwrap();
    assert_eq!(q.patterns.len(), 2);
    assert_eq!(q.patterns[0].glob.anchor, Anchor::Relative);
    assert_eq!(q.patterns[0].roots, vec![0]);
    assert_eq!(q.patterns[1].glob.anchor, Anchor::Root);
    assert!(matches!(q.patterns[1].emit[..], [Leaf::IsReparse { negate: true }]));
    assert_eq!(q.roots[q.patterns[1].roots[0]], Root::new("/etc"));
    assert_eq!(q.patterns[1].glob.case, CaseSensitivity::Sensitive);
}

#[test]
fn confine_to_roots_changes_only_its_flag() {
    let base = || QueryBuilder::new().root("/a").pattern("**/*.c", Dialect::Posix, empty_emit());
    let plain = base().build().unwrap();
    let confined = base().confine_to_roots(true).build().unwrap();
    assert!(!plain.options.confine_to_roots);
    assert!(confined.options.confine_to_roots);
    assert_eq!(plain.roots, confined.roots);
    assert_eq!(plain.patterns.len(), confined.patterns.len());
    assert_eq!(plain.patterns[0].roots, confined.patterns[0].roots);
    assert_eq!(plain.options.ring_capacity, confined.options.ring_capacity);
}
