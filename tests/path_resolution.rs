use daps::error::ResolveError;
use daps::path::{resolve_path, split_components};

fn ok(p: &str) -> Result<String, ResolveError> {
    Ok(p.to_string())
}

#[test]
fn plain_file_below_base() {
    assert_eq!(resolve_path("/srv/daps", "index.html"), ok("/srv/daps/index.html"));
}

#[test]
fn nested_file_below_base() {
    assert_eq!(resolve_path("/srv/daps", "guide/intro.html"), ok("/srv/daps/guide/intro.html"));
}

#[test]
fn current_marker_is_skipped() {
    let with_marker = resolve_path("/srv/docs", "a/./b");
    assert_eq!(with_marker, resolve_path("/srv/docs", "a/b"));
    assert_eq!(with_marker, ok("/srv/docs/a/b"));
}

#[test]
fn name_then_parent_cancels() {
    let long = resolve_path("/srv/docs", "a/../a/file.txt");
    assert_eq!(long, resolve_path("/srv/docs", "a/file.txt"));
    assert_eq!(long, ok("/srv/docs/a/file.txt"));
}

#[test]
fn climbing_to_etc_is_forbidden() {
    assert_eq!(resolve_path("/srv/docs", "../../../etc/passwd"), Err(ResolveError::Forbidden));
    assert_eq!(resolve_path("/", "../../../etc/passwd"), Err(ResolveError::Forbidden));
    assert_eq!(resolve_path("docs", "../../../etc/passwd"), Err(ResolveError::Forbidden));
}

#[test]
fn climbing_after_descending_is_forbidden() {
    assert_eq!(resolve_path("/srv/docs", "a/../../docs/x"), Err(ResolveError::Forbidden));
    assert_eq!(resolve_path("/srv/docs", "a/b/../../.."), Err(ResolveError::Forbidden));
    assert_eq!(resolve_path("/srv/docs", ".."), Err(ResolveError::Forbidden));
}

#[test]
fn parent_markers_within_base_are_allowed() {
    assert_eq!(resolve_path("/srv/docs", "a/b/../../c"), ok("/srv/docs/c"));
    assert_eq!(resolve_path("/srv/docs", "a/.."), ok("/srv/docs"));
}

#[test]
fn resolving_twice_gives_the_same_result() {
    for requested in ["a/./b", "../x", "a/../b/c", "", "/etc/passwd"] {
        assert_eq!(resolve_path("/srv/docs", requested), resolve_path("/srv/docs", requested));
    }
}

#[test]
fn empty_request_is_the_base() {
    assert_eq!(resolve_path("/srv/docs", ""), ok("/srv/docs"));
    assert_eq!(resolve_path("/srv/docs", "."), ok("/srv/docs"));
}

#[test]
fn rooted_request_stays_below_base() {
    assert_eq!(resolve_path("/srv/docs", "/etc/passwd"), ok("/srv/docs/etc/passwd"));
}

#[test]
fn repeated_and_trailing_separators_are_ignored() {
    assert_eq!(resolve_path("/srv/docs/", "a//b/"), ok("/srv/docs/a/b"));
}

#[test]
fn relative_base_stays_relative() {
    assert_eq!(resolve_path("site/docs", "index.html"), ok("site/docs/index.html"));
    assert_eq!(resolve_path("", "index.html"), ok("index.html"));
}

#[test]
fn root_base() {
    assert_eq!(resolve_path("/", "index.html"), ok("/index.html"));
    assert_eq!(resolve_path("/", ""), ok("/"));
}

#[test]
fn sibling_directory_is_not_inside() {
    let r = resolve_path("/docs", "../docs-evil/secret").unwrap_err();
    assert_eq!(r, ResolveError::Forbidden);
    let p = resolve_path("/docs", "x/../y").unwrap();
    assert_eq!(p, "/docs/y");
}

#[test]
fn results_keep_base_components_first() {
    for requested in ["a", "a/b/..", "./c/./d", "/x", "e/../f/../g"] {
        let p = resolve_path("/srv/docs", requested).unwrap();
        let base = split_components("/srv/docs");
        let got = split_components(&p);
        assert!(p.starts_with('/'));
        assert!(got.len() >= base.len());
        assert_eq!(&got[..base.len()], &base[..]);
    }
}

#[test]
fn split_drops_empty_components() {
    assert_eq!(split_components("//a/b//c/"), vec!["a", "b", "c"]);
    assert_eq!(split_components(""), Vec::<String>::new());
    assert_eq!(split_components("a/./.."), vec!["a", ".", ".."]);
}
