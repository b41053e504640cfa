use http::StatusCode;
use static_files::path::{sanitize_path, segment_is_normal, split_path_segments, INDEX_FILE};
use static_files::serve::{
    file_response, open_response, open_target, resolve_request, strip_leading_separators,
    ResponsePlan, ServeError,
};

fn names(segments: &[String]) -> Vec<&str> {
    segments.iter().map(|s| s.as_str()).collect()
}

fn srv_root() -> Option<String> {
    Some("/srv/www".to_string())
}

#[test]
fn traversal_above_root_is_forbidden() {
    assert!(sanitize_path("/srv/www", "../../etc/passwd").is_none());
    let err = resolve_request(&srv_root(), "/../../etc/passwd").err().unwrap();
    assert_eq!(err, ServeError::PathEscape);
    assert_eq!(ResponsePlan::Error(err).status(), 403);
    assert_eq!(err.status_code(), StatusCode::FORBIDDEN);
}

#[test]
fn existing_file_is_served_with_its_length() {
    let path = resolve_request(&srv_root(), "/images/logo.png").ok().unwrap();
    let target = open_target(path, false);
    assert_eq!(target.full_path(), "/srv/www/images/logo.png");
    let plan = open_response(true, Some(2048));
    assert_eq!(plan, ResponsePlan::File { content_length: 2048 });
    assert_eq!(plan.status(), 200);
    assert_eq!(plan.status_code(), StatusCode::OK);
    assert_eq!(plan.content_length(), Some(2048));
}

#[test]
fn directory_is_served_through_its_index() {
    let path = resolve_request(&srv_root(), "/docs").ok().unwrap();
    let target = open_target(path, true);
    assert_eq!(target.full_path(), "/srv/www/docs/index.html");
    assert_eq!(names(target.segments()), vec!["docs", INDEX_FILE]);
    assert_eq!(open_response(true, Some(10)).status(), 200);
    assert_eq!(open_response(false, None).status(), 404);
}

#[test]
fn missing_root_is_an_internal_error() {
    for request in ["/index.html", "/../x", "", "/"] {
        let err = resolve_request(&None, request).err().unwrap();
        assert_eq!(err, ServeError::ConfigMissing);
        assert_eq!(err.status(), 500);
        assert_eq!(err.status_code(), StatusCode::INTERNAL_SERVER_ERROR);
    }
}

#[test]
fn missing_file_is_not_found() {
    let path = resolve_request(&srv_root(), "/missing.txt").ok().unwrap();
    assert_eq!(open_target(path, false).full_path(), "/srv/www/missing.txt");
    let plan = open_response(false, None);
    assert_eq!(plan, ResponsePlan::Error(ServeError::ResourceNotFound));
    assert_eq!(plan.status_code(), StatusCode::NOT_FOUND);
    assert_eq!(plan.content_length(), None);
    assert_eq!(open_response(false, Some(5)).status(), 404);
}

#[test]
fn unreadable_length_is_an_internal_error() {
    let plan = open_response(true, None);
    assert_eq!(plan, ResponsePlan::Error(ServeError::MetadataUnavailable));
    assert_eq!(plan.status(), 500);
}

#[test]
fn file_response_carries_length() {
    assert_eq!(file_response(0), ResponsePlan::File { content_length: 0 });
    assert_eq!(file_response(u64::MAX).content_length(), Some(u64::MAX));
}

#[test]
fn climbing_above_root_is_refused() {
    assert!(sanitize_path("/srv/www", "..").is_none());
    assert!(sanitize_path("/srv/www", "a/../..").is_none());
    assert!(sanitize_path("/srv/www", "a/../../www/b").is_none());
    assert!(sanitize_path("/srv/www", "../www").is_none());
}

#[test]
fn parent_segments_within_root_are_resolved() {
    let p = sanitize_path("/srv/www", "a/b/../c").unwrap();
    assert_eq!(names(p.segments()), vec!["a", "c"]);
    assert_eq!(p.full_path(), "/srv/www/a/c");
    let q = sanitize_path("/srv/www", "a/..").unwrap();
    assert_eq!(q.full_path(), "/srv/www");
}

#[test]
fn names_are_kept_in_order() {
    let p = sanitize_path("/srv/www", "x/y/z.txt").unwrap();
    assert_eq!(p.root(), "/srv/www");
    assert_eq!(names(p.segments()), vec!["x", "y", "z.txt"]);
    assert_eq!(p.full_path(), "/srv/www/x/y/z.txt");
}

#[test]
fn absolute_requests_are_refused() {
    assert!(sanitize_path("/srv/www", "/etc/passwd").is_none());
    assert!(sanitize_path("/srv/www", "/").is_none());
    assert!(sanitize_path("/srv/www", "//a").is_none());
}

#[test]
fn sanitizing_twice_agrees() {
    for request in ["a/b", "../x", "a/./b/", "/abs", ""] {
        let first = sanitize_path("/srv/www", request).map(|p| p.full_path());
        let second = sanitize_path("/srv/www", request).map(|p| p.full_path());
        assert_eq!(first, second);
    }
}

#[test]
fn empty_and_current_segments_change_nothing() {
    let p = sanitize_path("/srv/www", "./a//b/./").unwrap();
    assert_eq!(names(p.segments()), vec!["a", "b"]);
    let root_only = sanitize_path("/srv/www", "").unwrap();
    assert_eq!(root_only.full_path(), "/srv/www");
    assert!(root_only.segments().is_empty());
}

#[test]
fn root_with_trailing_separator() {
    let p = sanitize_path("/srv/www/", "a").unwrap();
    assert_eq!(p.full_path(), "/srv/www/a");
}

#[test]
fn dotted_names_are_ordinary() {
    let p = sanitize_path("/srv/www", "...//.hidden/a..b").unwrap();
    assert_eq!(names(p.segments()), vec!["...", ".hidden", "a..b"]);
}

#[test]
fn leading_separators_are_stripped_before_sanitizing() {
    assert_eq!(strip_leading_separators("///a/b"), "a/b");
    assert_eq!(strip_leading_separators("a/"), "a/");
    assert_eq!(strip_leading_separators("//"), "");
    let p = resolve_request(&srv_root(), "//etc/passwd").ok().unwrap();
    assert_eq!(p.full_path(), "/srv/www/etc/passwd");
}

#[test]
fn splitting_keeps_empty_segments() {
    let segs = split_path_segments("a//b/");
    assert_eq!(names(&segs), vec!["a", "", "b", ""]);
    assert_eq!(names(&split_path_segments("")), vec![""]);
    assert_eq!(names(&split_path_segments("/")), vec!["", ""]);
}

#[test]
fn normal_segment_test() {
    assert!(segment_is_normal("index.html"));
    assert!(segment_is_normal("..."));
    assert!(!segment_is_normal(""));
    assert!(!segment_is_normal("."));
    assert!(!segment_is_normal(".."));
    assert!(!segment_is_normal("a/b"));
}

#[test]
fn non_ascii_names_are_kept() {
    let p = sanitize_path("/srv/www", "données/été.txt").unwrap();
    assert_eq!(p.full_path(), "/srv/www/données/été.txt");
}

#[test]
fn within_root_check() {
    let p = sanitize_path("/srv/www", "a/b").unwrap();
    assert!(p.is_within("/srv/www"));
    assert!(!p.is_within("/srv/ww"));
    assert!(!p.is_within("/srv/wwx"));
}

#[test]
fn error_statuses() {
    assert_eq!(ServeError::PathEscape.status(), 403);
    assert_eq!(ServeError::ResourceNotFound.status(), 404);
    assert_eq!(ServeError::MetadataUnavailable.status_code(), StatusCode::INTERNAL_SERVER_ERROR);
}
