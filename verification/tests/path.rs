use greymd::path::{percent_decode, request_relative_path, resolve_path, starts_with_path, EntryKind, ResolvedPath};

fn file_of(r: Option<ResolvedPath>) -> Option<String> {
    match r {
        Some(ResolvedPath::File(p)) => Some(p),
        _ => None,
    }
}

fn dir_of(r: Option<ResolvedPath>) -> Option<String> {
    match r {
        Some(ResolvedPath::Directory(p)) => Some(p),
        _ => None,
    }
}

#[test]
fn resolves_simple_file() {
    let rel = request_relative_path("/hello.txt").unwrap();
    assert_eq!(rel, "hello.txt");
    let r = resolve_path("/srv/root", &rel, Some(("/srv/root/hello.txt", EntryKind::File)));
    assert_eq!(file_of(r).as_deref(), Some("/srv/root/hello.txt"));
}

#[test]
fn resolves_nested_file() {
    let rel = request_relative_path("/sub/nested.txt").unwrap();
    assert_eq!(rel, "sub/nested.txt");
    let r = resolve_path("/srv/root", &rel, Some(("/srv/root/sub/nested.txt", EntryKind::File)));
    assert_eq!(file_of(r).as_deref(), Some("/srv/root/sub/nested.txt"));
}

#[test]
fn rejects_directory_traversal() {
    let rel = request_relative_path("/../../../etc/passwd").unwrap();
    assert_eq!(rel, "../../../etc/passwd");
    let r = resolve_path("/srv/root", &rel, Some(("/etc/passwd", EntryKind::File)));
    assert!(r.is_none());
}

#[test]
fn rejects_encoded_traversal() {
    let rel = request_relative_path("/%2e%2e/%2e%2e/etc/passwd").unwrap();
    assert_eq!(rel, "../../etc/passwd");
    let r = resolve_path("/srv/root", &rel, Some(("/etc/passwd", EntryKind::File)));
    assert!(r.is_none());
}

#[test]
fn rejects_nonexistent_file() {
    let rel = request_relative_path("/nonexistent.txt").unwrap();
    assert!(resolve_path("/srv/root", &rel, None).is_none());
}

#[test]
fn resolves_root_as_directory() {
    let rel = request_relative_path("/").unwrap();
    assert_eq!(rel, "");
    let r = resolve_path("/srv/root", &rel, None);
    assert_eq!(dir_of(r).as_deref(), Some("/srv/root"));
}

#[test]
fn resolves_subdirectory() {
    let rel = request_relative_path("/sub").unwrap();
    let r = resolve_path("/srv/root", &rel, Some(("/srv/root/sub", EntryKind::Directory)));
    assert_eq!(dir_of(r).as_deref(), Some("/srv/root/sub"));
}

#[test]
fn rejects_directory_traversal_for_dirs() {
    let rel = request_relative_path("/../../../etc").unwrap();
    let r = resolve_path("/srv/root", &rel, Some(("/etc", EntryKind::Directory)));
    assert!(r.is_none());
}

#[test]
fn decodes_percent_encoded_path() {
    assert_eq!(request_relative_path("/my%20file.txt").as_deref(), Some("my file.txt"));
}

#[test]
fn other_kinds_and_sibling_prefixes_are_refused() {
    let r = resolve_path("/srv/root", "fifo", Some(("/srv/root/fifo", EntryKind::Other)));
    assert!(r.is_none());
    // A sibling whose name merely starts with the root's name is outside it.
    let r = resolve_path("/srv/root", "x", Some(("/srv/root2/x", EntryKind::File)));
    assert!(r.is_none());
}

#[test]
fn starts_with_compares_whole_names() {
    assert!(starts_with_path("/srv/root/a", "/srv/root"));
    assert!(starts_with_path("/srv/root", "/srv/root"));
    assert!(starts_with_path("/srv//root/", "/srv/root"));
    assert!(!starts_with_path("/srv/root2", "/srv/root"));
    assert!(!starts_with_path("srv/root/a", "/srv/root"));
    assert!(!starts_with_path("/srv", "/srv/root"));
    assert!(starts_with_path("/anything", "/"));
}

#[test]
fn percent_decoding_rules() {
    let d = |p: &str| percent_decode(p);
    assert_eq!(d("a%41b").as_deref(), Some("aAb"));
    assert_eq!(d("%4a%4A").as_deref(), Some("JJ"));
    // A `%` without two hex digits drops itself and the two bytes after it.
    assert_eq!(d("a%zzb").as_deref(), Some("ab"));
    assert_eq!(d("a%4").as_deref(), Some("a"));
    assert_eq!(d("%").as_deref(), Some(""));
    // Decoded bytes are read as UTF-8.
    assert_eq!(d("/%C3%A9.md").as_deref(), Some("/é.md"));
    assert_eq!(d("é").as_deref(), Some("é"));
    assert_eq!(d("%C3é").as_deref(), None);
    assert_eq!(d("%FF").as_deref(), None);
    assert_eq!(d("%C3").as_deref(), None);
    assert_eq!(d("plain/path.md").as_deref(), Some("plain/path.md"));
}

#[test]
fn invalid_utf8_requests_are_not_found() {
    assert!(request_relative_path("/%FF.md").is_none());
    let rel = request_relative_path("/%C3%A9.md").unwrap();
    assert_eq!(rel, "é.md");
    let r = resolve_path("/srv/root", &rel, Some(("/srv/root/é.md", EntryKind::File)));
    assert_eq!(file_of(r).as_deref(), Some("/srv/root/é.md"));
}

#[test]
fn leading_slashes_are_all_removed() {
    assert_eq!(request_relative_path("///a//b").as_deref(), Some("a//b"));
    assert_eq!(request_relative_path("%2F%2Fx").as_deref(), Some("x"));
}

#[test]
fn paths_without_percent_decode_to_themselves() {
    for p in ["/docs/readme.md", "/a b/c-d_e.txt", "", "/?x=1&y=2", "/é/日本.md"] {
        assert_eq!(percent_decode(p).as_deref(), Some(p));
    }
}
