use greymd::listing::{collect_entries, parent_url, render_listing, DirectoryEntry};
use greymd::path::EntryKind;

fn raw(items: &[(&str, EntryKind)]) -> Vec<(String, EntryKind)> {
    items.iter().map(|(n, k)| (n.to_string(), *k)).collect()
}

fn names(entries: &[DirectoryEntry]) -> Vec<&str> {
    entries.iter().map(|e| e.name.as_str()).collect()
}

#[test]
fn collect_entries_only_md_and_dirs() {
    let entries = collect_entries(raw(&[
        ("readme.md", EntryKind::File),
        ("notes.txt", EntryKind::File),
        ("data.json", EntryKind::File),
        ("sub", EntryKind::Directory),
    ]));
    assert_eq!(names(&entries), vec!["sub", "readme.md"]);
}

#[test]
fn collect_entries_sorted_dirs_first_alpha() {
    let entries = collect_entries(raw(&[
        ("zebra", EntryKind::Directory),
        ("alpha", EntryKind::Directory),
        ("beta.md", EntryKind::File),
        ("Alpha.md", EntryKind::File),
    ]));
    assert_eq!(names(&entries), vec!["alpha", "zebra", "Alpha.md", "beta.md"]);
}

#[test]
fn collect_entries_empty_dir() {
    let entries = collect_entries(Vec::new());
    assert!(entries.is_empty());
}

#[test]
fn collect_entries_skips_other_kinds_and_keeps_read_order_on_ties() {
    let entries = collect_entries(raw(&[
        ("link.md", EntryKind::Other),
        ("B.md", EntryKind::File),
        ("b.md", EntryKind::File),
        ("dir.md", EntryKind::Directory),
        ("a.MD", EntryKind::File),
        ("x.markdown", EntryKind::File),
    ]));
    assert_eq!(names(&entries), vec!["dir.md", "B.md", "b.md"]);
    assert!(entries[0].is_dir);
    assert!(!entries[1].is_dir);
}

#[test]
fn render_listing_basic() {
    let entries = vec![
        DirectoryEntry { name: "docs".into(), is_dir: true },
        DirectoryEntry { name: "readme.md".into(), is_dir: false },
    ];
    let html = render_listing("/", &entries, false, false);
    assert!(html.contains("<h1>Index of /</h1>"));
    assert!(html.contains("<a href=\"/docs/\">📁 docs/</a>"));
    assert!(html.contains("<a href=\"/readme.md\">📄 readme.md</a>"));
    assert!(!html.contains(".."));
}

#[test]
fn render_listing_with_parent() {
    let entries = vec![];
    let html = render_listing("/sub/dir/", &entries, true, false);
    assert!(html.contains("<a href=\"/sub/\">📁 ..</a>"));
}

#[test]
fn render_listing_no_parent_at_root() {
    let entries = vec![];
    let html = render_listing("/", &entries, false, false);
    assert!(!html.contains(".."));
}

#[test]
fn render_listing_escapes_names() {
    let entries = vec![DirectoryEntry { name: "a<b>.md".into(), is_dir: false }];
    let html = render_listing("/", &entries, false, false);
    assert!(html.contains("a&lt;b&gt;.md"));
}

#[test]
fn parent_url_from_subdir() {
    assert_eq!(parent_url("/sub/dir/"), "/sub/");
    assert_eq!(parent_url("/sub/dir"), "/sub/");
    assert_eq!(parent_url("/sub/"), "/");
    assert_eq!(parent_url("/sub"), "/");
}

#[test]
fn parent_url_from_root() {
    assert_eq!(parent_url("/"), "/");
}

#[test]
fn parent_url_edge_cases() {
    assert_eq!(parent_url(""), "/");
    assert_eq!(parent_url("///"), "/");
    assert_eq!(parent_url("/a/b/c//"), "/a/b/");
    assert_eq!(parent_url("noslash"), "/");
}

#[test]
fn render_listing_exact_body() {
    let entries = vec![
        DirectoryEntry { name: "d".into(), is_dir: true },
        DirectoryEntry { name: "f.md".into(), is_dir: false },
    ];
    let html = render_listing("/x/", &entries, true, true);
    let body = "<h1>Index of /x/</h1>\n<a href=\"/\">📁 ..</a><br>\n\
<a href=\"/x/d/\">📁 d/</a><br>\n<a href=\"/x/f.md\">📄 f.md</a><br>\n\n";
    let start = html.find("<div class=\"content\">").unwrap() + "<div class=\"content\">".len();
    let end = html.find("</div>\n<script").unwrap();
    assert_eq!(&html[start..end], body);
    assert!(html.contains("<title>Index of /x/</title>"));
    assert!(html.contains("<link rel=\"stylesheet\" href=\"/?css2\">"));
}

#[test]
fn render_listing_escapes_url_in_title_and_links() {
    let entries = vec![DirectoryEntry { name: "q\"&.md".into(), is_dir: false }];
    let html = render_listing("/a&b/", &entries, false, false);
    assert!(html.contains("<h1>Index of /a&amp;b/</h1>"));
    assert!(html.contains("<title>Index of /a&amp;b/</title>"));
    assert!(html.contains("<a href=\"/a&amp;b/q&quot;&amp;.md\">📄 q&quot;&amp;.md</a>"));
}

#[test]
fn parent_link_only_when_asked() {
    let entries = vec![
        DirectoryEntry { name: "..".to_string(), is_dir: true },
        DirectoryEntry { name: "..".to_string(), is_dir: false },
    ];
    let without = render_listing("/sub/dir/", &entries, false, false);
    assert!(!without.contains("\u{1F4C1} ..</a>"), "{}", without);
    let with = render_listing("/sub/dir/", &entries, true, false);
    assert!(with.contains("<a href=\"/sub/\">\u{1F4C1} ..</a>"), "{}", with);
    assert_eq!(with.matches("\u{1F4C1} ..</a>").count(), 1);
}
