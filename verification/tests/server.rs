use greymd::http::{HttpRequest, HttpResponse};
use greymd::listing::DirectoryEntry;
use greymd::server::{
    builtin_asset, custom_asset, file_extension, serve_file, AssetFile,
    is_markdown_extension, markdown_response, raw_file_response, route, serve_directory, Route,
};

fn req(line: &str) -> HttpRequest {
    HttpRequest::parse(line).unwrap()
}

fn text_of(resp: &HttpResponse) -> String {
    String::from_utf8(resp.to_bytes()).unwrap()
}

fn entry(name: &str, is_dir: bool) -> DirectoryEntry {
    DirectoryEntry { name: name.to_string(), is_dir }
}

#[test]
fn returns_405_for_post() {
    assert!(route(&req("POST /hello.txt HTTP/1.1")) == Route::MethodNotAllowed);
    assert!(text_of(&HttpResponse::method_not_allowed()).starts_with("HTTP/1.1 405 Method Not Allowed"));
}

#[test]
fn returns_405_for_put() {
    assert!(route(&req("PUT /hello.txt HTTP/1.1")) == Route::MethodNotAllowed);
}

#[test]
fn returns_405_for_delete() {
    assert!(route(&req("DELETE /hello.txt HTTP/1.1")) == Route::MethodNotAllowed);
}

#[test]
fn queries_select_assets() {
    assert!(route(&req("GET /?css HTTP/1.1")) == Route::BuiltinCss);
    assert!(route(&req("GET /?css2 HTTP/1.1")) == Route::CustomCss);
    assert!(route(&req("GET /?js HTTP/1.1")) == Route::Script);
    assert!(route(&req("GET /hello.txt HTTP/1.1")) == Route::Path);
    // The method is compared exactly.
    assert!(route(&req("get /hello.txt HTTP/1.1")) == Route::MethodNotAllowed);
    assert!(route(&req("POST /?css HTTP/1.1")) == Route::MethodNotAllowed);
}

#[test]
fn unknown_query_returns_404() {
    assert!(route(&req("GET /?unknown HTTP/1.1")) == Route::NotFound);
    assert!(route(&req("GET /? HTTP/1.1")) == Route::NotFound);
    assert!(route(&req("GET /doc.md?css HTTP/1.1")) == Route::BuiltinCss);
}

#[test]
fn root_listing_shows_md_files_and_dirs() {
    let entries = vec![entry("docs", true), entry("readme.md", false)];
    let text = text_of(&serve_directory("/", &entries, false, false));
    assert!(text.contains("HTTP/1.1 302 Found"));
    assert!(text.contains("Location: /readme.md"));
}

#[test]
fn root_listing_falls_back_when_multiple_md_no_index() {
    let entries = vec![entry("sub", true), entry("a.md", false), entry("b.md", false)];
    let text = text_of(&serve_directory("/", &entries, false, false));
    assert!(text.contains("HTTP/1.1 200 OK"));
    assert!(text.contains("Index of /"));
    assert!(text.contains("a.md"));
    assert!(text.contains("b.md"));
    assert!(text.contains("sub/"));
}

#[test]
fn root_auto_serves_index_md() {
    let entries = vec![entry("index.md", false), entry("other.md", false)];
    let text = text_of(&serve_directory("/", &entries, false, false));
    assert!(text.contains("HTTP/1.1 302 Found"));
    assert!(text.contains("Location: /index.md"));
}

#[test]
fn subdir_listing_shows_parent_link() {
    let entries = vec![entry("a.md", false), entry("b.md", false)];
    let text = text_of(&serve_directory("/docs/", &entries, true, false));
    assert!(text.contains("HTTP/1.1 200 OK"));
    assert!(text.contains(".."));
}

#[test]
fn subdir_auto_serves_single_md() {
    let entries = vec![entry("only.md", false)];
    let text = text_of(&serve_directory("/docs/", &entries, true, false));
    assert!(text.contains("HTTP/1.1 302 Found"));
    assert!(text.contains("Location: /docs/only.md"));
    let text = text_of(&serve_directory("/docs", &entries, true, false));
    assert!(text.contains("Location: /docs/only.md"));
}

#[test]
fn directories_do_not_count_as_markdown() {
    let entries = vec![entry("notes.md", true), entry("x", true)];
    let text = text_of(&serve_directory("/", &entries, false, false));
    assert!(text.contains("HTTP/1.1 200 OK"));
    assert!(text.contains("notes.md/"));
}

#[test]
fn empty_dir_shows_listing() {
    let entries: Vec<DirectoryEntry> = vec![];
    let text = text_of(&serve_directory("/", &entries, false, false));
    assert!(text.contains("HTTP/1.1 200 OK"));
    assert!(text.contains("Index of /"));
}

#[test]
fn directory_listing_has_link_tag() {
    let entries = vec![entry("a.md", false), entry("b.md", false)];
    let text = text_of(&serve_directory("/", &entries, false, false));
    assert!(text.contains("<link"));
    assert!(text.contains("/?css"));
    assert!(text.contains("name=\"viewport\""));
    assert!(!text.contains("<style>"));
}

#[test]
fn serves_markdown_as_html() {
    let text = text_of(&markdown_response("# Hello\n\nWorld", "doc.md", false));
    assert!(text.contains("HTTP/1.1 200 OK"));
    assert!(text.contains("Content-Type: text/html"));
    assert!(text.contains("<!DOCTYPE html>"));
    assert!(text.contains("id=\"hello\""));
    assert!(text.contains("<p>World</p>"));
}

#[test]
fn markdown_page_has_link_tag() {
    let text = text_of(&markdown_response("# Test", "doc.md", false));
    assert!(text.contains("<link"));
    assert!(text.contains("/?css"));
    assert!(text.contains("name=\"viewport\""));
    assert!(!text.contains("/?css2"));
    let text = text_of(&markdown_response("# Test", "doc.md", true));
    assert!(text.contains("/?css2"));
}

#[test]
fn markdown_page_includes_highlight_script() {
    let text = text_of(&markdown_response("# Test\n\n```rust\nfn main() {}\n```", "doc.md", false));
    assert!(text.contains("/?js"));
    assert!(text.contains("hljs.highlightAll()"));
}

#[test]
fn math_content_passthrough_without_feature() {
    let text = text_of(&markdown_response("Inline $x^2$ and display:\n\n$$\\sum x$$\n", "math.md", false));
    assert!(text.contains("200 OK"));
    assert!(text.contains("$x^2$"));
    assert!(text.contains("$$\\sum x$$"));
    assert!(!text.contains("<math"));
}

#[test]
fn html_files_served_raw_not_wrapped() {
    let text = text_of(&raw_file_response("html", b"<h1>Page</h1>".to_vec()));
    assert!(text.contains("HTTP/1.1 200 OK"));
    assert!(text.contains("Content-Type: text/html"));
    assert!(text.ends_with("\r\n\r\n<h1>Page</h1>"));
    assert!(!text.contains("<!DOCTYPE html>"));
}

#[test]
fn txt_files_served_raw() {
    let text = text_of(&raw_file_response("txt", b"hello world".to_vec()));
    assert!(text.contains("Content-Type: text/plain"));
    assert!(text.ends_with("hello world"));
    assert!(!text.contains("<!DOCTYPE html>"));
}

#[test]
fn markdown_extension_ignores_ascii_case() {
    assert!(is_markdown_extension("md"));
    assert!(is_markdown_extension("MD"));
    assert!(is_markdown_extension("mD"));
    assert!(!is_markdown_extension("markdown"));
    assert!(!is_markdown_extension(""));
}

#[test]
fn serve_file_chooses_by_extension() {
    let t = text_of(&serve_file("doc.MD", Some(b"# Hello\n\nWorld".to_vec()), false).unwrap());
    assert!(t.contains("Content-Type: text/html"));
    assert!(t.contains("<title>Hello</title>"));
    assert!(t.contains("<p>World</p>"));
    let t = text_of(&serve_file("page.html", Some(b"<h1>Page</h1>".to_vec()), false).unwrap());
    assert!(t.ends_with("\r\n\r\n<h1>Page</h1>"));
    assert!(!t.contains("<!DOCTYPE html>"));
    let t = text_of(&serve_file("notes", Some(b"x".to_vec()), false).unwrap());
    assert!(t.contains("Content-Type: application/octet-stream"));
    assert_eq!(serve_file("a.md", None, false).unwrap().status_code, 404);
    assert_eq!(serve_file("a.txt", None, false).unwrap().status_code, 404);
    // Markdown that is not UTF-8 text is not found; other files are sent as they are.
    assert_eq!(serve_file("a.md", Some(vec![0xff]), false).unwrap().status_code, 404);
    assert_eq!(serve_file("a.bin", Some(vec![0xff]), false).unwrap().body, vec![0xff]);
    // The title falls back to the file name.
    let t = text_of(&serve_file("notes.md", Some(b"text".to_vec()), false).unwrap());
    assert!(t.contains("<title>notes</title>"));
    assert!(serve_file("deep.md", Some("#".repeat(300).into_bytes()), false).is_none());
}

#[test]
fn file_extensions() {
    assert_eq!(file_extension("a.b.md"), "md");
    assert_eq!(file_extension(".hidden"), "");
    assert_eq!(file_extension(".hidden.md"), "md");
    assert_eq!(file_extension("noext"), "");
    assert_eq!(file_extension("trailing."), "");
    assert_eq!(file_extension(".."), "");
}

#[test]
fn asset_files_per_route() {
    assert!(custom_asset(Route::CustomCss) == Some(AssetFile::Stylesheet));
    assert!(custom_asset(Route::Script) == Some(AssetFile::Script));
    assert!(custom_asset(Route::BuiltinCss).is_none());
    assert!(custom_asset(Route::Path).is_none());
    assert!(builtin_asset(Route::Script) == AssetFile::Script);
    assert!(builtin_asset(Route::BuiltinCss) == AssetFile::Stylesheet);
}
