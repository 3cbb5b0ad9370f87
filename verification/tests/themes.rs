use greymd::cli::usage_text;
use greymd::path::EntryKind;
use greymd::server::{asset_response, config_dir, Route};
use greymd::themes::{
    join, pick_asset_path, resolve_theme_dir_in, theme_dir_candidate, theme_names, themes_report,
};

#[test]
fn pick_asset_path_no_theme_uses_config() {
    let config = "/tmp/greymd-config";
    let result = pick_asset_path(None, false, Some(config), "js");
    assert_eq!(result, "/tmp/greymd-config/js");
}

#[test]
fn resolve_theme_dir_in_missing_theme_returns_none() {
    let result = resolve_theme_dir_in("/tmp/greymd-prefix", "nonexistent", false);
    assert!(result.is_none());
}

#[test]
fn pick_asset_path_empty_theme_dir() {
    let td = Some("/tmp/greymd-theme");
    let css = pick_asset_path(td, false, None, "css");
    let js = pick_asset_path(td, false, None, "js");
    assert_eq!(css, "");
    assert_eq!(js, "");
}

#[test]
fn pick_asset_path_prefers_theme_dir() {
    let result = pick_asset_path(Some("/t"), true, Some("/c"), "css");
    assert_eq!(result, "/t/css");
}

#[test]
fn pick_asset_path_falls_back_to_config() {
    let result = pick_asset_path(Some("/t"), false, Some("/c"), "css");
    assert_eq!(result, "/c/css");
}

#[test]
fn pick_asset_path_theme_css_config_js() {
    // The theme holds `css` but not `js`.
    let css = pick_asset_path(Some("/t"), true, Some("/c"), "css");
    let js = pick_asset_path(Some("/t"), false, Some("/c"), "js");
    assert_eq!(css, "/t/css");
    assert_eq!(js, "/c/js");
}

#[test]
fn resolve_theme_dir_in_found_returns_path() {
    let result = resolve_theme_dir_in("/usr/local", "mocha", true);
    assert_eq!(result.as_deref(), Some("/usr/local/share/greymd/themes/mocha"));
}

#[test]
fn theme_dir_candidate_layout() {
    assert_eq!(theme_dir_candidate("/opt/", "latte"), "/opt/share/greymd/themes/latte");
    assert_eq!(theme_dir_candidate("", "x"), "share/greymd/themes/x");
    assert_eq!(theme_dir_candidate("/p", "/abs"), "/abs");
}

#[test]
fn join_follows_path_rules() {
    assert_eq!(join("/a", "b"), "/a/b");
    assert_eq!(join("/a/", "b"), "/a/b");
    assert_eq!(join("", "b"), "b");
    assert_eq!(join("/a", "/b"), "/b");
    assert_eq!(join("/a", ""), "/a/");
}

#[test]
fn collect_themes_returns_sorted_names() {
    let raw = vec![
        ("zulu".to_string(), EntryKind::Directory),
        ("alpha".to_string(), EntryKind::Directory),
        ("mocha".to_string(), EntryKind::Directory),
        ("not-a-theme".to_string(), EntryKind::File),
    ];
    assert_eq!(theme_names(raw), vec!["alpha", "mocha", "zulu"]);
}

#[test]
fn collect_themes_missing_dir_returns_empty() {
    assert!(theme_names(Vec::new()).is_empty());
}

#[test]
fn theme_names_sort_by_bytes() {
    let raw = vec![
        ("b".to_string(), EntryKind::Directory),
        ("B".to_string(), EntryKind::Directory),
        ("a".to_string(), EntryKind::Directory),
        ("a".to_string(), EntryKind::Directory),
        ("é".to_string(), EntryKind::Directory),
        ("ab".to_string(), EntryKind::Directory),
    ];
    assert_eq!(theme_names(raw), vec!["B", "a", "a", "ab", "b", "é"]);
}

#[test]
fn themes_report_texts() {
    let (to_stdout, text) = themes_report(&Vec::new(), "/x/themes");
    assert!(!to_stdout);
    assert_eq!(text, "No themes found at /x/themes\n");
    let names = vec!["alpha".to_string(), "mocha".to_string()];
    let (to_stdout, text) = themes_report(&names, "/x/themes");
    assert!(to_stdout);
    assert_eq!(
        text,
        "Available themes:\n  alpha\n  mocha\n\nUsage: greymd --theme <name> [directory]\n"
    );
}

#[test]
fn config_dir_path_structure() {
    assert_eq!(config_dir(Some("/home/u")).as_deref(), Some("/home/u/.config/greymd"));
    assert_eq!(config_dir(Some("/home/u/")).as_deref(), Some("/home/u/.config/greymd"));
    assert!(config_dir(None).is_none());
}

#[test]
fn usage_starts_with_version() {
    let text = usage_text("1.2.3");
    assert!(text.starts_with("greymd 1.2.3\n\nUsage: greymd [options] [directory]\n"));
    assert!(text.contains("  --list-themes          List available themes\n"));
    assert!(text.ends_with("CSS and JS are re-read on every request.\n"));
}

#[test]
fn asset_responses() {
    let gz = vec![0x1f, 0x8b, 0x08];
    let r = asset_response(Route::BuiltinCss, None, gz.clone()).unwrap();
    let t = String::from_utf8_lossy(&r.to_bytes()).to_string();
    assert!(t.contains("Content-Type: text/css\r\n"));
    assert!(t.contains("Content-Encoding: gzip\r\n"));
    assert!(r.to_bytes().ends_with(&gz));

    let r = asset_response(Route::CustomCss, Some(b"body { color: red; }".to_vec()), gz.clone()).unwrap();
    let t = String::from_utf8(r.to_bytes()).unwrap();
    assert!(t.contains("200 OK") && t.contains("text/css") && t.contains("body { color: red; }"));
    assert!(!t.contains("Content-Encoding: gzip"));

    let r = asset_response(Route::CustomCss, None, gz.clone()).unwrap();
    assert_eq!(r.status_code, 404);

    let r = asset_response(Route::Script, Some(b"console.log('custom');".to_vec()), gz.clone()).unwrap();
    let t = String::from_utf8(r.to_bytes()).unwrap();
    assert!(t.contains("application/javascript") && t.contains("console.log('custom');"));
    assert!(!t.contains("Content-Encoding: gzip"));

    let r = asset_response(Route::Script, None, gz.clone()).unwrap();
    let t = String::from_utf8_lossy(&r.to_bytes()).to_string();
    assert!(t.contains("200 OK") && t.contains("Content-Encoding: gzip"));

    assert_eq!(asset_response(Route::NotFound, None, gz.clone()).unwrap().status_code, 404);
    assert_eq!(asset_response(Route::MethodNotAllowed, None, gz.clone()).unwrap().status_code, 405);
    assert!(asset_response(Route::Path, None, gz).is_none());
}
