use greymd::browser::{open_command, Platform};
use greymd::cli::parse_args;

fn args(words: &[&str]) -> Vec<String> {
    words.iter().map(|w| w.to_string()).collect()
}

#[test]
fn flags_are_found_anywhere() {
    let a = parse_args(&args(&["greymd", "docs", "-V"]));
    assert!(a.version);
    assert!(!a.help);
    let a = parse_args(&args(&["greymd", "--help"]));
    assert!(a.help);
    let a = parse_args(&args(&["greymd", "--list-themes"]));
    assert!(a.list_themes);
    assert!(a.positional.is_empty());
}

#[test]
fn theme_and_positional_words() {
    let a = parse_args(&args(&["greymd", "--theme", "mocha", "site"]));
    assert_eq!(a.theme.as_deref(), Some("mocha"));
    assert_eq!(a.positional, vec!["site".to_string()]);
    let a = parse_args(&args(&["greymd", "site", "--theme"]));
    assert!(a.theme.is_none());
    assert_eq!(a.positional, vec!["site".to_string()]);
    let a = parse_args(&args(&["greymd", "--theme", "a", "--theme", "b", "x", "--list-themes", "y"]));
    assert_eq!(a.theme.as_deref(), Some("a"));
    assert_eq!(a.positional, vec!["x".to_string(), "y".to_string()]);
}

#[test]
fn no_arguments() {
    let a = parse_args(&args(&["greymd"]));
    assert!(!a.version && !a.help && !a.list_themes);
    assert!(a.theme.is_none());
    assert!(a.positional.is_empty());
}

#[test]
fn open_commands_per_platform() {
    let (p, a) = open_command(Platform::MacOs, "http://127.0.0.1:8080");
    assert_eq!(p, "open");
    assert_eq!(a, vec!["http://127.0.0.1:8080".to_string()]);
    let (p, a) = open_command(Platform::Windows, "http://x");
    assert_eq!(p, "cmd");
    assert_eq!(a, args(&["/c", "start", "", "http://x"]));
    let (p, a) = open_command(Platform::Other, "");
    assert_eq!(p, "xdg-open");
    assert_eq!(a, vec![String::new()]);
}
