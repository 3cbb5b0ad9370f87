//! The command line: flags, the theme name, and the served directory.
use vstd::prelude::*;
use crate::text::{chars_of, equals_str, string_of, push_str, push_all};

verus! {

/// What the command line asks for.
pub struct CliArgs {
    /// `--version` or `-V` is present.
    pub version: bool,
    /// `--help` or `-h` is present.
    pub help: bool,
    /// `--list-themes` is present.
    pub list_themes: bool,
    /// The word after the first `--theme`.
    pub theme: Option<String>,
    /// The other words after the program name.
    pub positional: Vec<String>,
}

pub open spec fn arg_views(args: Seq<String>) -> Seq<Seq<char>> {
    args.map_values(|a: String| a@)
}

/// The word after the first `--theme` that has one after it.
pub open spec fn theme_from(args: Seq<Seq<char>>, k: int) -> Option<Seq<char>>
    decreases args.len() - k,
{
    if k < 0 || k + 1 >= args.len() {
        None
    } else if args[k] == "--theme"@ {
        Some(args[k + 1])
    } else {
        theme_from(args, k + 1)
    }
}

/// The words from `k` on that are neither `--theme` with its value nor
/// `--list-themes`.
pub open spec fn positional_from(args: Seq<Seq<char>>, k: int, skip_next: bool) -> Seq<Seq<char>>
    decreases args.len() - k,
{
    if k < 0 || k >= args.len() {
        seq![]
    } else if skip_next {
        positional_from(args, k + 1, false)
    } else if args[k] == "--theme"@ {
        positional_from(args, k + 1, true)
    } else if args[k] == "--list-themes"@ {
        positional_from(args, k + 1, false)
    } else {
        seq![args[k]] + positional_from(args, k + 1, false)
    }
}

fn find_arg(args: &Vec<String>, a: &str) -> (r: bool)
    ensures
        r == arg_views(args@).contains(a@),
{
    let mut k: usize = 0;
    while k < args.len()
        invariant
            k <= args.len(),
            forall|j: int| 0 <= j < k ==> arg_views(args@)[j] != a@,
        decreases args.len() - k,
    {
        if equals_str(&chars_of(args[k].as_str()), a) {
            assert(arg_views(args@)[k as int] == a@);
            return true;
        }
        k = k + 1;
    }
    false
}

fn theme_exec(args: &Vec<String>) -> (r: Option<String>)
    ensures
        crate::http::opt_view(r) == theme_from(arg_views(args@), 0),
{
    let ghost av = arg_views(args@);
    let mut k: usize = 0;
    while k < args.len() && args.len() - k > 1
        invariant
            k <= args.len(),
            av == arg_views(args@),
            theme_from(av, 0) == theme_from(av, k as int),
        decreases args.len() - k,
    {
        assert(av[k as int] == args@[k as int]@);
        if equals_str(&chars_of(args[k].as_str()), "--theme") {
            assert(av[k + 1] == args@[k + 1]@);
            return Some(args[k + 1].clone());
        }
        k = k + 1;
    }
    None
}

/// Reads the command line; `args[0]` is the program name.
pub fn parse_args(args: &Vec<String>) -> (r: CliArgs)
    requires
        args.len() >= 1,
    ensures
        r.version == (arg_views(args@).contains("--version"@) || arg_views(args@).contains("-V"@)),
        r.help == (arg_views(args@).contains("--help"@) || arg_views(args@).contains("-h"@)),
        r.list_themes == arg_views(args@).contains("--list-themes"@),
        crate::http::opt_view(r.theme) == theme_from(arg_views(args@), 0),
        arg_views(r.positional@) == positional_from(arg_views(args@), 1, false),
{
    let ghost av = arg_views(args@);
    let version = find_arg(args, "--version") || find_arg(args, "-V");
    let help = find_arg(args, "--help") || find_arg(args, "-h");
    let list_themes = find_arg(args, "--list-themes");
    let theme = theme_exec(args);
    let mut positional: Vec<String> = Vec::new();
    let mut skip_next = false;
    let mut j: usize = 1;
    while j < args.len()
        invariant
            1 <= j <= args.len(),
            av == arg_views(args@),
            arg_views(positional@) + positional_from(av, j as int, skip_next) == positional_from(av, 1, false),
        decreases args.len() - j,
    {
        let ghost before = arg_views(positional@);
        assert(av[j as int] == args@[j as int]@);
        if skip_next {
            skip_next = false;
        } else if equals_str(&chars_of(args[j].as_str()), "--theme") {
            skip_next = true;
        } else if equals_str(&chars_of(args[j].as_str()), "--list-themes") {
        } else {
            let a = args[j].clone();
            positional.push(a);
            assert(arg_views(positional@) =~= before.push(av[j as int]));
            assert(before.push(av[j as int]) + positional_from(av, j + 1, false) =~= before + (seq![av[j as int]] + positional_from(av, j + 1, false)));
        }
        j = j + 1;
    }
    assert(arg_views(positional@) + Seq::<Seq<char>>::empty() =~= arg_views(positional@));
    CliArgs { version, help, list_themes, theme, positional }
}

/// The help text after its first line (`greymd <version>`).
pub const USAGE_TAIL: &'static str = "\n\nUsage: greymd [options] [directory]\n\nServe files from a directory over HTTP on localhost.\n\nArguments:\n  directory              Path to serve (defaults to current directory)\n\nOptions:\n  --theme <name>         Use a bundled theme (warns and falls back to\n                         default if theme not found)\n  --list-themes          List available themes\n  -V, --version          Print version information\n  -h, --help             Show this help message\n\nCustomization:\n  ~/.config/greymd/css   Custom stylesheet (appended after built-in)\n  ~/.config/greymd/js    Custom JavaScript (replaces built-in highlight.js)\n\nTheme files override ~/.config/greymd/ for files they contain.\nCSS and JS are re-read on every request.\n";

/// The text that `--help` prints.
pub fn usage_text(version: &str) -> (r: String)
    ensures
        r@ == "greymd "@ + version@ + USAGE_TAIL@,
{
    let mut out: Vec<char> = Vec::new();
    push_str(&mut out, "greymd ");
    push_all(&mut out, &chars_of(version));
    push_str(&mut out, USAGE_TAIL);
    string_of(&out)
}

} // verus!
