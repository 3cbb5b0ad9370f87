//! The command that opens a URL in the user's browser.
use vstd::prelude::*;
use crate::text::{chars_of, string_of};

verus! {

/// The operating system family the program runs on.
#[derive(PartialEq, Eq, Structural, Clone, Copy)]
pub enum Platform {
    MacOs,
    Windows,
    Other,
}

pub open spec fn open_program(p: Platform) -> Seq<char> {
    match p {
        Platform::MacOs => "open"@,
        Platform::Windows => "cmd"@,
        Platform::Other => "xdg-open"@,
    }
}

pub open spec fn open_args(p: Platform, url: Seq<char>) -> Seq<Seq<char>> {
    match p {
        Platform::Windows => seq!["/c"@, "start"@, ""@, url],
        _ => seq![url],
    }
}

/// The program and arguments that open `url`: `open` on macOS,
/// `cmd /c start "" url` on Windows, `xdg-open` elsewhere.
pub fn open_command(platform: Platform, url: &str) -> (r: (&'static str, Vec<String>))
    ensures
        r.0@ == open_program(platform),
        r.1@.map_values(|a: String| a@) == open_args(platform, url@),
{
    let u = string_of(&chars_of(url));
    match platform {
        Platform::MacOs => {
            let v = vec![u];
            assert(v@.map_values(|a: String| a@) =~= open_args(platform, url@));
            ("open", v)
        },
        Platform::Windows => {
            let v = vec![
                string_of(&chars_of("/c")),
                string_of(&chars_of("start")),
                string_of(&chars_of("")),
                u,
            ];
            assert(v@.map_values(|a: String| a@) =~= open_args(platform, url@));
            ("cmd", v)
        },
        Platform::Other => {
            let v = vec![u];
            assert(v@.map_values(|a: String| a@) =~= open_args(platform, url@));
            ("xdg-open", v)
        },
    }
}

} // verus!
