//! Content types of served files, by file extension.
use vstd::prelude::*;
use crate::text::{ascii_lower, chars_of, to_lower, equals_str};

verus! {

/// The content type for a lower-cased extension.
pub open spec fn mime_for(e: Seq<char>) -> Seq<char> {
    if e == "html"@ || e == "htm"@ {
        "text/html"@
    } else if e == "css"@ {
        "text/css"@
    } else if e == "js"@ {
        "application/javascript"@
    } else if e == "json"@ {
        "application/json"@
    } else if e == "txt"@ {
        "text/plain"@
    } else if e == "xml"@ {
        "application/xml"@
    } else if e == "pdf"@ {
        "application/pdf"@
    } else if e == "png"@ {
        "image/png"@
    } else if e == "jpg"@ || e == "jpeg"@ {
        "image/jpeg"@
    } else if e == "gif"@ {
        "image/gif"@
    } else if e == "svg"@ {
        "image/svg+xml"@
    } else if e == "ico"@ {
        "image/x-icon"@
    } else if e == "wasm"@ {
        "application/wasm"@
    } else {
        "application/octet-stream"@
    }
}

/// The content type for a file extension, compared without regard to ASCII case.
pub fn content_type_for(ext: &str) -> (r: &'static str)
    ensures
        r@ == mime_for(ascii_lower(ext@)),
{
    let e = to_lower(&chars_of(ext));
    if equals_str(&e, "html") || equals_str(&e, "htm") {
        "text/html"
    } else if equals_str(&e, "css") {
        "text/css"
    } else if equals_str(&e, "js") {
        "application/javascript"
    } else if equals_str(&e, "json") {
        "application/json"
    } else if equals_str(&e, "txt") {
        "text/plain"
    } else if equals_str(&e, "xml") {
        "application/xml"
    } else if equals_str(&e, "pdf") {
        "application/pdf"
    } else if equals_str(&e, "png") {
        "image/png"
    } else if equals_str(&e, "jpg") || equals_str(&e, "jpeg") {
        "image/jpeg"
    } else if equals_str(&e, "gif") {
        "image/gif"
    } else if equals_str(&e, "svg") {
        "image/svg+xml"
    } else if equals_str(&e, "ico") {
        "image/x-icon"
    } else if equals_str(&e, "wasm") {
        "application/wasm"
    } else {
        "application/octet-stream"
    }
}

/// The content type of an extension is that of its lower-cased form:
/// `content_type_for(e) == content_type_for(e.to_ascii_lowercase())`.
pub proof fn lemma_content_type_ignores_case(e: Seq<char>)
    ensures
        mime_for(ascii_lower(ascii_lower(e))) == mime_for(ascii_lower(e)),
{
    assert(ascii_lower(ascii_lower(e)) =~= ascii_lower(e));
}

} // verus!
