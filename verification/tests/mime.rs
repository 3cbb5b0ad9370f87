use greymd::mime::content_type_for;

#[test]
fn unknown_extension_defaults_to_octet_stream() {
    assert_eq!(content_type_for("xyz"), "application/octet-stream");
    assert_eq!(content_type_for(""), "application/octet-stream");
}

#[test]
fn case_insensitive() {
    assert_eq!(content_type_for("HTML"), "text/html");
    assert_eq!(content_type_for("Json"), "application/json");
    assert_eq!(content_type_for("PNG"), "image/png");
}

#[test]
fn every_known_extension() {
    let table = [
        ("html", "text/html"),
        ("htm", "text/html"),
        ("css", "text/css"),
        ("js", "application/javascript"),
        ("json", "application/json"),
        ("txt", "text/plain"),
        ("xml", "application/xml"),
        ("pdf", "application/pdf"),
        ("png", "image/png"),
        ("jpg", "image/jpeg"),
        ("jpeg", "image/jpeg"),
        ("gif", "image/gif"),
        ("svg", "image/svg+xml"),
        ("ico", "image/x-icon"),
        ("wasm", "application/wasm"),
    ];
    for (ext, mime) in table {
        assert_eq!(content_type_for(ext), mime);
        assert_eq!(content_type_for(&ext.to_uppercase()), mime);
    }
}

#[test]
fn near_misses_are_octet_stream() {
    assert_eq!(content_type_for("md"), "application/octet-stream");
    assert_eq!(content_type_for(".html"), "application/octet-stream");
    assert_eq!(content_type_for("html "), "application/octet-stream");
    assert_eq!(content_type_for("jpe"), "application/octet-stream");
    // Only ASCII letters are folded.
    assert_eq!(content_type_for("HTMℓ"), "application/octet-stream");
}
