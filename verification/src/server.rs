//! The decisions of the request handler: routing, directory pages and redirects,
//! and the responses for files.
use vstd::prelude::*;
use vstd::utf8::{encode_utf8, valid_utf8, decode_utf8};
use crate::text::{ascii_lower, chars_of, string_of, string_from_utf8, push_str, push_all, to_lower, equals_str, utf8_len};
use crate::http::{HttpRequest, HttpResponse, opt_view, response_view};
use crate::listing::{DirectoryEntry, entries_view, listing_title, listing_body, render_listing};
use crate::markdown::{page_html, title_of, render, heading_run_overflows};
use crate::markdown::body::{body_html, heading_overflow};
use crate::mime::{mime_for, content_type_for};
use crate::themes::{join, join_path};

verus! {

/// What a request asks for.
#[derive(PartialEq, Eq, Structural, Clone, Copy)]
pub enum Route {
    /// Any method but `GET`.
    MethodNotAllowed,
    /// `/?css`: the built-in stylesheet.
    BuiltinCss,
    /// `/?css2`: the custom stylesheet.
    CustomCss,
    /// `/?js`: the custom script, else the built-in one.
    Script,
    /// Any other query.
    NotFound,
    /// A path below the served directory.
    Path,
}

pub open spec fn route_of(method: Seq<char>, query: Option<Seq<char>>) -> Route {
    if method != "GET"@ {
        Route::MethodNotAllowed
    } else {
        match query {
            Some(q) => if q == "css"@ {
                Route::BuiltinCss
            } else if q == "css2"@ {
                Route::CustomCss
            } else if q == "js"@ {
                Route::Script
            } else {
                Route::NotFound
            },
            None => Route::Path,
        }
    }
}

/// A request whose method is not `GET` is refused, whatever its path and
/// query, with `405 Method Not Allowed`.
pub proof fn lemma_only_get_is_served(method: Seq<char>, query: Option<Seq<char>>)
    requires
        method != "GET"@,
    ensures
        route_of(method, query) == Route::MethodNotAllowed,
{
}

/// Routes a request by its method and query.
pub fn route(req: &HttpRequest) -> (r: Route)
    ensures
        r == route_of(req.method@, opt_view(req.query)),
{
    let m = chars_of(req.method.as_str());
    if !equals_str(&m, "GET") {
        return Route::MethodNotAllowed;
    }
    match &req.query {
        Some(q) => {
            let qv = chars_of(q.as_str());
            if equals_str(&qv, "css") {
                Route::BuiltinCss
            } else if equals_str(&qv, "css2") {
                Route::CustomCss
            } else if equals_str(&qv, "js") {
                Route::Script
            } else {
                Route::NotFound
            }
        },
        None => Route::Path,
    }
}

/// The names of the Markdown files among listed entries.
pub open spec fn md_names(es: Seq<(Seq<char>, bool)>) -> Seq<Seq<char>>
    decreases es.len(),
{
    if es.len() == 0 {
        seq![]
    } else if es.last().1 {
        md_names(es.drop_last())
    } else {
        md_names(es.drop_last()).push(es.last().0)
    }
}

/// `url` ending with `/`.
pub open spec fn dir_url(url: Seq<char>) -> Seq<char> {
    if url.len() > 0 && url.last() == '/' {
        url
    } else {
        url.push('/')
    }
}

/// What a directory request is answered with: the response's status,
/// redirect target, and body text.
pub open spec fn directory_answer(url: Seq<char>, es: Seq<(Seq<char>, bool)>, show_parent: bool, has_custom_css: bool) -> (u16, Option<Seq<char>>, Seq<char>) {
    let md = md_names(es);
    if md.len() == 1 {
        (302, Some(dir_url(url) + md[0]), seq![])
    } else if md.len() > 1 && md.contains("index.md"@) {
        (302, Some(dir_url(url) + "index.md"@), seq![])
    } else {
        (200, None, page_html(listing_title(url), listing_body(url, es, show_parent), has_custom_css))
    }
}

/// The name of every file among the entries is among the Markdown names.
proof fn lemma_md_names_has(es: Seq<(Seq<char>, bool)>, k: int)
    requires
        0 <= k < es.len(),
        !es[k].1,
    ensures
        md_names(es).contains(es[k].0),
    decreases es.len(),
{
    let d = es.drop_last();
    if k == es.len() - 1 {
        assert(md_names(es).last() == es[k].0);
        assert(md_names(es)[md_names(es).len() - 1] == es[k].0);
    } else {
        assert(d[k] == es[k]);
        lemma_md_names_has(d, k);
        let j = choose|j: int| 0 <= j < md_names(d).len() && md_names(d)[j] == es[k].0;
        if !es.last().1 {
            assert(md_names(es)[j] == md_names(d)[j]);
        }
    }
}

/// Two files among the entries give two Markdown names.
proof fn lemma_md_names_two(es: Seq<(Seq<char>, bool)>, i: int, j: int)
    requires
        0 <= i < j < es.len(),
        !es[i].1,
        !es[j].1,
    ensures
        md_names(es).len() >= 2,
    decreases es.len(),
{
    let d = es.drop_last();
    if j == es.len() - 1 {
        assert(d[i] == es[i]);
        lemma_md_names_has(d, i);
    } else {
        assert(d[i] == es[i] && d[j] == es[j]);
        lemma_md_names_two(d, i, j);
    }
}

/// Entries with exactly one file have its name as their only Markdown name.
proof fn lemma_md_names_one(es: Seq<(Seq<char>, bool)>, k: int)
    requires
        0 <= k < es.len(),
        !es[k].1,
        forall|m: int| 0 <= m < es.len() && m != k ==> (#[trigger] es[m]).1,
    ensures
        md_names(es) == seq![es[k].0],
    decreases es.len(),
{
    let d = es.drop_last();
    if k == es.len() - 1 {
        assert(forall|m: int| 0 <= m < d.len() ==> (#[trigger] d[m]).1 == es[m].1);
        lemma_md_names_none(d);
        assert(md_names(es) =~= seq![es[k].0]);
    } else {
        assert forall|m: int| 0 <= m < d.len() && m != k implies (#[trigger] d[m]).1 by {
            assert(d[m] == es[m]);
        }
        assert(d[k] == es[k]);
        lemma_md_names_one(d, k);
        assert(es.last() == es[es.len() - 1]);
    }
}

/// Entries without files have no Markdown names.
proof fn lemma_md_names_none(es: Seq<(Seq<char>, bool)>)
    requires
        forall|m: int| 0 <= m < es.len() ==> (#[trigger] es[m]).1,
    ensures
        md_names(es).len() == 0,
    decreases es.len(),
{
    if es.len() > 0 {
        let d = es.drop_last();
        assert forall|m: int| 0 <= m < d.len() implies (#[trigger] d[m]).1 by {
            assert(d[m] == es[m]);
        }
        lemma_md_names_none(d);
        assert(es.last() == es[es.len() - 1]);
    }
}

/// A directory with two or more Markdown files, one of them `index.md`,
/// wherever it stands among the entries, answers with a redirect to its
/// `index.md`.
pub proof fn lemma_directory_redirects_to_index(
    url: Seq<char>,
    es: Seq<(Seq<char>, bool)>,
    show_parent: bool,
    has_custom_css: bool,
    i: int,
    j: int,
    k: int,
)
    requires
        0 <= i < j < es.len(),
        !es[i].1,
        !es[j].1,
        0 <= k < es.len(),
        !es[k].1,
        es[k].0 == "index.md"@,
    ensures
        directory_answer(url, es, show_parent, has_custom_css) == (302u16, Some(dir_url(url) + "index.md"@), Seq::<
            char,
        >::empty()),
{
    lemma_md_names_two(es, i, j);
    lemma_md_names_has(es, k);
}

/// A directory whose only file is `es[k]` answers with a redirect to it.
pub proof fn lemma_directory_redirects_to_only_file(
    url: Seq<char>,
    es: Seq<(Seq<char>, bool)>,
    show_parent: bool,
    has_custom_css: bool,
    k: int,
)
    requires
        0 <= k < es.len(),
        !es[k].1,
        forall|m: int| 0 <= m < es.len() && m != k ==> (#[trigger] es[m]).1,
    ensures
        directory_answer(url, es, show_parent, has_custom_css) == (302u16, Some(dir_url(url) + es[k].0), Seq::<
            char,
        >::empty()),
{
    lemma_md_names_one(es, k);
}

/// A directory without files, or with several of which none is `index.md`,
/// answers with its listing page.
pub proof fn lemma_directory_lists(
    url: Seq<char>,
    es: Seq<(Seq<char>, bool)>,
    show_parent: bool,
    has_custom_css: bool,
)
    requires
        (forall|m: int| 0 <= m < es.len() ==> (#[trigger] es[m]).1) || ((exists|i: int, j: int|
            0 <= i < j < es.len() && !(#[trigger] es[i]).1 && !(#[trigger] es[j]).1) && forall|m: int|
            0 <= m < es.len() && !(#[trigger] es[m]).1 ==> es[m].0 != "index.md"@),
    ensures
        directory_answer(url, es, show_parent, has_custom_css) == (200u16, None::<Seq<char>>, page_html(
            listing_title(url),
            listing_body(url, es, show_parent),
            has_custom_css,
        )),
{
    if forall|m: int| 0 <= m < es.len() ==> (#[trigger] es[m]).1 {
        lemma_md_names_none(es);
    } else {
        let (i, j) = choose|i: int, j: int| 0 <= i < j < es.len() && !(#[trigger] es[i]).1 && !(#[trigger] es[j]).1;
        lemma_md_names_two(es, i, j);
        lemma_md_names_from_files(es);
        assert(!md_names(es).contains("index.md"@));
    }
}

/// Every Markdown name is the name of a file among the entries.
proof fn lemma_md_names_from_files(es: Seq<(Seq<char>, bool)>)
    ensures
        forall|n: int| 0 <= n < md_names(es).len() ==> exists|m: int|
            0 <= m < es.len() && !(#[trigger] es[m]).1 && es[m].0 == #[trigger] md_names(es)[n],
    decreases es.len(),
{
    if es.len() > 0 {
        let d = es.drop_last();
        lemma_md_names_from_files(d);
        assert forall|n: int| 0 <= n < md_names(es).len() implies exists|m: int|
            0 <= m < es.len() && !(#[trigger] es[m]).1 && es[m].0 == #[trigger] md_names(es)[n] by {
            if n < md_names(d).len() {
                let m = choose|m: int| 0 <= m < d.len() && !(#[trigger] d[m]).1 && d[m].0 == md_names(d)[n];
                assert(es[m] == d[m]);
                if !es.last().1 {
                    assert(md_names(es)[n] == md_names(d)[n]);
                }
            } else {
                assert(es[es.len() - 1] == es.last());
            }
        }
    }
}

/// Answers a request for a directory, given its listed entries: a
/// directory with one Markdown file redirects to it; one with several,
/// among them `index.md`, redirects to `index.md`; otherwise the listing.
pub fn serve_directory(url_path: &str, entries: &Vec<DirectoryEntry>, show_parent: bool, has_custom_css: bool) -> (r: HttpResponse)
    ensures
        ({
            let a = directory_answer(url_path@, entries_view(entries@), show_parent, has_custom_css);
            &&& r.status_code == a.0
            &&& r.status_text@ == (if a.0 == 302 {
                "Found"@
            } else {
                "OK"@
            })
            &&& opt_view(r.location) == a.1
            &&& r.body@ == encode_utf8(a.2)
            &&& r.content_type@ == "text/html"@
            &&& r.content_encoding is None
        }),
{
    let ghost ev = entries_view(entries@);
    let mut md: Vec<usize> = Vec::new();
    let mut has_index = false;
    let mut k: usize = 0;
    while k < entries.len()
        invariant
            k <= entries.len(),
            ev == entries_view(entries@),
            md@.len() == md_names(ev.take(k as int)).len(),
            forall|j: int| 0 <= j < md@.len() ==> #[trigger] md@[j] < entries.len() && md_names(ev.take(k as int))[j] == entries@[md@[j] as int].name@,
            has_index == md_names(ev.take(k as int)).contains("index.md"@),
        decreases entries.len() - k,
    {
        let ghost before = md_names(ev.take(k as int));
        assert(ev.take(k + 1).drop_last() =~= ev.take(k as int));
        assert(ev.take(k + 1).last() == (entries@[k as int].name@, entries@[k as int].is_dir));
        if entries[k].is_dir {
            assert(md_names(ev.take(k + 1)) =~= before);
        } else {
            let ghost md0 = md@;
            md.push(k);
            assert(md_names(ev.take(k + 1)) =~= before.push(entries@[k as int].name@));
            assert forall|j: int| 0 <= j < md@.len() implies #[trigger] md@[j] < entries.len()
                && md_names(ev.take(k + 1))[j] == entries@[md@[j] as int].name@ by {
                if j < md0.len() {
                    assert(md@[j] == md0[j]);
                }
            }
            let n = chars_of(entries[k].name.as_str());
            let is_index = equals_str(&n, "index.md");
            proof {
                let after = md_names(ev.take(k + 1));
                assert(after =~= before.push(entries@[k as int].name@));
                if is_index {
                    assert(after[after.len() - 1] == "index.md"@);
                }
                if has_index {
                    let w = choose|w: int| 0 <= w < before.len() && before[w] == "index.md"@;
                    assert(after[w] == "index.md"@);
                }
                if after.contains("index.md"@) && !is_index {
                    let w = choose|w: int| 0 <= w < after.len() && after[w] == "index.md"@;
                    assert(before[w] == "index.md"@);
                }
            }
            has_index = has_index || is_index;
        }
        k = k + 1;
    }
    assert(ev.take(entries.len() as int) =~= ev);
    if md.len() > 0 {
        assert(md@[0] < entries.len());
    }
    let u = chars_of(url_path);
    let mut target: Vec<char> = Vec::new();
    push_all(&mut target, &u);
    if !(u.len() > 0 && u[u.len() - 1] == '/') {
        target.push('/');
    }
    assert(target@ == dir_url(url_path@));
    if md.len() == 1 {
        let n = chars_of(entries[md[0]].name.as_str());
        push_all(&mut target, &n);
        HttpResponse::redirect(string_of(&target).as_str())
    } else if md.len() > 1 && has_index {
        push_str(&mut target, "index.md");
        HttpResponse::redirect(string_of(&target).as_str())
    } else {
        let html = render_listing(url_path, entries.as_slice(), show_parent, has_custom_css);
        HttpResponse::ok("text/html", html.as_str().as_bytes_vec())
    }
}

/// Whether a file extension names a Markdown file (`md`, in any ASCII case).
pub fn is_markdown_extension(ext: &str) -> (r: bool)
    ensures
        r == (ascii_lower(ext@) == "md"@),
{
    equals_str(&to_lower(&chars_of(ext)), "md")
}

/// The response for a Markdown file: the rendered page.
pub fn markdown_response(source: &str, filename: &str, has_custom_css: bool) -> (r: HttpResponse)
    requires
        utf8_len(source@) <= usize::MAX,
        !heading_overflow(source@),
    ensures
        r.status_code == 200,
        r.status_text@ == "OK"@,
        r.content_type@ == "text/html"@,
        r.content_encoding is None,
        r.location is None,
        r.body@ == encode_utf8(
            page_html(title_of(source@, filename@), body_html(source@), has_custom_css),
        ),
{
    let html = render(source, filename, has_custom_css);
    HttpResponse::ok("text/html", html.as_str().as_bytes_vec())
}

/// The response for any other file: its bytes, with the content type of its extension.
pub fn raw_file_response(ext: &str, contents: Vec<u8>) -> (r: HttpResponse)
    ensures
        r.status_code == 200,
        r.status_text@ == "OK"@,
        r.content_type@ == mime_for(ascii_lower(ext@)),
        r.content_encoding is None,
        r.location is None,
        r.body@ == contents@,
{
    HttpResponse::ok(content_type_for(ext), contents)
}

/// The position of the last `c` in `s[..hi]`.
pub open spec fn last_index_of(s: Seq<char>, c: char, hi: int) -> Option<int>
    decreases hi,
{
    if hi <= 0 {
        None
    } else if s[hi - 1] == c {
        Some(hi - 1)
    } else {
        last_index_of(s, c, hi - 1)
    }
}

/// The extension of a file name as `Path::extension` finds it (empty when
/// there is none): what follows the last `.`, unless that `.` starts the
/// name.
pub open spec fn extension_of(name: Seq<char>) -> Seq<char> {
    match last_index_of(name, '.', name.len() as int) {
        Some(k) => if k == 0 {
            seq![]
        } else {
            name.skip(k + 1)
        },
        None => seq![],
    }
}

/// The extension of a file name (see `extension_of`).
pub fn file_extension(name: &str) -> (r: String)
    ensures
        r@ == extension_of(name@),
{
    let v = chars_of(name);
    let mut hi = v.len();
    while hi > 0 && v[hi - 1] != '.'
        invariant
            hi <= v.len(),
            last_index_of(v@, '.', v@.len() as int) == last_index_of(v@, '.', hi as int),
        decreases hi,
    {
        hi = hi - 1;
    }
    if hi <= 1 {
        String::new()
    } else {
        let e = crate::text::slice(&v, hi, v.len());
        assert(e@ =~= v@.skip(hi as int));
        string_of(&e)
    }
}

/// What a request for a file is answered with, given the file's name and
/// its contents (`None` when it could not be read): a Markdown file (`.md`
/// in any ASCII case) is rendered as a page, or not found when it is not
/// UTF-8 text; any other file is sent as it is with the content type of
/// its extension. `None` when the Markdown has a heading line with 256 or
/// more leading `#`, which the renderer does not accept.
pub open spec fn file_answer(name: Seq<char>, contents: Option<Seq<u8>>, has_custom_css: bool) -> Option<
    (u16, Seq<char>, Seq<char>, Option<Seq<char>>, Option<Seq<char>>, Seq<u8>),
> {
    match contents {
        None => Some(not_found_view()),
        Some(b) => {
            let ext = extension_of(name);
            if ascii_lower(ext) == "md"@ {
                if !valid_utf8(b) {
                    Some(not_found_view())
                } else {
                    let source = decode_utf8(b);
                    if heading_overflow(source) {
                        None
                    } else {
                        Some(
                            (
                                200u16,
                                "OK"@,
                                "text/html"@,
                                None,
                                None,
                                encode_utf8(page_html(title_of(source, name), body_html(source), has_custom_css)),
                            ),
                        )
                    }
                }
            } else {
                Some((200u16, "OK"@, mime_for(ascii_lower(ext)), None, None, b))
            }
        },
    }
}

/// Answers a request for a file (see `file_answer`).
pub fn serve_file(file_name: &str, contents: Option<Vec<u8>>, has_custom_css: bool) -> (r: Option<HttpResponse>)
    ensures
        match file_answer(file_name@, opt_bytes_view(contents), has_custom_css) {
            Some(a) => r matches Some(resp) && response_view(resp) == a,
            None => r is None,
        },
{
    let ext = file_extension(file_name);
    let bytes = match contents {
        Some(b) => b,
        None => return Some(HttpResponse::not_found()),
    };
    if is_markdown_extension(ext.as_str()) {
        let ghost bv = bytes@;
        let n = bytes.len();
        assert(bv.len() == n);
        match string_from_utf8(bytes) {
            Some(source) => {
                proof {
                    vstd::utf8::encode_utf8_decode_utf8(source@);
                    crate::text::lemma_utf8_len_encoding(source@);
                }
                if heading_run_overflows(source.as_str()) {
                    return None;
                }
                Some(markdown_response(source.as_str(), file_name, has_custom_css))
            },
            None => Some(HttpResponse::not_found()),
        }
    } else {
        Some(raw_file_response(ext.as_str(), bytes))
    }
}

pub open spec fn opt_bytes_view(o: Option<Vec<u8>>) -> Option<Seq<u8>> {
    match o {
        Some(b) => Some(b@),
        None => None,
    }
}

/// The configuration directory `<home>/.config/greymd`, given the home
/// directory (`HOME`, else `USERPROFILE`); none without one.
pub fn config_dir(home: Option<&str>) -> (r: Option<String>)
    ensures
        match home {
            Some(h) => r matches Some(d) && d@ == join_path(join_path(h@, ".config"@), "greymd"@),
            None => r is None,
        },
{
    match home {
        Some(h) => {
            let c = join(h, ".config");
            Some(join(c.as_str(), "greymd"))
        },
        None => None,
    }
}

/// The asset files a request may need.
#[derive(PartialEq, Eq, Structural, Clone, Copy)]
pub enum AssetFile {
    Stylesheet,
    Script,
}

/// The custom file a route reads: the stylesheet for `/?css2`, the script
/// for `/?js`; none for any other route.
pub fn custom_asset(route: Route) -> (r: Option<AssetFile>)
    ensures
        r == (match route {
            Route::CustomCss => Some(AssetFile::Stylesheet),
            Route::Script => Some(AssetFile::Script),
            _ => None,
        }),
{
    match route {
        Route::CustomCss => Some(AssetFile::Stylesheet),
        Route::Script => Some(AssetFile::Script),
        _ => None,
    }
}

/// The built-in asset a route may send: the script for `/?js`, the
/// stylesheet for any other.
pub fn builtin_asset(route: Route) -> (r: AssetFile)
    ensures
        r == (if route == Route::Script {
            AssetFile::Script
        } else {
            AssetFile::Stylesheet
        }),
{
    if route == Route::Script {
        AssetFile::Script
    } else {
        AssetFile::Stylesheet
    }
}

/// The `404 Not Found` response as plain values.
pub open spec fn not_found_view() -> (u16, Seq<char>, Seq<char>, Option<Seq<char>>, Option<Seq<char>>, Seq<u8>) {
    (404u16, "Not Found"@, "text/html"@, None, None, encode_utf8("<h1>404 Not Found</h1>"@))
}

/// The answer to a request that names no path: a refused method, an unknown
/// query, or one of the assets. `custom` is the custom file of the asset
/// asked for, when it could be read; `builtin` is the built-in gzipped one.
/// `None` for a request for a path.
pub fn asset_response(route: Route, custom: Option<Vec<u8>>, builtin: Vec<u8>) -> (r: Option<HttpResponse>)
    ensures
        match route {
            Route::Path => r is None,
            Route::MethodNotAllowed => r matches Some(resp) && response_view(resp) == (
                405u16,
                "Method Not Allowed"@,
                "text/html"@,
                None::<Seq<char>>,
                None::<Seq<char>>,
                encode_utf8("<h1>405 Method Not Allowed</h1>"@),
            ),
            Route::NotFound => r matches Some(resp) && response_view(resp) == not_found_view(),
            Route::BuiltinCss => r matches Some(resp) && response_view(resp) == (
                200u16,
                "OK"@,
                "text/css"@,
                Some("gzip"@),
                None::<Seq<char>>,
                builtin@,
            ),
            Route::CustomCss => r matches Some(resp) && match custom {
                Some(c) => response_view(resp) == (200u16, "OK"@, "text/css"@, None::<Seq<char>>, None::<Seq<char>>, c@),
                None => response_view(resp) == not_found_view(),
            },
            Route::Script => r matches Some(resp) && match custom {
                Some(c) => response_view(resp) == (
                    200u16,
                    "OK"@,
                    "application/javascript"@,
                    None::<Seq<char>>,
                    None::<Seq<char>>,
                    c@,
                ),
                None => response_view(resp) == (
                    200u16,
                    "OK"@,
                    "application/javascript"@,
                    Some("gzip"@),
                    None::<Seq<char>>,
                    builtin@,
                ),
            },
        },
{
    match route {
        Route::MethodNotAllowed => Some(HttpResponse::method_not_allowed()),
        Route::NotFound => Some(HttpResponse::not_found()),
        Route::BuiltinCss => Some(HttpResponse::ok_gzip("text/css", builtin)),
        Route::CustomCss => match custom {
            Some(c) => Some(HttpResponse::ok("text/css", c)),
            None => Some(HttpResponse::not_found()),
        },
        Route::Script => match custom {
            Some(c) => Some(HttpResponse::ok("application/javascript", c)),
            None => Some(HttpResponse::ok_gzip("application/javascript", builtin)),
        },
        Route::Path => None,
    }
}

} // verus!
