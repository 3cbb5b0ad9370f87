//! Rendering of Markdown to a complete HTML page.
use vstd::prelude::*;
use crate::text::{
    trim, starts_with, ends_with, split_on, chars_of, string_of, push_str, push_all, views, utf8_len,
    lf_to_crlf, lemma_split_crlf, lemma_trim_push_ws,
};

pub mod escape;
pub mod inline;
pub mod block;
pub mod table;
pub mod body;
pub mod balance;

verus! {

use crate::markdown::escape::{escape, push_escaped_all};
use crate::markdown::body::{body_html, heading_overflow, render_body_chars, lemma_crlf_renders_as_lf};
use crate::markdown::table::{Alignment, split_cells, is_separator, alignments, split_cells_exec, is_separator_exec, alignments_exec};

/// The page up to the `<title>` element.
pub const PAGE_HEAD: &'static str = "<!DOCTYPE html>\n<html>\n<head>\n<meta charset=\"utf-8\">\n<meta name=\"viewport\" content=\"width=device-width, initial-scale=1\">\n<link rel=\"icon\" href=\"data:image/svg+xml,<svg xmlns='http://www.w3.org/2000/svg' viewBox='0 0 16 16'><text x='0' y='13' font-size='12' font-family='sans-serif' font-weight='bold'>M↓</text></svg>\">\n";

/// The link to the built-in stylesheet.
pub const CSS_LINK: &'static str = "\n<link rel=\"stylesheet\" href=\"/?css\">";

/// The link to the custom stylesheet, present when one exists.
pub const CUSTOM_CSS_LINK: &'static str = "\n<link rel=\"stylesheet\" href=\"/?css2\">";

/// The page from the end of the head to the content element.
pub const PAGE_BEFORE_BODY: &'static str = "\n</head>\n<body>\n";

/// The page after the content element: highlighting, copy buttons, table of contents.
pub const PAGE_TAIL: &'static str = "\n<script src=\"/?js\"></script>\n<script>\nhljs.highlightAll();\ndocument.querySelectorAll('pre').forEach(function(p){var b=document.createElement('button');b.className='copy-btn';b.textContent='\u{1F4CB}';b.onclick=function(){navigator.clipboard.writeText(p.querySelector('code').textContent).then(function(){b.textContent='\u{2713}';setTimeout(function(){b.textContent='\u{1F4CB}'},1500)});};p.appendChild(b)});\n(function(){var hs=document.querySelectorAll('.content h1,.content h2,.content h3,.content h4,.content h5,.content h6');if(hs.length<2)return;var nav=document.createElement('nav');nav.className='toc';var ul=document.createElement('ul');hs.forEach(function(h){var li=document.createElement('li');li.className='toc-h'+h.tagName[1];var a=document.createElement('a');a.href='#'+h.id;a.textContent=h.textContent.replace('\u{1F517}','').trim();li.appendChild(a);ul.appendChild(li)});nav.appendChild(ul);document.body.insertBefore(nav,document.body.firstChild)})();\n</script>\n</body>\n</html>\n";

/// The HTML5 page around `body`, titled with the escaped `title`.
pub open spec fn page_html(title: Seq<char>, body: Seq<char>, has_custom_css: bool) -> Seq<char> {
    page_top(title) + (if has_custom_css {
        CUSTOM_CSS_LINK@
    } else {
        seq![]
    }) + page_bottom(body)
}

/// The page up to the link to the built-in stylesheet, included.
pub open spec fn page_top(title: Seq<char>) -> Seq<char> {
    PAGE_HEAD@ + title_element(title) + CSS_LINK@
}

/// The page from the end of the head on.
pub open spec fn page_bottom(body: Seq<char>) -> Seq<char> {
    PAGE_BEFORE_BODY@ + content_element(body) + PAGE_TAIL@
}

/// The `<title>` element for `title`, escaped.
pub open spec fn title_element(title: Seq<char>) -> Seq<char> {
    "<title>"@ + escape(title) + "</title>"@
}

/// The element that holds the body.
pub open spec fn content_element(body: Seq<char>) -> Seq<char> {
    "<div class=\"content\">"@ + body + "</div>"@
}

/// Whether `p` occurs in `s` at position `i`.
pub open spec fn occurs_at(s: Seq<char>, p: Seq<char>, i: int) -> bool {
    0 <= i && i + p.len() <= s.len() && s.subrange(i, i + p.len()) == p
}

/// A page holds its escaped title in `<title>`, its body verbatim in the
/// content element, and the built-in stylesheet link; the custom
/// stylesheet link comes right after that one when asked for, and is the
/// only difference from the page without it.
pub proof fn lemma_page_parts(title: Seq<char>, body: Seq<char>, has_custom_css: bool)
    ensures
        occurs_at(page_html(title, body, has_custom_css), title_element(title), PAGE_HEAD@.len() as int),
        occurs_at(
            page_html(title, body, has_custom_css),
            content_element(body),
            page_html(title, body, has_custom_css).len() - PAGE_TAIL@.len() - content_element(body).len(),
        ),
        occurs_at(page_html(title, body, has_custom_css), CSS_LINK@, page_top(title).len() - CSS_LINK@.len()),
        has_custom_css ==> occurs_at(page_html(title, body, true), CUSTOM_CSS_LINK@, page_top(title).len() as int),
        page_html(title, body, true) == page_html(title, body, false).take(page_top(title).len() as int)
            + CUSTOM_CSS_LINK@ + page_html(title, body, false).skip(page_top(title).len() as int),
{
    let p = page_html(title, body, has_custom_css);
    let t = page_top(title);
    let b = page_bottom(body);
    let l = if has_custom_css {
        CUSTOM_CSS_LINK@
    } else {
        seq![]
    };
    assert(p == t + l + b);
    let h = PAGE_HEAD@.len() as int;
    let te = title_element(title);
    assert(p.subrange(h, h + te.len()) =~= te);
    let ce = content_element(body);
    let k = p.len() - PAGE_TAIL@.len() - ce.len();
    assert(p.subrange(k, k + ce.len()) =~= ce);
    assert(p.subrange(t.len() - CSS_LINK@.len(), t.len() as int) =~= CSS_LINK@);
    let p1 = page_html(title, body, true);
    assert(p1.subrange(t.len() as int, (t.len() + CUSTOM_CSS_LINK@.len()) as int) =~= CUSTOM_CSS_LINK@);
    let p0 = page_html(title, body, false);
    assert(p0.take(t.len() as int) =~= t);
    assert(p0.skip(t.len() as int) =~= b);
    assert(p1 =~= t + CUSTOM_CSS_LINK@ + b);
}

/// The custom stylesheet's address.
pub open spec fn custom_css_href() -> Seq<char> {
    "/?css2"@
}

/// The link to the custom stylesheet.
pub open spec fn custom_css_tag() -> Seq<char> {
    "<link rel=\"stylesheet\" href=\"/?css2\">"@
}

/// Whether no `/?css2` starts in `x`.
pub open spec fn no_custom_href(x: Seq<char>) -> bool {
    forall|i: int|
        0 <= i && i + 6 <= x.len() && #[trigger] x[i] == '/' ==> !(x[i + 1] == '?' && x[i + 2] == 'c' && x[i + 3]
            == 's' && x[i + 4] == 's' && x[i + 5] == '2')
}

/// The fixed text of a page before the title.
pub open spec fn page_head_part() -> Seq<char> {
    PAGE_HEAD@ + "<title>"@
}

/// The fixed text of a page between the title and the body.
pub open spec fn page_mid_part(has_custom_css: bool) -> Seq<char> {
    "</title>"@ + CSS_LINK@ + (if has_custom_css {
        CUSTOM_CSS_LINK@
    } else {
        seq![]
    }) + PAGE_BEFORE_BODY@ + "<div class=\"content\">"@
}

/// The fixed text of a page after the body.
pub open spec fn page_tail_part() -> Seq<char> {
    "</div>"@ + PAGE_TAIL@
}

/// A page is its escaped title and its body set in fixed text.
pub proof fn lemma_page_layout(title: Seq<char>, body: Seq<char>, has_custom_css: bool)
    ensures
        page_html(title, body, has_custom_css) == page_head_part() + escape(title) + page_mid_part(has_custom_css)
            + body + page_tail_part(),
{
    assert(page_html(title, body, has_custom_css) =~= page_head_part() + escape(title) + page_mid_part(
        has_custom_css,
    ) + body + page_tail_part());
}

/// The links to the stylesheets.
proof fn lemma_css_texts()
    ensures
        custom_css_href() == seq!['/', '?', 'c', 's', 's', '2'],
        custom_css_tag().subrange(29, 35) == custom_css_href(),
        custom_css_tag().len() == 37,
        CUSTOM_CSS_LINK@ == seq!['\n'] + custom_css_tag(),
{
    reveal_strlit("\n<link rel=\"stylesheet\" href=\"/?css2\">");
    reveal_strlit("/?css2");
    reveal_strlit("<link rel=\"stylesheet\" href=\"/?css2\">");
    assert(custom_css_tag().subrange(29, 35) =~= custom_css_href());
    assert(CUSTOM_CSS_LINK@ =~= seq!['\n'] + custom_css_tag());
}

/// Where the fixed text of a page meets the title and the body.
proof fn lemma_page_joints()
    ensures
        page_head_part().len() > 0,
        page_head_part().last() == '>',
        ("</title>"@ + CSS_LINK@ + PAGE_BEFORE_BODY@ + "<div class=\"content\">"@).len() > 0,
        ("</title>"@ + CSS_LINK@ + PAGE_BEFORE_BODY@ + "<div class=\"content\">"@)[0] == '<',
        ("</title>"@ + CSS_LINK@ + PAGE_BEFORE_BODY@ + "<div class=\"content\">"@).last() == '>',
        page_tail_part().len() > 0,
        page_tail_part()[0] == '<',
{
    reveal_strlit("<title>");
    reveal_strlit("</title>");
    reveal_strlit("<div class=\"content\">");
    reveal_strlit("</div>");
}

/// The fixed text of a page around the title and the body holds no
/// `/?css2` and no folder icon; the text after the title starts with `</t`.
pub proof fn lemma_page_fixed_text()
    ensures
        no_custom_href(page_head_part()),
        no_custom_href("</title>"@ + CSS_LINK@ + PAGE_BEFORE_BODY@ + "<div class=\"content\">"@),
        no_custom_href(page_tail_part()),
        !page_head_part().contains('\u{1F4C1}'),
        !page_mid_part(false).contains('\u{1F4C1}'),
        !page_mid_part(true).contains('\u{1F4C1}'),
        !page_tail_part().contains('\u{1F4C1}'),
        page_mid_part(false).len() >= 3 && page_mid_part(false)[0] == '<' && page_mid_part(false)[1] == '/'
            && page_mid_part(false)[2] == 't',
        page_mid_part(true).len() >= 3 && page_mid_part(true)[0] == '<' && page_mid_part(true)[1] == '/'
            && page_mid_part(true)[2] == 't',
{
    reveal_strlit("\n<link rel=\"stylesheet\" href=\"/?css2\">");
    reveal_strlit("<!DOCTYPE html>\n<html>\n<head>\n<meta charset=\"utf-8\">\n<meta name=\"viewport\" content=\"width=device-width, initial-scale=1\">\n<link rel=\"icon\" href=\"data:image/svg+xml,<svg xmlns='http://www.w3.org/2000/svg' viewBox='0 0 16 16'><text x='0' y='13' font-size='12' font-family='sans-serif' font-weight='bold'>M↓</text></svg>\">\n");
    reveal_strlit("\n<link rel=\"stylesheet\" href=\"/?css\">");
    reveal_strlit("\n</head>\n<body>\n");
    reveal_strlit("\n<script src=\"/?js\"></script>\n<script>\nhljs.highlightAll();\ndocument.querySelectorAll('pre').forEach(function(p){var b=document.createElement('button');b.className='copy-btn';b.textContent='\u{1F4CB}';b.onclick=function(){navigator.clipboard.writeText(p.querySelector('code').textContent).then(function(){b.textContent='\u{2713}';setTimeout(function(){b.textContent='\u{1F4CB}'},1500)});};p.appendChild(b)});\n(function(){var hs=document.querySelectorAll('.content h1,.content h2,.content h3,.content h4,.content h5,.content h6');if(hs.length<2)return;var nav=document.createElement('nav');nav.className='toc';var ul=document.createElement('ul');hs.forEach(function(h){var li=document.createElement('li');li.className='toc-h'+h.tagName[1];var a=document.createElement('a');a.href='#'+h.id;a.textContent=h.textContent.replace('\u{1F517}','').trim();li.appendChild(a);ul.appendChild(li)});nav.appendChild(ul);document.body.insertBefore(nav,document.body.firstChild)})();\n</script>\n</body>\n</html>\n");
    reveal_strlit("<title>");
    reveal_strlit("</title>");
    reveal_strlit("<div class=\"content\">");
    reveal_strlit("</div>");
}

/// An occurrence of `p`, which holds no `<` or `>`, in a text made of five
/// pieces whose joints are `>` or `<` on the fixed side lies within one
/// piece.
proof fn lemma_occurs_in_piece(
    a: Seq<char>,
    e: Seq<char>,
    b: Seq<char>,
    d: Seq<char>,
    c: Seq<char>,
    p: Seq<char>,
    j: int,
)
    requires
        a.len() > 0 && a.last() == '>',
        b.len() > 0 && b[0] == '<' && b.last() == '>',
        c.len() > 0 && c[0] == '<',
        p.len() > 0,
        forall|k: int| 0 <= k < p.len() ==> #[trigger] p[k] != '<' && p[k] != '>',
        0 <= j,
        j + p.len() <= (a + e + b + d + c).len(),
        (a + e + b + d + c).subrange(j, j + p.len()) == p,
    ensures
        ({
            let x = a + e + b + d + c;
            let o1 = a.len() as int;
            let o2 = o1 + e.len();
            let o3 = o2 + b.len();
            let o4 = o3 + d.len();
            ||| j + p.len() <= o1 && a.subrange(j, j + p.len()) == p
            ||| o1 <= j && j + p.len() <= o2 && e.subrange(j - o1, j - o1 + p.len()) == p
            ||| o2 <= j && j + p.len() <= o3 && b.subrange(j - o2, j - o2 + p.len()) == p
            ||| o3 <= j && j + p.len() <= o4 && d.subrange(j - o3, j - o3 + p.len()) == p
            ||| o4 <= j && c.subrange(j - o4, j - o4 + p.len()) == p
        }),
{
    let x = a + e + b + d + c;
    let o1 = a.len() as int;
    let o2 = o1 + e.len();
    let o3 = o2 + b.len();
    let o4 = o3 + d.len();
    let n = p.len() as int;
    let w = x.subrange(j, j + n);
    if j < o1 && j + n > o1 {
        assert(w[o1 - 1 - j] == x[o1 - 1]);
    } else if j < o2 && j + n > o2 {
        assert(w[o2 - j] == x[o2]);
    } else if j < o3 && j + n > o3 {
        assert(w[o3 - 1 - j] == x[o3 - 1]);
    } else if j < o4 && j + n > o4 {
        assert(w[o4 - j] == x[o4]);
    } else if j + n <= o1 {
        assert(a.subrange(j, j + n) =~= w);
    } else if j + n <= o2 {
        assert(e.subrange(j - o1, j - o1 + n) =~= w);
    } else if j + n <= o3 {
        assert(b.subrange(j - o2, j - o2 + n) =~= w);
    } else if j + n <= o4 {
        assert(d.subrange(j - o3, j - o3 + n) =~= w);
    } else {
        assert(c.subrange(j - o4, j - o4 + n) =~= w);
    }
}

proof fn lemma_no_custom_href_at(x: Seq<char>, i: int)
    requires
        no_custom_href(x),
    ensures
        !(0 <= i && i + 6 <= x.len() && x.subrange(i, i + 6) == custom_css_href()),
{
    lemma_css_texts();
    if 0 <= i && i + 6 <= x.len() && x.subrange(i, i + 6) == custom_css_href() {
        let w = x.subrange(i, i + 6);
        assert(w[0] == x[i] && w[1] == x[i + 1] && w[2] == x[i + 2]);
        assert(w[3] == x[i + 3] && w[4] == x[i + 4] && w[5] == x[i + 5]);
    }
}

/// A page without the custom stylesheet, in the pieces around its title and
/// body.
proof fn lemma_page_pieces(title: Seq<char>, body: Seq<char>)
    ensures
        page_html(title, body, false) == page_head_part() + escape(title) + ("</title>"@ + CSS_LINK@
            + PAGE_BEFORE_BODY@ + "<div class=\"content\">"@) + body + page_tail_part(),
{
    assert(page_html(title, body, false) =~= page_head_part() + escape(title) + ("</title>"@ + CSS_LINK@
        + PAGE_BEFORE_BODY@ + "<div class=\"content\">"@) + body + page_tail_part());
}

proof fn lemma_custom_tag_absent_at(title: Seq<char>, body: Seq<char>, i: int)
    requires
        forall|i: int| 0 <= i && i + 6 <= title.len() ==> #[trigger] title.subrange(i, i + 6) != custom_css_href(),
        forall|i: int| 0 <= i && i + 6 <= body.len() ==> #[trigger] body.subrange(i, i + 6) != custom_css_href(),
    ensures
        !occurs_at(page_html(title, body, false), custom_css_tag(), i),
{
    lemma_css_texts();
    lemma_page_joints();
    let l = custom_css_tag();
    let q = custom_css_href();
    let pg = page_html(title, body, false);
    let a = page_head_part();
    let e = escape(title);
    let b = "</title>"@ + CSS_LINK@ + PAGE_BEFORE_BODY@ + "<div class=\"content\">"@;
    let c = page_tail_part();
    lemma_page_pieces(title, body);
    if occurs_at(pg, l, i) {
        let j = i + 29;
        assert(pg.subrange(j, j + 6) =~= q) by {
            assert forall|k: int| 0 <= k < 6 implies pg.subrange(j, j + 6)[k] == q[k] by {
                assert(pg.subrange(i, i + l.len())[29 + k] == pg[j + k]);
                assert(l.subrange(29, 35)[k] == l[29 + k]);
            }
        }
        assert(forall|k: int| 0 <= k < q.len() ==> #[trigger] q[k] != '<' && q[k] != '>');
        lemma_occurs_in_piece(a, e, b, body, c, q, j);
        let o1 = a.len() as int;
        let o2 = o1 + e.len();
        let o4 = o2 + b.len() + body.len();
        assert(!(0 <= j && j + 6 <= a.len() && a.subrange(j, j + 6) == q)) by {
            lemma_page_fixed_text();
            lemma_no_custom_href_at(a, j);
        }
        assert(!(0 <= j - o2 && j - o2 + 6 <= b.len() && b.subrange(j - o2, j - o2 + 6) == q)) by {
            lemma_page_fixed_text();
            lemma_no_custom_href_at(b, j - o2);
        }
        assert(!(0 <= j - o4 && j - o4 + 6 <= c.len() && c.subrange(j - o4, j - o4 + 6) == q)) by {
            lemma_page_fixed_text();
            lemma_no_custom_href_at(c, j - o4);
        }
        if o1 <= j && j + 6 <= o2 && e.subrange(j - o1, j - o1 + 6) == q {
            assert(forall|k: int| 0 <= k < q.len() ==> crate::markdown::escape::plain_char(#[trigger] q[k]));
            crate::markdown::escape::lemma_escape_occurs(title, q, j - o1);
        }
    }
}

/// The custom stylesheet is linked exactly when asked for: where neither the
/// title nor the body holds `/?css2`, the page holds the link to it if and
/// only if it was asked for.
pub proof fn lemma_custom_css_exactly(title: Seq<char>, body: Seq<char>, has_custom_css: bool)
    requires
        forall|i: int| 0 <= i && i + 6 <= title.len() ==> #[trigger] title.subrange(i, i + 6) != custom_css_href(),
        forall|i: int| 0 <= i && i + 6 <= body.len() ==> #[trigger] body.subrange(i, i + 6) != custom_css_href(),
    ensures
        (exists|i: int| occurs_at(page_html(title, body, has_custom_css), custom_css_tag(), i)) == has_custom_css,
{
    if has_custom_css {
        lemma_css_texts();
        lemma_page_parts(title, body, true);
        let l = custom_css_tag();
        let pg = page_html(title, body, true);
        let t = page_top(title).len() as int;
        assert(pg.subrange(t + 1, t + 1 + l.len()) =~= l) by {
            assert forall|k: int| 0 <= k < l.len() implies pg.subrange(t + 1, t + 1 + l.len())[k] == l[k] by {
                assert(pg.subrange(t, t + CUSTOM_CSS_LINK@.len())[k + 1] == pg[t + 1 + k]);
                assert(CUSTOM_CSS_LINK@[k + 1] == l[k]);
            }
        }
        assert(occurs_at(pg, l, t + 1));
    } else {
        assert forall|i: int| !occurs_at(page_html(title, body, false), custom_css_tag(), i) by {
            lemma_custom_tag_absent_at(title, body, i);
        }
    }
}

/// The text of the first `# ` heading among `lines[k..]`.
pub open spec fn first_heading(lines: Seq<Seq<char>>, k: int) -> Option<Seq<char>>
    decreases lines.len() - k,
{
    if k < 0 || k >= lines.len() {
        None
    } else if starts_with(trim(lines[k]), "# "@) {
        Some(trim(trim(lines[k]).skip("# "@.len() as int)))
    } else {
        first_heading(lines, k + 1)
    }
}

/// The title of a document: its first `# ` heading, else the file name
/// without a `.md` suffix.
pub open spec fn title_of(source: Seq<char>, filename: Seq<char>) -> Seq<char> {
    match first_heading(split_on(source, '\n'), 0) {
        Some(t) => t,
        None => if ends_with(filename, ".md"@) {
            filename.take(filename.len() - ".md"@.len())
        } else {
            filename
        },
    }
}

proof fn lemma_first_heading_same_trims(a: Seq<Seq<char>>, b: Seq<Seq<char>>, k: int)
    requires
        a.len() == b.len(),
        forall|i: int| 0 <= i < a.len() ==> trim(#[trigger] a[i]) == trim(b[i]),
    ensures
        first_heading(a, k) == first_heading(b, k),
    decreases a.len() - k,
{
    if 0 <= k < a.len() {
        assert(trim(a[k]) == trim(b[k]));
        lemma_first_heading_same_trims(a, b, k + 1);
    }
}

/// Whether a line, trimmed, starts with `# `.
pub open spec fn is_title_line(line: Seq<char>) -> bool {
    starts_with(trim(line), "# "@)
}

proof fn lemma_first_heading_find(lines: Seq<Seq<char>>, m: int)
    requires
        0 <= m,
    ensures
        (forall|k: int| m <= k < lines.len() ==> !is_title_line(#[trigger] lines[k])) ==> first_heading(lines, m)
            is None,
        forall|k: int|
            m <= k < lines.len() && is_title_line(#[trigger] lines[k]) && (forall|j: int|
                m <= j < k ==> !is_title_line(#[trigger] lines[j])) ==> first_heading(lines, m) == Some(
                trim(trim(lines[k]).skip("# "@.len() as int)),
            ),
    decreases lines.len() - m,
{
    if m < lines.len() {
        lemma_first_heading_find(lines, m + 1);
        assert forall|k: int|
            m <= k < lines.len() && is_title_line(#[trigger] lines[k]) && (forall|j: int|
                m <= j < k ==> !is_title_line(#[trigger] lines[j])) implies first_heading(lines, m) == Some(
            trim(trim(lines[k]).skip("# "@.len() as int)),
        ) by {
            if k > m {
                assert(!is_title_line(lines[m]));
            }
        }
    }
}

/// The title of a document is the text after `# ` on its first line that,
/// trimmed, starts with `# `, trimmed again; where no line does, it is the
/// file name without its `.md` suffix.
pub proof fn lemma_title_law(source: Seq<char>, filename: Seq<char>)
    ensures
        forall|k: int|
            0 <= k < split_on(source, '\n').len() && is_title_line(#[trigger] split_on(source, '\n')[k]) && (forall|
                j: int,
            | 0 <= j < k ==> !is_title_line(#[trigger] split_on(source, '\n')[j])) ==> title_of(source, filename)
                == trim(trim(split_on(source, '\n')[k]).skip("# "@.len() as int)),
        (forall|k: int| 0 <= k < split_on(source, '\n').len() ==> !is_title_line(#[trigger] split_on(source, '\n')[k]))
            ==> title_of(source, filename) == if ends_with(filename, ".md"@) {
            filename.take(filename.len() - ".md"@.len())
        } else {
            filename
        },
{
    lemma_first_heading_find(split_on(source, '\n'), 0);
}

/// Line endings do not matter: a document whose lines end with `\r\n`
/// renders to the same page, title included, as with `\n` line endings.
pub proof fn lemma_crlf_page_as_lf(s: Seq<char>, filename: Seq<char>, has_custom_css: bool)
    requires
        !s.contains('\r'),
    ensures
        title_of(lf_to_crlf(s), filename) == title_of(s, filename),
        page_html(title_of(lf_to_crlf(s), filename), body_html(lf_to_crlf(s)), has_custom_css)
            == page_html(title_of(s, filename), body_html(s), has_custom_css),
        heading_overflow(lf_to_crlf(s)) == heading_overflow(s),
{
    lemma_crlf_renders_as_lf(s);
    lemma_split_crlf(s);
    let m = split_on(lf_to_crlf(s), '\n');
    let l = split_on(s, '\n');
    assert forall|i: int| 0 <= i < m.len() implies trim(#[trigger] m[i]) == trim(l[i]) by {
        if i < l.len() - 1 {
            lemma_trim_push_ws(l[i], '\r');
        } else {
            assert(m[i] == m.last() && l[i] == l.last());
        }
    }
    lemma_first_heading_same_trims(m, l, 0);
}

/// Escape HTML special characters in text content.
pub fn escape_html(text: &str) -> (r: String)
    ensures
        r@ == escape(text@),
{
    let v = chars_of(text);
    let mut out: Vec<char> = Vec::new();
    push_escaped_all(&mut out, &v);
    string_of(&out)
}

/// Wrap rendered HTML body in a complete HTML5 page.
pub fn wrap_html_page(title: &str, body: &str, has_custom_css: bool) -> (r: String)
    ensures
        r@ == page_html(title@, body@, has_custom_css),
{
    let t = chars_of(title);
    let b = chars_of(body);
    let mut out: Vec<char> = Vec::new();
    page_into(&mut out, &t, &b, has_custom_css);
    string_of(&out)
}

pub(crate) fn page_into(out: &mut Vec<char>, title: &Vec<char>, body: &Vec<char>, has_custom_css: bool)
    ensures
        final(out)@ == old(out)@ + page_html(title@, body@, has_custom_css),
{
    let ghost start = out@;
    push_str(out, PAGE_HEAD);
    push_str(out, "<title>");
    push_escaped_all(out, title);
    push_str(out, "</title>");
    push_str(out, CSS_LINK);
    if has_custom_css {
        push_str(out, CUSTOM_CSS_LINK);
    }
    push_str(out, PAGE_BEFORE_BODY);
    push_str(out, "<div class=\"content\">");
    push_all(out, body);
    push_str(out, "</div>");
    push_str(out, PAGE_TAIL);
    assert(out@ =~= start + page_html(title@, body@, has_custom_css));
}

fn title_chars(source: &Vec<char>, filename: &Vec<char>) -> (r: Vec<char>)
    ensures
        r@ == title_of(source@, filename@),
{
    let lines = crate::text::split_lines(source);
    let ghost lv = views(lines@);
    let mut k: usize = 0;
    while k < lines.len()
        invariant
            k <= lines.len(),
            lv == views(lines@),
            lv == split_on(source@, '\n'),
            first_heading(lv, 0) == first_heading(lv, k as int),
        decreases lines.len() - k,
    {
        let l = &lines[k];
        assert(lv[k as int] == l@);
        let (a, b) = crate::text::trim_bounds(l, 0, l.len());
        assert(l@.subrange(0, l@.len() as int) =~= l@);
        let t = crate::text::slice(l, a, b);
        assert(t@.skip(0) =~= t@);
        if crate::text::starts_with_at(&t, 0, "# ") {
            let p = "# ".unicode_len();
            let (x, y) = crate::text::trim_bounds(&t, p, t.len());
            assert(t@.subrange(p as int, t@.len() as int) =~= t@.skip("# "@.len() as int));
            return crate::text::slice(&t, x, y);
        }
        k = k + 1;
    }
    let sl = ".md".unicode_len();
    if filename.len() >= sl && crate::text::starts_with_at(filename, filename.len() - sl, ".md") {
        let r = crate::text::slice(filename, 0, filename.len() - sl);
        assert(filename@.skip(filename.len() - sl).take(sl as int) =~= filename@.skip(
            filename.len() - sl,
        ));
        assert(ends_with(filename@, ".md"@));
        assert(r@ =~= filename@.take(filename@.len() - ".md"@.len()));
        r
    } else {
        proof {
            if ends_with(filename@, ".md"@) {
                assert(filename@.skip(filename@.len() - ".md"@.len()).take(".md"@.len() as int) =~= filename@.skip(filename@.len() - ".md"@.len()));
            }
        }
        let mut r = Vec::new();
        push_all(&mut r, filename);
        assert(r@ =~= filename@);
        r
    }
}

/// Extract title from the first `#` heading, falling back to filename.
pub fn extract_title(source: &str, filename: &str) -> (r: String)
    ensures
        r@ == title_of(source@, filename@),
{
    let s = chars_of(source);
    let f = chars_of(filename);
    let t = title_chars(&s, &f);
    string_of(&t)
}

/// Render Markdown source to a complete HTML5 page.
pub fn render(source: &str, filename: &str, has_custom_css: bool) -> (r: String)
    requires
        utf8_len(source@) <= usize::MAX,
        !heading_overflow(source@),
    ensures
        r@ == page_html(title_of(source@, filename@), body_html(source@), has_custom_css),
{
    let s = chars_of(source);
    let f = chars_of(filename);
    let t = title_chars(&s, &f);
    let (b, _) = render_body_chars(&s);
    let mut out: Vec<char> = Vec::new();
    page_into(&mut out, &t, &b, has_custom_css);
    string_of(&out)
}

/// Render the body of a Markdown document (the content inside `<div class="content">`).
pub fn render_body(source: &str) -> (r: String)
    requires
        utf8_len(source@) <= usize::MAX,
        !heading_overflow(source@),
    ensures
        r@ == body_html(source@),
{
    let s = chars_of(source);
    let (b, _) = render_body_chars(&s);
    string_of(&b)
}

/// Whether rendering `source` would meet a heading line whose run of `#`
/// is 256 or longer, which `render` and `render_body` do not accept.
pub fn heading_run_overflows(source: &str) -> (r: bool)
    requires
        utf8_len(source@) <= usize::MAX,
    ensures
        r == heading_overflow(source@),
{
    let s = chars_of(source);
    let (_, ov) = render_body_chars(&s);
    ov
}

/// Whether a line is the separator row of a table (`|---|:---:|`).
pub fn is_table_separator(line: &str) -> (r: bool)
    ensures
        r == is_separator(line@),
{
    let s = chars_of(line);
    assert(s@.subrange(0, s@.len() as int) =~= s@);
    is_separator_exec(&s, 0, s.len())
}

/// The trimmed cells of a table row; `|` inside backticks does not split.
pub fn split_table_cells(line: &str) -> (r: Vec<String>)
    ensures
        r@.map_values(|c: String| c@) == split_cells(line@),
{
    let s = chars_of(line);
    assert(s@.subrange(0, s@.len() as int) =~= s@);
    let cells = split_cells_exec(&s, 0, s.len());
    let mut r: Vec<String> = Vec::new();
    let mut k: usize = 0;
    while k < cells.len()
        invariant
            k <= cells.len(),
            r@.map_values(|c: String| c@) == views(cells@).take(k as int),
        decreases cells.len() - k,
    {
        let c = string_of(&cells[k]);
        let ghost before = r@;
        r.push(c);
        assert(r@ =~= before.push(c));
        assert(r@.map_values(|c: String| c@) =~= before.map_values(|c: String| c@).push(c@));
        assert(views(cells@)[k as int] == cells@[k as int]@);
        k = k + 1;
        assert(r@.map_values(|c: String| c@) =~= views(cells@).take(k as int));
    }
    assert(views(cells@).take(cells.len() as int) =~= views(cells@));
    r
}

/// The column alignments given by a separator row.
pub fn parse_alignment(separator: &str) -> (r: Vec<Alignment>)
    ensures
        r@ == alignments(separator@),
{
    let s = chars_of(separator);
    assert(s@.subrange(0, s@.len() as int) =~= s@);
    alignments_exec(&s, 0, s.len())
}

} // verus!
