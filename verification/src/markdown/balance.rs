//! Block tags come in pairs: every `<ul>`, `<ol>`, `<table>` and
//! `<pre><code` that the renderer opens it also closes.
use vstd::prelude::*;
use crate::markdown::table::{count_occ, end_safe, lemma_count_concat, lemma_end_safe_last, lemma_count_zero};
use crate::markdown::inline::{tags_avoid, lemma_tags_avoid_concat, lemma_no_lt, lemma_inline_tags_avoid, lemma_escape_tags_avoid, inline_html};
use crate::markdown::escape::escape;
use crate::markdown::body::{
    ListEntry, ListKind, Body, BlockState, close_all, close_deeper, open_tag, close_tag, flush, item_html,
    fence_open, code_close, heading_html, level_digit, list_item, step, step_plain, step_rest, finish,
    body_from, body_html, source_lines, init_body, lemma_table_end, table_end, trimmed_rows,
};
use crate::markdown::table::{table_html, header_html, rows_html, data_cells_html, align_style, align_at, cell_at, split_cells, alignments, Alignment};
use crate::markdown::block::{slug, slug_safe, lemma_slug_safe};

verus! {

/// A letter that starts no tag of inline HTML, of headings, block quotes
/// or list items.
pub open spec fn quiet_letter(l: char) -> bool {
    crate::markdown::inline::not_inline_tag_letter(l) && l != 'h' && l != 'b' && l != 'l'
}

/// A letter that starts no tag of the block renderer outside tables, nor
/// of inline HTML.
pub open spec fn free_letter(l: char) -> bool {
    quiet_letter(l) && l != 'p'
}

/// Closing minus opening `<ul>` tags in `s`.
pub open spec fn ul_tally(s: Seq<char>) -> int {
    count_occ(s, "</ul>"@) - count_occ(s, "<ul>"@)
}

/// Closing minus opening `<ol>` tags in `s`.
pub open spec fn ol_tally(s: Seq<char>) -> int {
    count_occ(s, "</ol>"@) - count_occ(s, "<ol>"@)
}

/// The open bulleted lists.
pub open spec fn ul_open(stack: Seq<ListEntry>) -> int
    decreases stack.len(),
{
    if stack.len() == 0 {
        0
    } else {
        ul_open(stack.drop_last()) + if stack.last().kind == ListKind::Unordered {
            1int
        } else {
            0int
        }
    }
}

/// The open numbered lists.
pub open spec fn ol_open(stack: Seq<ListEntry>) -> int
    decreases stack.len(),
{
    if stack.len() == 0 {
        0
    } else {
        ol_open(stack.drop_last()) + if stack.last().kind == ListKind::Ordered {
            1int
        } else {
            0int
        }
    }
}

/// No list tag runs from the end of `s` into what follows.
pub open spec fn list_safe(s: Seq<char>) -> bool {
    &&& end_safe(s, "<ul>"@)
    &&& end_safe(s, "</ul>"@)
    &&& end_safe(s, "<ol>"@)
    &&& end_safe(s, "</ol>"@)
}

proof fn lemma_list_patterns()
    ensures
        "<ul>"@ == seq!['<', 'u', 'l', '>'],
        "</ul>"@ == seq!['<', '/', 'u', 'l', '>'],
        "<ol>"@ == seq!['<', 'o', 'l', '>'],
        "</ol>"@ == seq!['<', '/', 'o', 'l', '>'],
{
    reveal_strlit("<ul>");
    reveal_strlit("</ul>");
    reveal_strlit("<ol>");
    reveal_strlit("</ol>");
}

/// A text ending with a newline or `>` lets no list tag run past its end.
proof fn lemma_list_safe_end(s: Seq<char>)
    requires
        s.len() == 0 || s.last() == '\n' || s.last() == '>',
    ensures
        list_safe(s),
{
    lemma_list_patterns();
    lemma_end_safe_last(s, "<ul>"@);
    lemma_end_safe_last(s, "</ul>"@);
    lemma_end_safe_last(s, "<ol>"@);
    lemma_end_safe_last(s, "</ol>"@);
}

proof fn lemma_avoid_one(x: Seq<char>, p: Seq<char>)
    requires
        tags_avoid(x, 'u', 'o'),
        p.len() >= 4,
        p[0] == '<',
        p[1] == 'u' || p[1] == 'o' || (p[1] == '/' && (p[2] == 'u' || p[2] == 'o')),
    ensures
        count_occ(x, p) == 0,
        end_safe(x, p),
{
    assert forall|i: int| 0 <= i && i + p.len() <= x.len() implies #[trigger] x.subrange(i, i + p.len()) != p by {
        if x.subrange(i, i + p.len()) == p {
            assert(x.subrange(i, i + p.len())[0] == x[i]);
            assert(x.subrange(i, i + p.len())[1] == x[i + 1]);
            assert(x.subrange(i, i + p.len())[2] == x[i + 2]);
        }
    }
    lemma_count_zero(x, p);
    assert forall|m: int| 1 <= m < p.len() && m <= x.len() implies #[trigger] x.skip(x.len() - m) != p.take(m) by {
        if x.skip(x.len() - m) == p.take(m) {
            let i = x.len() - m;
            assert(x.skip(i)[0] == x[i] && p.take(m)[0] == p[0]);
            if m >= 2 {
                assert(x.skip(i)[1] == x[i + 1] && p.take(m)[1] == p[1]);
            }
            if m >= 3 {
                assert(x.skip(i)[2] == x[i + 2] && p.take(m)[2] == p[2]);
            }
        }
    }
}

/// A text without list tags has no list tally and lets none run past its end.
pub proof fn lemma_avoid_tally(x: Seq<char>)
    requires
        tags_avoid(x, 'u', 'o'),
    ensures
        ul_tally(x) == 0,
        ol_tally(x) == 0,
        list_safe(x),
{
    lemma_list_patterns();
    lemma_avoid_one(x, "<ul>"@);
    lemma_avoid_one(x, "</ul>"@);
    lemma_avoid_one(x, "<ol>"@);
    lemma_avoid_one(x, "</ol>"@);
}

/// Tallies add up over a concatenation.
pub proof fn lemma_tally_concat(a: Seq<char>, b: Seq<char>)
    requires
        list_safe(a),
    ensures
        ul_tally(a + b) == ul_tally(a) + ul_tally(b),
        ol_tally(a + b) == ol_tally(a) + ol_tally(b),
{
    lemma_list_patterns();
    lemma_count_concat(a, b, "<ul>"@);
    lemma_count_concat(a, b, "</ul>"@);
    lemma_count_concat(a, b, "<ol>"@);
    lemma_count_concat(a, b, "</ol>"@);
}

proof fn lemma_tag_tallies(k: ListKind)
    ensures
        ul_tally(open_tag(k)) == if k == ListKind::Unordered { -1int } else { 0int },
        ol_tally(open_tag(k)) == if k == ListKind::Ordered { -1int } else { 0int },
        ul_tally(close_tag(k)) == if k == ListKind::Unordered { 1int } else { 0int },
        ol_tally(close_tag(k)) == if k == ListKind::Ordered { 1int } else { 0int },
        open_tag(k).last() == '\n',
        close_tag(k).last() == '\n',
{
    lemma_list_patterns();
    reveal_strlit("<ul>\n");
    reveal_strlit("<ol>\n");
    reveal_strlit("</ul>\n");
    reveal_strlit("</ol>\n");
    let ps = seq!["<ul>"@, "</ul>"@, "<ol>"@, "</ol>"@];
    let ts = seq!["<ul>\n"@, "<ol>\n"@, "</ul>\n"@, "</ol>\n"@];
    assert forall|a: int, b: int| 0 <= a < 4 && 0 <= b < 4 implies count_occ(#[trigger] ts[a], #[trigger] ps[b])
        == if ts[a].take(ts[a].len() - 1) == ps[b] { 1nat } else { 0nat } by {
        let t = ts[a];
        let p = ps[b];
        let body = t.take(t.len() - 1);
        let nl = t.skip(t.len() - 1);
        assert(t =~= body + nl);
        assert(nl =~= seq!['\n']);
        assert forall|i: int| 0 <= i && i + p.len() <= body.drop_last().len() implies #[trigger] body.drop_last().subrange(i, i + p.len()) != p by {
            if body.drop_last().subrange(i, i + p.len()) == p {
                assert(body.drop_last().subrange(i, i + p.len())[0] == body[i]);
                assert(body.drop_last().subrange(i, i + p.len())[1] == body[i + 1]);
            }
        }
        lemma_count_zero(body.drop_last(), p);
        assert forall|i: int| 0 <= i && i + p.len() <= nl.len() implies #[trigger] nl.subrange(i, i + p.len()) != p by {}
        lemma_count_zero(nl, p);
        assert(body.drop_last().drop_last() =~= body.take(body.len() - 2));
        if body.len() >= p.len() {
            assert(body.skip(body.len() - p.len()) =~= body.subrange(body.len() - p.len(), body.len() as int));
        }
        assert(count_occ(body, p) == if body == p { 1nat } else { 0nat }) by {
            if body == p {
                assert(body.skip(0) =~= body);
            } else if ends_with_p(body, p) {
                assert(body.skip(body.len() - p.len()) == p);
                if body.len() == p.len() {
                    assert(body.skip(0) =~= body);
                } else {
                    assert(body.skip(1)[0] == body[1]);
                    assert(p[0] == '<');
                }
            }
        }
        lemma_end_safe_last(body, p);
        lemma_count_concat(body, nl, p);
    }
    assert(ts[0] == "<ul>\n"@ && ts[1] == "<ol>\n"@ && ts[2] == "</ul>\n"@ && ts[3] == "</ol>\n"@);
    assert(ps[0] == "<ul>"@ && ps[1] == "</ul>"@ && ps[2] == "<ol>"@ && ps[3] == "</ol>"@);
    assert(count_occ(ts[0], ps[0]) == 1) by { assert("<ul>\n"@.take(4) =~= "<ul>"@); }
    assert(count_occ(ts[0], ps[1]) == 0) by { assert("<ul>\n"@.take(4) != "</ul>"@); }
    assert(count_occ(ts[0], ps[2]) == 0) by { assert("<ul>\n"@.take(4)[1] != "<ol>"@[1]); }
    assert(count_occ(ts[0], ps[3]) == 0) by { assert("<ul>\n"@.take(4) != "</ol>"@); }
    assert(count_occ(ts[1], ps[0]) == 0) by { assert("<ol>\n"@.take(4)[1] != "<ul>"@[1]); }
    assert(count_occ(ts[1], ps[1]) == 0) by { assert("<ol>\n"@.take(4) != "</ul>"@); }
    assert(count_occ(ts[1], ps[2]) == 1) by { assert("<ol>\n"@.take(4) =~= "<ol>"@); }
    assert(count_occ(ts[1], ps[3]) == 0) by { assert("<ol>\n"@.take(4) != "</ol>"@); }
    assert(count_occ(ts[2], ps[0]) == 0) by { assert("</ul>\n"@.take(5) != "<ul>"@); }
    assert(count_occ(ts[2], ps[1]) == 1) by { assert("</ul>\n"@.take(5) =~= "</ul>"@); }
    assert(count_occ(ts[2], ps[2]) == 0) by { assert("</ul>\n"@.take(5) != "<ol>"@); }
    assert(count_occ(ts[2], ps[3]) == 0) by { assert("</ul>\n"@.take(5)[2] != "</ol>"@[2]); }
    assert(count_occ(ts[3], ps[0]) == 0) by { assert("</ol>\n"@.take(5) != "<ul>"@); }
    assert(count_occ(ts[3], ps[1]) == 0) by { assert("</ol>\n"@.take(5)[2] != "</ul>"@[2]); }
    assert(count_occ(ts[3], ps[2]) == 0) by { assert("</ol>\n"@.take(5) != "<ol>"@); }
    assert(count_occ(ts[3], ps[3]) == 1) by { assert("</ol>\n"@.take(5) =~= "</ol>"@); }
}

spec fn ends_with_p(s: Seq<char>, p: Seq<char>) -> bool {
    crate::text::ends_with(s, p)
}

/// Closing all open lists closes each of them once.
pub proof fn lemma_close_all_tally(stack: Seq<ListEntry>)
    ensures
        ul_tally(close_all(stack)) == ul_open(stack),
        ol_tally(close_all(stack)) == ol_open(stack),
        close_all(stack).len() == 0 || close_all(stack).last() == '\n',
        list_safe(close_all(stack)),
    decreases stack.len(),
{
    if stack.len() == 0 {
        lemma_no_lt(Seq::<char>::empty(), 'u', 'o');
        lemma_avoid_tally(Seq::<char>::empty());
    } else {
        let k = stack.last().kind;
        lemma_close_all_tally(stack.drop_last());
        lemma_tag_tallies(k);
        lemma_list_safe_end(close_tag(k));
        lemma_tally_concat(close_tag(k), close_all(stack.drop_last()));
        let c = close_all(stack);
        assert(c == close_tag(k) + close_all(stack.drop_last()));
        if close_all(stack.drop_last()).len() > 0 {
            assert(c.last() == close_all(stack.drop_last()).last());
        } else {
            assert(c =~= close_tag(k));
        }
        lemma_list_safe_end(c);
    }
}

/// Closing the deeper lists closes exactly those that are dropped.
pub proof fn lemma_close_deeper_tally(stack: Seq<ListEntry>, indent: usize)
    ensures
        ul_tally(close_deeper(stack, indent).0) == ul_open(stack) - ul_open(close_deeper(stack, indent).1),
        ol_tally(close_deeper(stack, indent).0) == ol_open(stack) - ol_open(close_deeper(stack, indent).1),
        close_deeper(stack, indent).0.len() == 0 || close_deeper(stack, indent).0.last() == '\n',
        list_safe(close_deeper(stack, indent).0),
    decreases stack.len(),
{
    if stack.len() > 1 && indent < stack.last().indent {
        let k = stack.last().kind;
        lemma_close_deeper_tally(stack.drop_last(), indent);
        let r = close_deeper(stack.drop_last(), indent);
        lemma_tag_tallies(k);
        lemma_list_safe_end(close_tag(k));
        lemma_tally_concat(close_tag(k), r.0);
        let c = close_tag(k) + r.0;
        if r.0.len() > 0 {
            assert(c.last() == r.0.last());
        } else {
            assert(c =~= close_tag(k));
        }
        lemma_list_safe_end(c);
    } else {
        lemma_no_lt(Seq::<char>::empty(), 'u', 'o');
        lemma_avoid_tally(Seq::<char>::empty());
    }
}

proof fn lemma_block_literals_avoid(l1: char, l2: char)
    requires
        free_letter(l1),
        free_letter(l2),
    ensures
        tags_avoid("<p>"@, l1, l2),
        tags_avoid("</p>\n"@, l1, l2),
        tags_avoid("<pre><code>"@, l1, l2),
        tags_avoid("<pre><code class=\"language-"@, l1, l2),
        tags_avoid("</code></pre>\n"@, l1, l2),
        tags_avoid("<hr>\n"@, l1, l2),
        tags_avoid("<blockquote>\n"@, l1, l2),
        tags_avoid("</blockquote>\n"@, l1, l2),
        tags_avoid("\">"@, l1, l2),
        tags_avoid("<li><input type=\"checkbox\" disabled> "@, l1, l2),
        tags_avoid("<li><input type=\"checkbox\" checked disabled> "@, l1, l2),
        tags_avoid("<li>"@, l1, l2),
        tags_avoid("</li>\n"@, l1, l2),
        tags_avoid("\"><a class=\"anchor\" href=\"#"@, l1, l2),
        tags_avoid("\">\u{1F517}</a>"@, l1, l2),
{
    lemma_plain_literals_avoid(l1, l2);
    reveal_strlit("<p>");
    reveal_strlit("</p>\n");
    reveal_strlit("<pre><code>");
    reveal_strlit("<pre><code class=\"language-");
    reveal_strlit("</code></pre>\n");
}

/// The literals of the block renderer that hold no paragraph or code tag.
proof fn lemma_plain_literals_avoid(l1: char, l2: char)
    requires
        quiet_letter(l1),
        quiet_letter(l2),
    ensures
        tags_avoid("<hr>\n"@, l1, l2),
        tags_avoid("<blockquote>\n"@, l1, l2),
        tags_avoid("</blockquote>\n"@, l1, l2),
        tags_avoid("\">"@, l1, l2),
        tags_avoid("<li><input type=\"checkbox\" disabled> "@, l1, l2),
        tags_avoid("<li><input type=\"checkbox\" checked disabled> "@, l1, l2),
        tags_avoid("<li>"@, l1, l2),
        tags_avoid("</li>\n"@, l1, l2),
        tags_avoid("\"><a class=\"anchor\" href=\"#"@, l1, l2),
        tags_avoid("\">\u{1F517}</a>"@, l1, l2),
{
    reveal_strlit("<hr>\n");
    reveal_strlit("<blockquote>\n");
    reveal_strlit("</blockquote>\n");
    reveal_strlit("\">");
    reveal_strlit("<li><input type=\"checkbox\" disabled> ");
    reveal_strlit("<li><input type=\"checkbox\" checked disabled> ");
    reveal_strlit("<li>");
    reveal_strlit("</li>\n");
    reveal_strlit("\"><a class=\"anchor\" href=\"#");
    reveal_strlit("\">\u{1F517}</a>");
}

proof fn lemma_table_literals_avoid(l1: char, l2: char)
    requires
        quiet_letter(l1),
        quiet_letter(l2),
        l1 != 't',
        l2 != 't',
    ensures
        tags_avoid("<table>\n<thead>\n<tr>\n"@, l1, l2),
        tags_avoid("</tr>\n</thead>\n<tbody>\n"@, l1, l2),
        tags_avoid("</tbody>\n</table>\n"@, l1, l2),
        tags_avoid("<tr>\n"@, l1, l2),
        tags_avoid("</tr>\n"@, l1, l2),
        tags_avoid("</th>\n"@, l1, l2),
        tags_avoid("</td>\n"@, l1, l2),
{
    reveal_strlit("<table>\n<thead>\n<tr>\n");
    reveal_strlit("</tr>\n</thead>\n<tbody>\n");
    reveal_strlit("</tbody>\n</table>\n");
    reveal_strlit("<tr>\n");
    reveal_strlit("</tr>\n");
    reveal_strlit("</th>\n");
    reveal_strlit("</td>\n");
}

proof fn lemma_inline_avoid(x: Seq<char>, l1: char, l2: char)
    requires
        quiet_letter(l1),
        quiet_letter(l2),
    ensures
        tags_avoid(inline_html(x), l1, l2),
{
    lemma_inline_tags_avoid(x, 0, l1, l2);
}

proof fn lemma_escape_avoid(x: Seq<char>, l1: char, l2: char)
    requires
        quiet_letter(l1),
        quiet_letter(l2),
    ensures
        tags_avoid(escape(x), l1, l2),
{
    lemma_escape_tags_avoid(x, l1, l2);
}

/// `tags_avoid` of a concatenation of three.
proof fn lemma_avoid3(a: Seq<char>, b: Seq<char>, c: Seq<char>, l1: char, l2: char)
    requires
        quiet_letter(l1),
        quiet_letter(l2),
        tags_avoid(a, l1, l2),
        tags_avoid(b, l1, l2),
        tags_avoid(c, l1, l2),
    ensures
        tags_avoid(a + b + c, l1, l2),
{
    lemma_tags_avoid_concat(a, b, l1, l2);
    lemma_tags_avoid_concat(a + b, c, l1, l2);
}

proof fn lemma_flush_avoid(b: Body, l1: char, l2: char)
    requires
        free_letter(l1),
        free_letter(l2),
    ensures
        tags_avoid(flush(b).0, l1, l2),
        flush(b).1.stack == b.stack,
        flush(b).0.len() == 0 || flush(b).0.last() == '\n',
{
    lemma_block_literals_avoid(l1, l2);
    lemma_no_lt(Seq::<char>::empty(), l1, l2);
    if b.block == BlockState::Paragraph && b.para.len() > 0 {
        lemma_inline_avoid(b.para, l1, l2);
        lemma_avoid3("<p>"@, inline_html(b.para), "</p>\n"@, l1, l2);
        reveal_strlit("</p>\n");
    }
}

proof fn lemma_item_avoid(text: Seq<char>, l1: char, l2: char)
    requires
        quiet_letter(l1),
        quiet_letter(l2),
    ensures
        tags_avoid(item_html(text), l1, l2),
        item_html(text).last() == '\n',
{
    lemma_plain_literals_avoid(l1, l2);
    reveal_strlit("</li>\n");
    if crate::text::starts_with(text, "[ ] "@) {
        lemma_inline_avoid(text.skip("[ ] "@.len() as int), l1, l2);
        lemma_avoid3(
            "<li><input type=\"checkbox\" disabled> "@,
            inline_html(text.skip("[ ] "@.len() as int)),
            "</li>\n"@,
            l1,
            l2,
        );
    } else if crate::text::starts_with(text, "[x] "@) || crate::text::starts_with(text, "[X] "@) {
        lemma_inline_avoid(text.skip("[x] "@.len() as int), l1, l2);
        lemma_avoid3(
            "<li><input type=\"checkbox\" checked disabled> "@,
            inline_html(text.skip("[x] "@.len() as int)),
            "</li>\n"@,
            l1,
            l2,
        );
    } else {
        lemma_inline_avoid(text, l1, l2);
        lemma_avoid3("<li>"@, inline_html(text), "</li>\n"@, l1, l2);
    }
}

proof fn lemma_fence_avoid(lang: Seq<char>, l1: char, l2: char)
    requires
        free_letter(l1),
        free_letter(l2),
    ensures
        tags_avoid(fence_open(lang), l1, l2),
        fence_open(lang).last() == '>',
{
    lemma_block_literals_avoid(l1, l2);
    reveal_strlit("<pre><code>");
    reveal_strlit("\">");
    if lang.len() > 0 {
        lemma_escape_avoid(lang, l1, l2);
        lemma_avoid3("<pre><code class=\"language-"@, escape(lang), "\">"@, l1, l2);
    }
}

proof fn lemma_code_close_avoid(code: Seq<char>, l1: char, l2: char)
    requires
        free_letter(l1),
        free_letter(l2),
    ensures
        tags_avoid(code_close(code), l1, l2),
        code_close(code).last() == '\n',
{
    lemma_block_literals_avoid(l1, l2);
    reveal_strlit("</code></pre>\n");
    lemma_escape_avoid(code, l1, l2);
    lemma_tags_avoid_concat(escape(code), "</code></pre>\n"@, l1, l2);
}

proof fn lemma_slug_no_lt(text: Seq<char>, l1: char, l2: char)
    requires
        quiet_letter(l1),
        quiet_letter(l2),
    ensures
        !slug(text).contains('<'),
{
    lemma_slug_safe(text);
    if slug(text).contains('<') {
        let i = choose|i: int| 0 <= i < slug(text).len() && slug(text)[i] == '<';
        assert(slug_safe(slug(text)[i]));
    }
}

proof fn lemma_heading_avoid(level: int, text: Seq<char>, l1: char, l2: char)
    requires
        quiet_letter(l1),
        quiet_letter(l2),
        1 <= level <= 6,
    ensures
        tags_avoid(heading_html(level, text), l1, l2),
        heading_html(level, text).last() == '\n',
{
    lemma_plain_literals_avoid(l1, l2);
    reveal_strlit("<h");
    reveal_strlit(" id=\"");
    reveal_strlit("</h");
    reveal_strlit(">\n");
    let d = level_digit(level);
    assert(d.len() == 1 && d[0] != '<');
    let open = "<h"@ + d + " id=\""@;
    assert forall|i: int| 0 <= i < open.len() && #[trigger] open[i] == '<' implies i + 2 < open.len() && open[i + 1] != l1 && open[i + 1] != l2
        && (open[i + 1] == '/' ==> open[i + 2] != l1 && open[i + 2] != l2) by {
        assert(i == 0);
    }
    let close = "</h"@ + d + ">\n"@;
    assert forall|i: int| 0 <= i < close.len() && #[trigger] close[i] == '<' implies i + 2 < close.len() && close[i + 1] != l1 && close[i + 1] != l2
        && (close[i + 1] == '/' ==> close[i + 2] != l1 && close[i + 2] != l2) by {
        assert(i == 0);
    }
    lemma_slug_no_lt(text, l1, l2);
    lemma_no_lt(slug(text), l1, l2);
    lemma_inline_avoid(text, l1, l2);
    let t1 = open + slug(text);
    lemma_tags_avoid_concat(open, slug(text), l1, l2);
    lemma_avoid3(t1, "\"><a class=\"anchor\" href=\"#"@, slug(text), l1, l2);
    let t2 = t1 + "\"><a class=\"anchor\" href=\"#"@ + slug(text);
    lemma_avoid3(t2, "\">\u{1F517}</a>"@, inline_html(text), l1, l2);
    let t3 = t2 + "\">\u{1F517}</a>"@ + inline_html(text);
    lemma_tags_avoid_concat(t3, close, l1, l2);
    assert(heading_html(level, text) =~= t3 + close);
}

proof fn lemma_cell_open_avoid(tag: Seq<char>, al: Alignment, l1: char, l2: char)
    requires
        quiet_letter(l1),
        quiet_letter(l2),
        l1 != 't',
        l2 != 't',
        tag == "<th"@ || tag == "<td"@,
    ensures
        tags_avoid(tag + align_style(al) + ">"@, l1, l2),
{
    reveal_strlit("<th");
    reveal_strlit("<td");
    reveal_strlit(">");
    reveal_strlit(" style=\"text-align: center\"");
    reveal_strlit(" style=\"text-align: right\"");
    let o = tag + align_style(al) + ">"@;
    let st = align_style(al);
    assert forall|i: int| 0 <= i < o.len() && #[trigger] o[i] == '<' implies i + 2 < o.len() && o[i + 1] != l1 && o[i + 1] != l2
        && (o[i + 1] == '/' ==> o[i + 2] != l1 && o[i + 2] != l2) by {
        if i >= 3 && i < 3 + st.len() {
            assert(o[i] == st[i - 3]);
        }
        assert(i == 0);
    }
}

proof fn lemma_header_avoid(hs: Seq<Seq<char>>, a: Seq<Alignment>, n: int, l1: char, l2: char)
    requires
        quiet_letter(l1),
        quiet_letter(l2),
        l1 != 't',
        l2 != 't',
    ensures
        tags_avoid(header_html(hs, a, n), l1, l2),
    decreases n,
{
    if n <= 0 {
        lemma_no_lt(Seq::<char>::empty(), l1, l2);
    } else {
        lemma_header_avoid(hs, a, n - 1, l1, l2);
        lemma_plain_literals_avoid(l1, l2);
        lemma_table_literals_avoid(l1, l2);
        lemma_cell_open_avoid("<th"@, align_at(a, n - 1), l1, l2);
        lemma_inline_avoid(cell_at(hs, n - 1), l1, l2);
        let o = "<th"@ + align_style(align_at(a, n - 1)) + ">"@;
        lemma_avoid3(o, inline_html(cell_at(hs, n - 1)), "</th>\n"@, l1, l2);
        let cell = o + inline_html(cell_at(hs, n - 1)) + "</th>\n"@;
        lemma_tags_avoid_concat(header_html(hs, a, n - 1), cell, l1, l2);
        assert(header_html(hs, a, n) =~= header_html(hs, a, n - 1) + cell);
    }
}

proof fn lemma_data_avoid(cells: Seq<Seq<char>>, a: Seq<Alignment>, n: int, l1: char, l2: char)
    requires
        quiet_letter(l1),
        quiet_letter(l2),
        l1 != 't',
        l2 != 't',
    ensures
        tags_avoid(data_cells_html(cells, a, n), l1, l2),
    decreases n,
{
    if n <= 0 {
        lemma_no_lt(Seq::<char>::empty(), l1, l2);
    } else {
        lemma_data_avoid(cells, a, n - 1, l1, l2);
        lemma_plain_literals_avoid(l1, l2);
        lemma_table_literals_avoid(l1, l2);
        lemma_cell_open_avoid("<td"@, align_at(a, n - 1), l1, l2);
        lemma_inline_avoid(cell_at(cells, n - 1), l1, l2);
        let o = "<td"@ + align_style(align_at(a, n - 1)) + ">"@;
        lemma_avoid3(o, inline_html(cell_at(cells, n - 1)), "</td>\n"@, l1, l2);
        let cell = o + inline_html(cell_at(cells, n - 1)) + "</td>\n"@;
        lemma_tags_avoid_concat(data_cells_html(cells, a, n - 1), cell, l1, l2);
        assert(data_cells_html(cells, a, n) =~= data_cells_html(cells, a, n - 1) + cell);
    }
}

proof fn lemma_rows_avoid(rows: Seq<Seq<char>>, a: Seq<Alignment>, cols: int, n: int, l1: char, l2: char)
    requires
        quiet_letter(l1),
        quiet_letter(l2),
        l1 != 't',
        l2 != 't',
    ensures
        tags_avoid(rows_html(rows, a, cols, n), l1, l2),
    decreases n,
{
    if n <= 0 {
        lemma_no_lt(Seq::<char>::empty(), l1, l2);
    } else {
        lemma_rows_avoid(rows, a, cols, n - 1, l1, l2);
        lemma_plain_literals_avoid(l1, l2);
        lemma_table_literals_avoid(l1, l2);
        let d = data_cells_html(split_cells(rows[n - 1]), a, cols);
        lemma_data_avoid(split_cells(rows[n - 1]), a, cols, l1, l2);
        lemma_avoid3("<tr>\n"@, d, "</tr>\n"@, l1, l2);
        lemma_tags_avoid_concat(rows_html(rows, a, cols, n - 1), "<tr>\n"@ + d + "</tr>\n"@, l1, l2);
        assert(rows_html(rows, a, cols, n) =~= rows_html(rows, a, cols, n - 1) + ("<tr>\n"@ + d + "</tr>\n"@));
    }
}

proof fn lemma_table_avoid(header: Seq<char>, sep: Seq<char>, rows: Seq<Seq<char>>, l1: char, l2: char)
    requires
        quiet_letter(l1),
        quiet_letter(l2),
        l1 != 't',
        l2 != 't',
    ensures
        tags_avoid(table_html(header, sep, rows), l1, l2),
        table_html(header, sep, rows).last() == '\n',
{
    let hs = split_cells(header);
    let a = alignments(sep);
    lemma_plain_literals_avoid(l1, l2);
        lemma_table_literals_avoid(l1, l2);
    reveal_strlit("</tbody>\n</table>\n");
    lemma_header_avoid(hs, a, hs.len() as int, l1, l2);
    lemma_rows_avoid(rows, a, hs.len() as int, rows.len() as int, l1, l2);
    let h = header_html(hs, a, hs.len() as int);
    let r = rows_html(rows, a, hs.len() as int, rows.len() as int);
    lemma_avoid3("<table>\n<thead>\n<tr>\n"@, h, "</tr>\n</thead>\n<tbody>\n"@, l1, l2);
    lemma_avoid3("<table>\n<thead>\n<tr>\n"@ + h + "</tr>\n</thead>\n<tbody>\n"@, r, "</tbody>\n</table>\n"@, l1, l2);
}

/// Whether `s` is empty or ends with a newline or `>`.
pub open spec fn ends_ok(s: Seq<char>) -> bool {
    s.len() == 0 || s.last() == '\n' || s.last() == '>'
}

/// The list tallies of what a piece of output emits: closing minus opening.
pub open spec fn tallies(s: Seq<char>) -> (int, int) {
    (ul_tally(s), ol_tally(s))
}

proof fn lemma_join(a: Seq<char>, b: Seq<char>)
    requires
        ends_ok(a),
        ends_ok(b),
    ensures
        ends_ok(a + b),
        ul_tally(a + b) == ul_tally(a) + ul_tally(b),
        ol_tally(a + b) == ol_tally(a) + ol_tally(b),
{
    lemma_list_safe_end(a);
    lemma_tally_concat(a, b);
    if b.len() > 0 {
        assert((a + b).last() == b.last());
    } else {
        assert(a + b =~= a);
    }
}

proof fn lemma_list_item_tally(stack: Seq<ListEntry>, kind: ListKind, indent: usize, text: Seq<char>)
    ensures
        ends_ok(list_item(stack, kind, indent, text).0),
        ul_tally(list_item(stack, kind, indent, text).0) == ul_open(stack) - ul_open(list_item(stack, kind, indent, text).1),
        ol_tally(list_item(stack, kind, indent, text).0) == ol_open(stack) - ol_open(list_item(stack, kind, indent, text).1),
{
    let r = close_deeper(stack, indent);
    lemma_close_deeper_tally(stack, indent);
    let opens = r.1.len() == 0 || indent > r.1.last().indent;
    let o2 = if opens { open_tag(kind) } else { seq![] };
    lemma_tag_tallies(kind);
    lemma_no_lt(Seq::<char>::empty(), 'u', 'o');
    lemma_avoid_tally(Seq::<char>::empty());
    lemma_item_avoid(text, 'u', 'o');
    lemma_avoid_tally(item_html(text));
    lemma_join(r.0, o2);
    lemma_join(r.0 + o2, item_html(text));
    if opens {
        let e = ListEntry { kind, indent };
        assert(r.1.push(e).drop_last() =~= r.1);
        assert(r.1.push(e).last() == e);
    }
}

proof fn lemma_bq(bq: bool)
    ensures
        ends_ok(if bq { "</blockquote>\n"@ } else { seq![] }),
        ul_tally(if bq { "</blockquote>\n"@ } else { seq![] }) == 0,
        ol_tally(if bq { "</blockquote>\n"@ } else { seq![] }) == 0,
        ends_ok(if bq { "<blockquote>\n"@ } else { seq![] }),
        ul_tally(if bq { "<blockquote>\n"@ } else { seq![] }) == 0,
        ol_tally(if bq { "<blockquote>\n"@ } else { seq![] }) == 0,
{
    lemma_block_literals_avoid('u', 'o');
        lemma_table_literals_avoid('u', 'o');
    reveal_strlit("</blockquote>\n");
    reveal_strlit("<blockquote>\n");
    lemma_no_lt(Seq::<char>::empty(), 'u', 'o');
    lemma_avoid_tally(Seq::<char>::empty());
    lemma_avoid_tally("</blockquote>\n"@);
    lemma_avoid_tally("<blockquote>\n"@);
}

proof fn lemma_rest_tally(lines: Seq<Seq<char>>, i: int, b: Body)
    requires
        0 <= i < lines.len(),
    ensures
        ({
            let r = step_rest(lines, i, b);
            &&& ends_ok(r.0)
            &&& ul_tally(r.0) == ul_open(b.stack) - ul_open(r.2.stack)
            &&& ol_tally(r.0) == ol_open(b.stack) - ol_open(r.2.stack)
            &&& i < r.1 <= lines.len()
        }),
{
    let line = lines[i];
    let tr = crate::text::trim_end(line);
    let f = flush(b);
    lemma_flush_avoid(b, 'u', 'o');
    lemma_avoid_tally(f.0);
    lemma_close_all_tally(f.1.stack);
    lemma_join(f.0, close_all(f.1.stack));
    let fc = f.0 + close_all(f.1.stack);
    lemma_block_literals_avoid('u', 'o');
        lemma_table_literals_avoid('u', 'o');
    lemma_no_lt(Seq::<char>::empty(), 'u', 'o');
    lemma_avoid_tally(Seq::<char>::empty());
    assert(ul_open(Seq::<ListEntry>::empty()) == 0);
    assert(ol_open(Seq::<ListEntry>::empty()) == 0);
    if crate::markdown::block::is_rule(tr) {
        reveal_strlit("<hr>\n");
        lemma_avoid_tally("<hr>\n"@);
        lemma_join(fc, "<hr>\n"@);
    } else if crate::text::starts_with(tr, "> "@) || tr == seq!['>'] {
        let rest = if crate::text::starts_with(tr, "> "@) { tr.skip("> "@.len() as int) } else { seq![] };
        let open = if f.1.block != BlockState::Blockquote { "<blockquote>\n"@ } else { seq![] };
        lemma_bq(f.1.block != BlockState::Blockquote);
        lemma_join(fc, open);
        lemma_inline_avoid(rest, 'u', 'o');
        lemma_avoid3("<p>"@, inline_html(rest), "</p>\n"@, 'u', 'o');
        let p = "<p>"@ + inline_html(rest) + "</p>\n"@;
        reveal_strlit("</p>\n");
        lemma_avoid_tally(p);
        lemma_join(fc + open, p);
        assert(step_rest(lines, i, b).0 =~= fc + open + p);
    } else if crate::markdown::block::parse_bullet(line) is Some {
        let (ind, ts) = crate::markdown::block::parse_bullet(line).unwrap();
        lemma_list_item_tally(f.1.stack, ListKind::Unordered, ind as usize, line.skip(ts));
        lemma_join(f.0, list_item(f.1.stack, ListKind::Unordered, ind as usize, line.skip(ts)).0);
    } else if crate::markdown::block::parse_numbered(line) is Some {
        let (ind, ts) = crate::markdown::block::parse_numbered(line).unwrap();
        lemma_list_item_tally(f.1.stack, ListKind::Ordered, ind as usize, line.skip(ts));
        lemma_join(f.0, list_item(f.1.stack, ListKind::Ordered, ind as usize, line.skip(ts)).0);
    } else if crate::text::starts_with(line, "    "@) && b.stack.len() == 0 && b.block == BlockState::Idle {
        reveal_strlit("<pre><code>");
        lemma_avoid_tally("<pre><code>"@);
        lemma_join(f.0, "<pre><code>"@);
    } else if tr.contains('|') && i + 1 < lines.len() && crate::markdown::table::is_separator(lines[i + 1]) {
        let j = table_end(lines, i + 2);
        lemma_table_end(lines, i + 2);
        let t = table_html(tr, crate::text::trim(lines[i + 1]), trimmed_rows(lines, i + 2, j));
        lemma_table_avoid(tr, crate::text::trim(lines[i + 1]), trimmed_rows(lines, i + 2, j), 'u', 'o');
        lemma_avoid_tally(t);
        lemma_join(fc, t);
    } else {
        lemma_close_all_tally(b.stack);
        lemma_bq(b.block == BlockState::Blockquote);
        lemma_join(close_all(b.stack), if b.block == BlockState::Blockquote { "</blockquote>\n"@ } else { seq![] });
    }
}

proof fn lemma_plain_tally(lines: Seq<Seq<char>>, i: int, b: Body)
    requires
        0 <= i < lines.len(),
    ensures
        ({
            let r = step_plain(lines, i, b);
            &&& ends_ok(r.0)
            &&& ul_tally(r.0) == ul_open(b.stack) - ul_open(r.2.stack)
            &&& ol_tally(r.0) == ol_open(b.stack) - ol_open(r.2.stack)
            &&& i < r.1 <= lines.len()
        }),
{
    let line = lines[i];
    let tr = crate::text::trim_end(line);
    let f = flush(b);
    lemma_flush_avoid(b, 'u', 'o');
    lemma_avoid_tally(f.0);
    lemma_close_all_tally(f.1.stack);
    lemma_join(f.0, close_all(f.1.stack));
    let fc = f.0 + close_all(f.1.stack);
    assert(ul_open(Seq::<ListEntry>::empty()) == 0);
    assert(ol_open(Seq::<ListEntry>::empty()) == 0);
    if tr.len() == 0 {
        lemma_bq(f.1.block == BlockState::Blockquote);
        lemma_join(fc, if f.1.block == BlockState::Blockquote { "</blockquote>\n"@ } else { seq![] });
    } else if crate::text::starts_with(tr, "```"@) {
        let lang = crate::text::trim(tr.skip("```"@.len() as int));
        lemma_fence_avoid(lang, 'u', 'o');
        lemma_avoid_tally(fence_open(lang));
        lemma_join(fc, fence_open(lang));
    } else {
        match crate::markdown::block::parse_heading(tr) {
            Some((level, ts)) => {
                lemma_hash_run_nonneg(tr, 0);
                lemma_heading_avoid(level, tr.skip(ts), 'u', 'o');
                lemma_avoid_tally(heading_html(level, tr.skip(ts)));
                lemma_join(fc, heading_html(level, tr.skip(ts)));
            },
            None => {
                lemma_rest_tally(lines, i, b);
            },
        }
    }
}

proof fn lemma_hash_run_nonneg(s: Seq<char>, k: int)
    ensures
        crate::markdown::block::hash_run(s, k) >= 0,
    decreases s.len() - k,
{
    if 0 <= k < s.len() && s[k] == '#' {
        lemma_hash_run_nonneg(s, k + 1);
    }
}

proof fn lemma_step_tally(lines: Seq<Seq<char>>, i: int, b: Body)
    requires
        0 <= i < lines.len(),
    ensures
        ({
            let r = step(lines, i, b);
            &&& ends_ok(r.0)
            &&& ul_tally(r.0) == ul_open(b.stack) - ul_open(r.2.stack)
            &&& ol_tally(r.0) == ol_open(b.stack) - ol_open(r.2.stack)
            &&& i < r.1 <= lines.len()
        }),
{
    let line = lines[i];
    let tr = crate::text::trim_end(line);
    lemma_no_lt(Seq::<char>::empty(), 'u', 'o');
    lemma_avoid_tally(Seq::<char>::empty());
    lemma_code_close_avoid(b.code, 'u', 'o');
    lemma_avoid_tally(code_close(b.code));
    if b.block == BlockState::FencedCode {
    } else if b.block == BlockState::IndentedCode {
        if crate::text::starts_with(line, "    "@) || (tr.len() == 0 && crate::markdown::body::peek_from(lines, i + 1)) {
        } else {
            let b2 = Body { block: BlockState::Idle, para: b.para, code: seq![], stack: b.stack };
            lemma_plain_tally(lines, i, b2);
            lemma_join(code_close(b.code), step_plain(lines, i, b2).0);
        }
    } else {
        lemma_plain_tally(lines, i, b);
    }
}

/// What is emitted after the last line closes the lists still open.
proof fn lemma_finish_tally(b: Body)
    ensures
        ul_tally(finish(b)) == ul_open(b.stack),
        ol_tally(finish(b)) == ol_open(b.stack),
{
    let f = flush(b);
    lemma_flush_avoid(b, 'u', 'o');
    lemma_avoid_tally(f.0);
    lemma_close_all_tally(f.1.stack);
    lemma_join(f.0, close_all(f.1.stack));
    let fc = f.0 + close_all(f.1.stack);
    let bq = if f.1.block == BlockState::Blockquote { "</blockquote>\n"@ } else { seq![] };
    lemma_bq(f.1.block == BlockState::Blockquote);
    lemma_join(fc, bq);
    lemma_no_lt(Seq::<char>::empty(), 'u', 'o');
    lemma_avoid_tally(Seq::<char>::empty());
    lemma_code_close_avoid(f.1.code, 'u', 'o');
    lemma_avoid_tally(code_close(f.1.code));
    let cc = if f.1.block == BlockState::FencedCode || f.1.block == BlockState::IndentedCode {
        code_close(f.1.code)
    } else {
        seq![]
    };
    lemma_join(fc + bq, cc);
}

/// The HTML for the lines from `i` on closes every list it opens, and the
/// lists open in `b` as well.
pub proof fn lemma_body_from_tally(lines: Seq<Seq<char>>, i: int, b: Body)
    ensures
        ul_tally(body_from(lines, i, b)) == ul_open(b.stack),
        ol_tally(body_from(lines, i, b)) == ol_open(b.stack),
    decreases lines.len() - i,
{
    if i < 0 || i >= lines.len() {
        lemma_finish_tally(b);
    } else {
        let r = step(lines, i, b);
        lemma_step_tally(lines, i, b);
        lemma_body_from_tally(lines, r.1, r.2);
        lemma_list_safe_end(r.0);
        lemma_tally_concat(r.0, body_from(lines, r.1, r.2));
    }
}

/// Every `<ul>` and every `<ol>` in a rendered body is closed: the body
/// holds as many `</ul>` as `<ul>`, and as many `</ol>` as `<ol>`.
pub proof fn lemma_lists_balanced(source: Seq<char>)
    ensures
        count_occ(body_html(source), "</ul>"@) == count_occ(body_html(source), "<ul>"@),
        count_occ(body_html(source), "</ol>"@) == count_occ(body_html(source), "<ol>"@),
{
    lemma_body_from_tally(source_lines(source), 0, init_body());
    assert(init_body().stack.len() == 0);
}

/// Closing minus opening `<table>` tags in `s`.
pub open spec fn table_tally(s: Seq<char>) -> int {
    count_occ(s, "</table>"@) - count_occ(s, "<table>"@)
}

/// Whether every `<` in `s` has two more characters after it, and no
/// `<table` or `</table` starts at it: `<t` is not followed by `a`, and
/// `</t` has a fourth character, not `a`.
pub open spec fn no_table_word(x: Seq<char>) -> bool {
    forall|i: int|
        0 <= i < x.len() && #[trigger] x[i] == '<' ==> i + 2 < x.len() && (x[i + 1] == 't' ==> x[i + 2] != 'a')
            && (x[i + 1] == '/' && x[i + 2] == 't' ==> i + 3 < x.len() && x[i + 3] != 'a')
}

proof fn lemma_table_patterns()
    ensures
        "<table>"@ == seq!['<', 't', 'a', 'b', 'l', 'e', '>'],
        "</table>"@ == seq!['<', '/', 't', 'a', 'b', 'l', 'e', '>'],
{
    reveal_strlit("<table>");
    reveal_strlit("</table>");
}

proof fn lemma_word_concat(a: Seq<char>, b: Seq<char>)
    requires
        no_table_word(a),
        no_table_word(b),
    ensures
        no_table_word(a + b),
{
    let c = a + b;
    assert forall|i: int| 0 <= i < c.len() && #[trigger] c[i] == '<' implies i + 2 < c.len() && (c[i + 1] == 't' ==> c[i + 2] != 'a')
        && (c[i + 1] == '/' && c[i + 2] == 't' ==> i + 3 < c.len() && c[i + 3] != 'a') by {
        if i < a.len() {
            assert(a[i] == '<');
            assert(c[i + 1] == a[i + 1] && c[i + 2] == a[i + 2]);
            if i + 3 < a.len() {
                assert(c[i + 3] == a[i + 3]);
            }
        } else {
            let j = i - a.len();
            assert(b[j] == '<');
            assert(c[i + 1] == b[j + 1] && c[i + 2] == b[j + 2]);
            if j + 3 < b.len() {
                assert(c[i + 3] == b[j + 3]);
            }
        }
    }
}

proof fn lemma_word_tally(x: Seq<char>)
    requires
        no_table_word(x),
    ensures
        count_occ(x, "<table>"@) == 0,
        count_occ(x, "</table>"@) == 0,
        end_safe(x, "<table>"@),
        end_safe(x, "</table>"@),
{
    lemma_table_patterns();
    let p1 = "<table>"@;
    let p2 = "</table>"@;
    assert forall|i: int| 0 <= i && i + p1.len() <= x.len() implies #[trigger] x.subrange(i, i + p1.len()) != p1 by {
        if x.subrange(i, i + p1.len()) == p1 {
            assert(x.subrange(i, i + p1.len())[0] == x[i]);
            assert(x.subrange(i, i + p1.len())[1] == x[i + 1]);
            assert(x.subrange(i, i + p1.len())[2] == x[i + 2]);
        }
    }
    lemma_count_zero(x, p1);
    assert forall|i: int| 0 <= i && i + p2.len() <= x.len() implies #[trigger] x.subrange(i, i + p2.len()) != p2 by {
        if x.subrange(i, i + p2.len()) == p2 {
            assert(x.subrange(i, i + p2.len())[0] == x[i]);
            assert(x.subrange(i, i + p2.len())[1] == x[i + 1]);
            assert(x.subrange(i, i + p2.len())[2] == x[i + 2]);
            assert(x.subrange(i, i + p2.len())[3] == x[i + 3]);
        }
    }
    lemma_count_zero(x, p2);
    assert forall|m: int| 1 <= m < p1.len() && m <= x.len() implies #[trigger] x.skip(x.len() - m) != p1.take(m) by {
        if x.skip(x.len() - m) == p1.take(m) {
            let i = x.len() - m;
            assert(x.skip(i)[0] == x[i] && p1.take(m)[0] == p1[0]);
            if m >= 2 {
                assert(x.skip(i)[1] == x[i + 1] && p1.take(m)[1] == p1[1]);
            }
            if m >= 3 {
                assert(x.skip(i)[2] == x[i + 2] && p1.take(m)[2] == p1[2]);
            }
        }
    }
    assert forall|m: int| 1 <= m < p2.len() && m <= x.len() implies #[trigger] x.skip(x.len() - m) != p2.take(m) by {
        if x.skip(x.len() - m) == p2.take(m) {
            let i = x.len() - m;
            assert(x.skip(i)[0] == x[i] && p2.take(m)[0] == p2[0]);
            if m >= 2 {
                assert(x.skip(i)[1] == x[i + 1] && p2.take(m)[1] == p2[1]);
            }
            if m >= 3 {
                assert(x.skip(i)[2] == x[i + 2] && p2.take(m)[2] == p2[2]);
            }
            if m >= 4 {
                assert(x.skip(i)[3] == x[i + 3] && p2.take(m)[3] == p2[3]);
            }
        }
    }
}

proof fn lemma_table_safe_end(s: Seq<char>)
    requires
        ends_ok(s),
    ensures
        end_safe(s, "<table>"@),
        end_safe(s, "</table>"@),
{
    lemma_table_patterns();
    lemma_end_safe_last(s, "<table>"@);
    lemma_end_safe_last(s, "</table>"@);
}

proof fn lemma_join_t(a: Seq<char>, b: Seq<char>)
    requires
        ends_ok(a),
        ends_ok(b),
    ensures
        ends_ok(a + b),
        table_tally(a + b) == table_tally(a) + table_tally(b),
{
    lemma_table_safe_end(a);
    lemma_table_patterns();
    lemma_count_concat(a, b, "<table>"@);
    lemma_count_concat(a, b, "</table>"@);
    if b.len() > 0 {
        assert((a + b).last() == b.last());
    } else {
        assert(a + b =~= a);
    }
}

/// A piece without `<t…` tags has no table tally.
proof fn lemma_t_free(x: Seq<char>)
    requires
        tags_avoid(x, 't', 't'),
    ensures
        table_tally(x) == 0,
{
    lemma_word_tally(x);
}

proof fn lemma_word_literals()
    ensures
        no_table_word("\n<thead>\n<tr>\n"@),
        no_table_word("</tr>\n</thead>\n<tbody>\n"@),
        no_table_word("</tbody>\n"@),
        no_table_word("<tr>\n"@),
        no_table_word("</tr>\n"@),
        no_table_word("</th>\n"@),
        no_table_word("</td>\n"@),
        no_table_word(">"@),
{
    reveal_strlit("\n<thead>\n<tr>\n");
    reveal_strlit("</tr>\n</thead>\n<tbody>\n");
    reveal_strlit("</tbody>\n");
    reveal_strlit("<tr>\n");
    reveal_strlit("</tr>\n");
    reveal_strlit("</th>\n");
    reveal_strlit("</td>\n");
    reveal_strlit(">");
}

proof fn lemma_cell_open_word(tag: Seq<char>, al: Alignment)
    requires
        tag == "<th"@ || tag == "<td"@,
    ensures
        no_table_word(tag + align_style(al) + ">"@),
{
    reveal_strlit("<th");
    reveal_strlit("<td");
    reveal_strlit(">");
    reveal_strlit(" style=\"text-align: center\"");
    reveal_strlit(" style=\"text-align: right\"");
    let o = tag + align_style(al) + ">"@;
    let st = align_style(al);
    assert forall|i: int| 0 <= i < o.len() && #[trigger] o[i] == '<' implies i + 2 < o.len() && (o[i + 1] == 't' ==> o[i + 2] != 'a')
        && (o[i + 1] == '/' && o[i + 2] == 't' ==> i + 3 < o.len() && o[i + 3] != 'a') by {
        if i >= 3 && i < 3 + st.len() {
            assert(o[i] == st[i - 3]);
        }
        assert(i == 0);
    }
}

proof fn lemma_inline_word(x: Seq<char>)
    ensures
        no_table_word(inline_html(x)),
{
    lemma_inline_tags_avoid(x, 0, 't', 't');
}

proof fn lemma_word3(a: Seq<char>, b: Seq<char>, c: Seq<char>)
    requires
        no_table_word(a),
        no_table_word(b),
        no_table_word(c),
    ensures
        no_table_word(a + b + c),
{
    lemma_word_concat(a, b);
    lemma_word_concat(a + b, c);
}

proof fn lemma_header_word(hs: Seq<Seq<char>>, a: Seq<Alignment>, n: int)
    ensures
        no_table_word(header_html(hs, a, n)),
    decreases n,
{
    if n <= 0 {
        lemma_no_lt(Seq::<char>::empty(), 't', 't');
    } else {
        lemma_header_word(hs, a, n - 1);
        lemma_word_literals();
        lemma_cell_open_word("<th"@, align_at(a, n - 1));
        lemma_inline_word(cell_at(hs, n - 1));
        let o = "<th"@ + align_style(align_at(a, n - 1)) + ">"@;
        lemma_word3(o, inline_html(cell_at(hs, n - 1)), "</th>\n"@);
        let cell = o + inline_html(cell_at(hs, n - 1)) + "</th>\n"@;
        lemma_word_concat(header_html(hs, a, n - 1), cell);
        assert(header_html(hs, a, n) =~= header_html(hs, a, n - 1) + cell);
    }
}

proof fn lemma_data_word(cells: Seq<Seq<char>>, a: Seq<Alignment>, n: int)
    ensures
        no_table_word(data_cells_html(cells, a, n)),
    decreases n,
{
    if n <= 0 {
        lemma_no_lt(Seq::<char>::empty(), 't', 't');
    } else {
        lemma_data_word(cells, a, n - 1);
        lemma_word_literals();
        lemma_cell_open_word("<td"@, align_at(a, n - 1));
        lemma_inline_word(cell_at(cells, n - 1));
        let o = "<td"@ + align_style(align_at(a, n - 1)) + ">"@;
        lemma_word3(o, inline_html(cell_at(cells, n - 1)), "</td>\n"@);
        let cell = o + inline_html(cell_at(cells, n - 1)) + "</td>\n"@;
        lemma_word_concat(data_cells_html(cells, a, n - 1), cell);
        assert(data_cells_html(cells, a, n) =~= data_cells_html(cells, a, n - 1) + cell);
    }
}

proof fn lemma_rows_word(rows: Seq<Seq<char>>, a: Seq<Alignment>, cols: int, n: int)
    ensures
        no_table_word(rows_html(rows, a, cols, n)),
    decreases n,
{
    if n <= 0 {
        lemma_no_lt(Seq::<char>::empty(), 't', 't');
    } else {
        lemma_rows_word(rows, a, cols, n - 1);
        lemma_word_literals();
        let d = data_cells_html(split_cells(rows[n - 1]), a, cols);
        lemma_data_word(split_cells(rows[n - 1]), a, cols);
        lemma_word3("<tr>\n"@, d, "</tr>\n"@);
        lemma_word_concat(rows_html(rows, a, cols, n - 1), "<tr>\n"@ + d + "</tr>\n"@);
        assert(rows_html(rows, a, cols, n) =~= rows_html(rows, a, cols, n - 1) + ("<tr>\n"@ + d + "</tr>\n"@));
    }
}

proof fn lemma_count_word_literal(w: Seq<char>, p: Seq<char>)
    requires
        w == p + seq![w.last()],
        p.len() >= 2,
        p.last() == '>',
        w.last() == '\n' || w.last() == '>',
        forall|k: int| 0 <= k < p.len() - 1 ==> p[k] != '\n' && p[k] != '>',
    ensures
        count_occ(w, p) == 1,
{
    let d = w.drop_last();
    assert(d =~= p);
    assert forall|i: int| 0 <= i && i + p.len() <= p.drop_last().len() implies #[trigger] p.drop_last().subrange(i, i + p.len()) != p by {}
    lemma_count_zero(p.drop_last(), p);
    assert(p.skip(0) =~= p);
    assert(count_occ(p, p) == 1);
    let t = seq![w.last()];
    assert forall|i: int| 0 <= i && i + p.len() <= t.len() implies #[trigger] t.subrange(i, i + p.len()) != p by {}
    lemma_count_zero(t, p);
    lemma_end_safe_last(p, p);
    lemma_count_concat(p, t, p);
    assert(w =~= p + t);
}

/// A table opens one `<table>` and closes it.
proof fn lemma_table_tally_zero(header: Seq<char>, sep: Seq<char>, rows: Seq<Seq<char>>)
    ensures
        table_tally(table_html(header, sep, rows)) == 0,
        ends_ok(table_html(header, sep, rows)),
{
    lemma_table_patterns();
    let hs = split_cells(header);
    let a = alignments(sep);
    let h = header_html(hs, a, hs.len() as int);
    let r = rows_html(rows, a, hs.len() as int, rows.len() as int);
    lemma_header_word(hs, a, hs.len() as int);
    lemma_rows_word(rows, a, hs.len() as int, rows.len() as int);
    lemma_word_literals();
    reveal_strlit("<table>\n<thead>\n<tr>\n");
    reveal_strlit("</tbody>\n</table>\n");
    reveal_strlit("</table>\n");
    reveal_strlit("<table>");
    reveal_strlit("\n<thead>\n<tr>\n");
    reveal_strlit("</tbody>\n");
    let fa1 = "<table>"@;
    let fa2 = "\n<thead>\n<tr>\n"@;
    let mid = fa2 + h + "</tr>\n</thead>\n<tbody>\n"@ + r + "</tbody>\n"@;
    lemma_word3(fa2, h, "</tr>\n</thead>\n<tbody>\n"@);
    lemma_word3(fa2 + h + "</tr>\n</thead>\n<tbody>\n"@, r, "</tbody>\n"@);
    lemma_word_tally(mid);
    let fc = "</table>\n"@;
    assert(fc == "</table>"@ + seq!['\n']);
    lemma_count_word_literal(fc, "</table>"@);
    assert forall|i: int| 0 <= i && i + 7 <= fc.len() implies #[trigger] fc.subrange(i, i + 7) != "<table>"@ by {
        if fc.subrange(i, i + 7) == "<table>"@ {
            assert(fc.subrange(i, i + 7)[0] == fc[i]);
            assert(fc.subrange(i, i + 7)[1] == fc[i + 1]);
        }
    }
    lemma_count_zero(fc, "<table>"@);
    assert forall|i: int| 0 <= i && i + 8 <= fa1.len() implies #[trigger] fa1.subrange(i, i + 8) != "</table>"@ by {}
    lemma_count_zero(fa1, "</table>"@);
    assert(fa1.drop_last().len() == 6);
    assert forall|i: int| 0 <= i && i + 7 <= fa1.drop_last().len() implies #[trigger] fa1.drop_last().subrange(i, i + 7) != "<table>"@ by {}
    lemma_count_zero(fa1.drop_last(), "<table>"@);
    assert(fa1.skip(0) =~= fa1);
    assert(count_occ(fa1, "<table>"@) == 1);
    lemma_end_safe_last(fa1, "<table>"@);
    lemma_end_safe_last(fa1, "</table>"@);
    lemma_count_concat(fa1, mid + fc, "<table>"@);
    lemma_count_concat(fa1, mid + fc, "</table>"@);
    lemma_count_concat(mid, fc, "<table>"@);
    lemma_count_concat(mid, fc, "</table>"@);
    assert(table_html(header, sep, rows) =~= fa1 + (mid + fc));
}

proof fn lemma_list_tags_avoid(k: ListKind, l1: char, l2: char)
    requires
        quiet_letter(l1),
        quiet_letter(l2),
        l1 != 'u' && l1 != 'o',
        l2 != 'u' && l2 != 'o',
    ensures
        tags_avoid(open_tag(k), l1, l2),
        tags_avoid(close_tag(k), l1, l2),
{
    reveal_strlit("<ul>\n");
    reveal_strlit("<ol>\n");
    reveal_strlit("</ul>\n");
    reveal_strlit("</ol>\n");
}

proof fn lemma_close_all_avoid(stack: Seq<ListEntry>, l1: char, l2: char)
    requires
        quiet_letter(l1),
        quiet_letter(l2),
        l1 != 'u' && l1 != 'o',
        l2 != 'u' && l2 != 'o',
    ensures
        tags_avoid(close_all(stack), l1, l2),
    decreases stack.len(),
{
    if stack.len() == 0 {
        lemma_no_lt(Seq::<char>::empty(), l1, l2);
    } else {
        lemma_close_all_avoid(stack.drop_last(), l1, l2);
        lemma_list_tags_avoid(stack.last().kind, l1, l2);
        lemma_tags_avoid_concat(close_tag(stack.last().kind), close_all(stack.drop_last()), l1, l2);
    }
}

proof fn lemma_close_deeper_avoid(stack: Seq<ListEntry>, indent: usize, l1: char, l2: char)
    requires
        quiet_letter(l1),
        quiet_letter(l2),
        l1 != 'u' && l1 != 'o',
        l2 != 'u' && l2 != 'o',
    ensures
        tags_avoid(close_deeper(stack, indent).0, l1, l2),
    decreases stack.len(),
{
    if stack.len() > 1 && indent < stack.last().indent {
        lemma_close_deeper_avoid(stack.drop_last(), indent, l1, l2);
        lemma_list_tags_avoid(stack.last().kind, l1, l2);
        lemma_tags_avoid_concat(close_tag(stack.last().kind), close_deeper(stack.drop_last(), indent).0, l1, l2);
    } else {
        lemma_no_lt(Seq::<char>::empty(), l1, l2);
    }
}

proof fn lemma_list_item_avoid(stack: Seq<ListEntry>, kind: ListKind, indent: usize, text: Seq<char>, l1: char, l2: char)
    requires
        quiet_letter(l1),
        quiet_letter(l2),
        l1 != 'u' && l1 != 'o',
        l2 != 'u' && l2 != 'o',
    ensures
        tags_avoid(list_item(stack, kind, indent, text).0, l1, l2),
{
    let r = close_deeper(stack, indent);
    lemma_close_deeper_avoid(stack, indent, l1, l2);
    lemma_list_tags_avoid(kind, l1, l2);
    lemma_no_lt(Seq::<char>::empty(), l1, l2);
    lemma_item_avoid(text, l1, l2);
    let opens = r.1.len() == 0 || indent > r.1.last().indent;
    let o2 = if opens { open_tag(kind) } else { seq![] };
    lemma_avoid3(r.0, o2, item_html(text), l1, l2);
}

proof fn lemma_rest_t(lines: Seq<Seq<char>>, i: int, b: Body)
    requires
        0 <= i < lines.len(),
    ensures
        ends_ok(step_rest(lines, i, b).0),
        table_tally(step_rest(lines, i, b).0) == 0,
{
    lemma_rest_tally(lines, i, b);
    let line = lines[i];
    let tr = crate::text::trim_end(line);
    let f = flush(b);
    lemma_flush_avoid(b, 't', 't');
    lemma_close_all_avoid(f.1.stack, 't', 't');
    lemma_block_literals_avoid('t', 't');
    lemma_no_lt(Seq::<char>::empty(), 't', 't');
    let fc = f.0 + close_all(f.1.stack);
    lemma_tags_avoid_concat(f.0, close_all(f.1.stack), 't', 't');
    if crate::markdown::block::is_rule(tr) {
        reveal_strlit("<hr>\n");
        lemma_tags_avoid_concat(fc, "<hr>\n"@, 't', 't');
        lemma_t_free(step_rest(lines, i, b).0);
    } else if crate::text::starts_with(tr, "> "@) || tr == seq!['>'] {
        let rest = if crate::text::starts_with(tr, "> "@) { tr.skip("> "@.len() as int) } else { seq![] };
        let open = if f.1.block != BlockState::Blockquote { "<blockquote>\n"@ } else { seq![] };
        lemma_inline_avoid(rest, 't', 't');
        lemma_avoid3(fc, open, "<p>"@, 't', 't');
        lemma_avoid3(fc + open + "<p>"@, inline_html(rest), "</p>\n"@, 't', 't');
        lemma_t_free(step_rest(lines, i, b).0);
    } else if crate::markdown::block::parse_bullet(line) is Some {
        let (ind, ts) = crate::markdown::block::parse_bullet(line).unwrap();
        lemma_list_item_avoid(f.1.stack, ListKind::Unordered, ind as usize, line.skip(ts), 't', 't');
        lemma_tags_avoid_concat(f.0, list_item(f.1.stack, ListKind::Unordered, ind as usize, line.skip(ts)).0, 't', 't');
        lemma_t_free(step_rest(lines, i, b).0);
    } else if crate::markdown::block::parse_numbered(line) is Some {
        let (ind, ts) = crate::markdown::block::parse_numbered(line).unwrap();
        lemma_list_item_avoid(f.1.stack, ListKind::Ordered, ind as usize, line.skip(ts), 't', 't');
        lemma_tags_avoid_concat(f.0, list_item(f.1.stack, ListKind::Ordered, ind as usize, line.skip(ts)).0, 't', 't');
        lemma_t_free(step_rest(lines, i, b).0);
    } else if crate::text::starts_with(line, "    "@) && b.stack.len() == 0 && b.block == BlockState::Idle {
        lemma_tags_avoid_concat(f.0, "<pre><code>"@, 't', 't');
        lemma_t_free(step_rest(lines, i, b).0);
    } else if tr.contains('|') && i + 1 < lines.len() && crate::markdown::table::is_separator(lines[i + 1]) {
        let j = table_end(lines, i + 2);
        let t = table_html(tr, crate::text::trim(lines[i + 1]), trimmed_rows(lines, i + 2, j));
        lemma_table_tally_zero(tr, crate::text::trim(lines[i + 1]), trimmed_rows(lines, i + 2, j));
        lemma_t_free(fc);
        lemma_flush_avoid(b, 'u', 'o');
        lemma_close_all_tally(f.1.stack);
        lemma_join(f.0, close_all(f.1.stack));
        lemma_join_t(fc, t);
    } else {
        lemma_close_all_avoid(b.stack, 't', 't');
        let bq = if b.block == BlockState::Blockquote { "</blockquote>\n"@ } else { seq![] };
        lemma_tags_avoid_concat(close_all(b.stack), bq, 't', 't');
        lemma_t_free(step_rest(lines, i, b).0);
    }
}

proof fn lemma_plain_t(lines: Seq<Seq<char>>, i: int, b: Body)
    requires
        0 <= i < lines.len(),
    ensures
        ends_ok(step_plain(lines, i, b).0),
        table_tally(step_plain(lines, i, b).0) == 0,
{
    lemma_plain_tally(lines, i, b);
    let line = lines[i];
    let tr = crate::text::trim_end(line);
    let f = flush(b);
    lemma_flush_avoid(b, 't', 't');
    lemma_close_all_avoid(f.1.stack, 't', 't');
    lemma_block_literals_avoid('t', 't');
    lemma_no_lt(Seq::<char>::empty(), 't', 't');
    let fc = f.0 + close_all(f.1.stack);
    lemma_tags_avoid_concat(f.0, close_all(f.1.stack), 't', 't');
    if tr.len() == 0 {
        let bq = if f.1.block == BlockState::Blockquote { "</blockquote>\n"@ } else { seq![] };
        lemma_tags_avoid_concat(fc, bq, 't', 't');
        lemma_t_free(step_plain(lines, i, b).0);
    } else if crate::text::starts_with(tr, "```"@) {
        let lang = crate::text::trim(tr.skip("```"@.len() as int));
        lemma_fence_avoid(lang, 't', 't');
        lemma_tags_avoid_concat(fc, fence_open(lang), 't', 't');
        lemma_t_free(step_plain(lines, i, b).0);
    } else {
        match crate::markdown::block::parse_heading(tr) {
            Some((level, ts)) => {
                lemma_hash_run_nonneg(tr, 0);
                lemma_heading_avoid(level, tr.skip(ts), 't', 't');
                lemma_tags_avoid_concat(fc, heading_html(level, tr.skip(ts)), 't', 't');
                lemma_t_free(step_plain(lines, i, b).0);
            },
            None => {
                lemma_rest_t(lines, i, b);
            },
        }
    }
}

proof fn lemma_step_t(lines: Seq<Seq<char>>, i: int, b: Body)
    requires
        0 <= i < lines.len(),
    ensures
        ends_ok(step(lines, i, b).0),
        table_tally(step(lines, i, b).0) == 0,
{
    lemma_step_tally(lines, i, b);
    let line = lines[i];
    let tr = crate::text::trim_end(line);
    lemma_no_lt(Seq::<char>::empty(), 't', 't');
    lemma_t_free(Seq::<char>::empty());
    lemma_code_close_avoid(b.code, 't', 't');
    lemma_t_free(code_close(b.code));
    if b.block == BlockState::FencedCode {
    } else if b.block == BlockState::IndentedCode {
        if crate::text::starts_with(line, "    "@) || (tr.len() == 0 && crate::markdown::body::peek_from(lines, i + 1)) {
        } else {
            let b2 = Body { block: BlockState::Idle, para: b.para, code: seq![], stack: b.stack };
            lemma_plain_t(lines, i, b2);
            lemma_code_close_avoid(b.code, 'u', 'o');
            lemma_join_t(code_close(b.code), step_plain(lines, i, b2).0);
        }
    } else {
        lemma_plain_t(lines, i, b);
    }
}

proof fn lemma_finish_t(b: Body)
    ensures
        table_tally(finish(b)) == 0,
{
    let f = flush(b);
    lemma_flush_avoid(b, 't', 't');
    lemma_close_all_avoid(f.1.stack, 't', 't');
    lemma_block_literals_avoid('t', 't');
    lemma_no_lt(Seq::<char>::empty(), 't', 't');
    lemma_code_close_avoid(f.1.code, 't', 't');
    let bq = if f.1.block == BlockState::Blockquote { "</blockquote>\n"@ } else { seq![] };
    let cc = if f.1.block == BlockState::FencedCode || f.1.block == BlockState::IndentedCode {
        code_close(f.1.code)
    } else {
        seq![]
    };
    lemma_tags_avoid_concat(f.0, close_all(f.1.stack), 't', 't');
    lemma_avoid3(f.0 + close_all(f.1.stack), bq, cc, 't', 't');
    lemma_t_free(finish(b));
}

proof fn lemma_body_from_t(lines: Seq<Seq<char>>, i: int, b: Body)
    ensures
        table_tally(body_from(lines, i, b)) == 0,
    decreases lines.len() - i,
{
    if i < 0 || i >= lines.len() {
        lemma_finish_t(b);
    } else {
        let r = step(lines, i, b);
        lemma_step_t(lines, i, b);
        lemma_step_tally(lines, i, b);
        lemma_body_from_t(lines, r.1, r.2);
        lemma_table_safe_end(r.0);
        lemma_table_patterns();
        lemma_count_concat(r.0, body_from(lines, r.1, r.2), "<table>"@);
        lemma_count_concat(r.0, body_from(lines, r.1, r.2), "</table>"@);
    }
}

/// Every `<table>` in a rendered body is closed: the body holds as many
/// `</table>` as `<table>`.
pub proof fn lemma_tables_balanced(source: Seq<char>)
    ensures
        count_occ(body_html(source), "</table>"@) == count_occ(body_html(source), "<table>"@),
{
    lemma_body_from_t(source_lines(source), 0, init_body());
}

/// Closing minus opening code blocks in `s`: `</code></pre>` against
/// `<pre><code`.
pub open spec fn code_tally(s: Seq<char>) -> int {
    count_occ(s, "</code></pre>"@) - count_occ(s, "<pre><code"@)
}

/// One when `b` is inside a code block, else zero.
pub open spec fn code_open(b: Body) -> int {
    if b.block == BlockState::FencedCode || b.block == BlockState::IndentedCode {
        1
    } else {
        0
    }
}

/// Whether every `<` in `x` has two more characters after it, and no `<pr`
/// or `</pr` starts at it.
pub open spec fn no_pre_word(x: Seq<char>) -> bool {
    forall|i: int|
        0 <= i < x.len() && #[trigger] x[i] == '<' ==> i + 2 < x.len() && (x[i + 1] == 'p' ==> x[i + 2] != 'r')
            && (x[i + 1] == '/' && x[i + 2] == 'p' ==> i + 3 < x.len() && x[i + 3] != 'r')
}

/// Whether `s` is empty or ends with a newline.
pub open spec fn nl_end(s: Seq<char>) -> bool {
    s.len() == 0 || s.last() == '\n'
}

/// Whether no code tag can run from the end of `s` into what follows: `s` is
/// empty, ends with a newline, or ends like an opening code tag.
pub open spec fn code_end_ok(s: Seq<char>) -> bool {
    ||| nl_end(s)
    ||| s.len() >= 7 && s.last() == '>' && (s[s.len() - 2] == '"' || s.subrange(s.len() - 7, s.len() as int)
        == "><code>"@)
}

proof fn lemma_code_patterns()
    ensures
        "<pre><code"@ == seq!['<', 'p', 'r', 'e', '>', '<', 'c', 'o', 'd', 'e'],
        "</code></pre>"@ == seq!['<', '/', 'c', 'o', 'd', 'e', '>', '<', '/', 'p', 'r', 'e', '>'],
        "><code>"@ == seq!['>', '<', 'c', 'o', 'd', 'e', '>'],
{
    reveal_strlit("<pre><code");
    reveal_strlit("</code></pre>");
    reveal_strlit("><code>");
}

proof fn lemma_pre_join(a: Seq<char>, b: Seq<char>)
    requires
        no_pre_word(a),
        no_pre_word(b),
    ensures
        no_pre_word(a + b),
        nl_end(a) && nl_end(b) ==> nl_end(a + b),
        b.len() > 0 && nl_end(b) ==> nl_end(a + b),
{
    let c = a + b;
    assert forall|i: int| 0 <= i < c.len() && #[trigger] c[i] == '<' implies i + 2 < c.len() && (c[i + 1] == 'p' ==> c[i + 2] != 'r')
        && (c[i + 1] == '/' && c[i + 2] == 'p' ==> i + 3 < c.len() && c[i + 3] != 'r') by {
        if i < a.len() {
            assert(a[i] == '<');
            assert(c[i + 1] == a[i + 1] && c[i + 2] == a[i + 2]);
            if i + 3 < a.len() {
                assert(c[i + 3] == a[i + 3]);
            }
        } else {
            let j = i - a.len();
            assert(b[j] == '<');
            assert(c[i + 1] == b[j + 1] && c[i + 2] == b[j + 2]);
            if j + 3 < b.len() {
                assert(c[i + 3] == b[j + 3]);
            }
        }
    }
    if b.len() > 0 {
        assert(c.last() == b.last());
    } else {
        assert(c =~= a);
    }
}

proof fn lemma_pre_join3(a: Seq<char>, b: Seq<char>, c: Seq<char>)
    requires
        no_pre_word(a),
        no_pre_word(b),
        no_pre_word(c),
    ensures
        no_pre_word(a + b + c),
        nl_end(a) && nl_end(b) && nl_end(c) ==> nl_end(a + b + c),
        c.len() > 0 && nl_end(c) ==> nl_end(a + b + c),
{
    lemma_pre_join(a, b);
    lemma_pre_join(a + b, c);
}

/// A piece without paragraph or code tags has no `<pr` or `</pr` either.
proof fn lemma_avoid_pre(x: Seq<char>)
    requires
        tags_avoid(x, 'p', 'p'),
    ensures
        no_pre_word(x),
{
}

/// A piece without `<pr` or `</pr` holds no code tag.
proof fn lemma_pre_word_counts(x: Seq<char>)
    requires
        no_pre_word(x),
    ensures
        count_occ(x, "<pre><code"@) == 0,
        count_occ(x, "</code></pre>"@) == 0,
{
    lemma_code_patterns();
    let p1 = "<pre><code"@;
    let p2 = "</code></pre>"@;
    assert forall|i: int| 0 <= i && i + p1.len() <= x.len() implies #[trigger] x.subrange(i, i + p1.len()) != p1 by {
        if x.subrange(i, i + p1.len()) == p1 {
            assert(x.subrange(i, i + p1.len())[0] == x[i]);
            assert(x.subrange(i, i + p1.len())[1] == x[i + 1]);
            assert(x.subrange(i, i + p1.len())[2] == x[i + 2]);
        }
    }
    lemma_count_zero(x, p1);
    assert forall|i: int| 0 <= i && i + p2.len() <= x.len() implies #[trigger] x.subrange(i, i + p2.len()) != p2 by {
        if x.subrange(i, i + p2.len()) == p2 {
            assert(x.subrange(i, i + p2.len())[7] == x[i + 7]);
            assert(x.subrange(i, i + p2.len())[8] == x[i + 8]);
            assert(x.subrange(i, i + p2.len())[9] == x[i + 9]);
            assert(x.subrange(i, i + p2.len())[10] == x[i + 10]);
        }
    }
    lemma_count_zero(x, p2);
}

/// A text without `<` holds no code tag, and none runs from its end.
proof fn lemma_no_lt_code(x: Seq<char>)
    requires
        !x.contains('<'),
    ensures
        no_pre_word(x),
        count_occ(x, "<pre><code"@) == 0,
        count_occ(x, "</code></pre>"@) == 0,
        end_safe(x, "<pre><code"@),
        end_safe(x, "</code></pre>"@),
{
    lemma_code_patterns();
    assert forall|i: int| 0 <= i < x.len() && #[trigger] x[i] == '<' implies false by {
        assert(x.contains('<'));
    }
    lemma_pre_word_counts(x);
    let p1 = "<pre><code"@;
    let p2 = "</code></pre>"@;
    assert forall|m: int| 1 <= m < p1.len() && m <= x.len() implies #[trigger] x.skip(x.len() - m) != p1.take(m) by {
        assert(x.skip(x.len() - m)[0] == x[x.len() - m]);
        assert(p1.take(m)[0] == '<');
    }
    assert forall|m: int| 1 <= m < p2.len() && m <= x.len() implies #[trigger] x.skip(x.len() - m) != p2.take(m) by {
        assert(x.skip(x.len() - m)[0] == x[x.len() - m]);
        assert(p2.take(m)[0] == '<');
    }
}

/// No code tag runs from an end that `code_end_ok` accepts.
proof fn lemma_code_end_safe(s: Seq<char>)
    requires
        code_end_ok(s),
    ensures
        end_safe(s, "<pre><code"@),
        end_safe(s, "</code></pre>"@),
{
    lemma_code_patterns();
    let p1 = "<pre><code"@;
    let p2 = "</code></pre>"@;
    if nl_end(s) {
        lemma_end_safe_last(s, p1);
        lemma_end_safe_last(s, p2);
    } else {
        let n = s.len() as int;
        let t = "><code>"@;
        assert forall|m: int| 1 <= m < p1.len() && m <= n implies #[trigger] s.skip(n - m) != p1.take(m) by {
            if s.skip(n - m) == p1.take(m) {
                assert(s.skip(n - m)[m - 1] == s[n - 1]);
                assert(p1.take(m)[m - 1] == p1[m - 1]);
                if m == 5 {
                    assert(s.skip(n - m)[3] == s[n - 2]);
                    assert(s.skip(n - m)[0] == s[n - 5]);
                    if s[n - 2] != '"' {
                        assert(s.subrange(n - 7, n)[2] == s[n - 5]);
                        assert(t[2] == 'c');
                    }
                }
            }
        }
        assert forall|m: int| 1 <= m < p2.len() && m <= n implies #[trigger] s.skip(n - m) != p2.take(m) by {
            if s.skip(n - m) == p2.take(m) {
                assert(s.skip(n - m)[m - 1] == s[n - 1]);
                assert(p2.take(m)[m - 1] == p2[m - 1]);
                if m == 7 {
                    assert(s.skip(n - m)[5] == s[n - 2]);
                    assert(s.skip(n - m)[0] == s[n - 7]);
                    if s[n - 2] != '"' {
                        assert(s.subrange(n - 7, n)[0] == s[n - 7]);
                        assert(t[0] == '>');
                    }
                }
            }
        }
    }
}

/// Code tallies add up when the first piece ends well.
proof fn lemma_code_join(a: Seq<char>, b: Seq<char>)
    requires
        code_end_ok(a),
        code_end_ok(b),
    ensures
        code_end_ok(a + b),
        code_tally(a + b) == code_tally(a) + code_tally(b),
{
    lemma_code_end_safe(a);
    lemma_code_patterns();
    lemma_count_concat(a, b, "<pre><code"@);
    lemma_count_concat(a, b, "</code></pre>"@);
    let c = a + b;
    if b.len() == 0 {
        assert(c =~= a);
    } else {
        assert(c.last() == b.last());
        if !nl_end(b) {
            assert(c[c.len() - 2] == b[b.len() - 2]);
            assert(c.subrange(c.len() - 7, c.len() as int) =~= b.subrange(b.len() - 7, b.len() as int));
        }
    }
}

/// A piece without code tags that ends with a newline.
proof fn lemma_code_plain(x: Seq<char>)
    requires
        no_pre_word(x),
        nl_end(x),
    ensures
        code_end_ok(x),
        code_tally(x) == 0,
{
    lemma_pre_word_counts(x);
}

proof fn lemma_pre_literals()
    ensures
        no_pre_word("<p>"@),
        no_pre_word("</p>\n"@),
        nl_end("</p>\n"@),
        nl_end("<hr>\n"@),
        nl_end("<blockquote>\n"@),
        nl_end("</blockquote>\n"@),
        nl_end(Seq::<char>::empty()),
        no_pre_word(Seq::<char>::empty()),
        no_pre_word("<hr>\n"@),
        no_pre_word("<blockquote>\n"@),
        no_pre_word("</blockquote>\n"@),
        "<hr>\n"@.len() > 0,
        "<blockquote>\n"@.len() > 0,
        "</blockquote>\n"@.len() > 0,
        "</p>\n"@.len() > 0,
{
    lemma_plain_literals_avoid('p', 'p');
    lemma_avoid_pre("<hr>\n"@);
    lemma_avoid_pre("<blockquote>\n"@);
    lemma_avoid_pre("</blockquote>\n"@);
    reveal_strlit("<p>");
    reveal_strlit("</p>\n");
    reveal_strlit("<hr>\n");
    reveal_strlit("<blockquote>\n");
    reveal_strlit("</blockquote>\n");
}

/// The paragraph that a flush emits holds no code tag.
proof fn lemma_flush_pre(b: Body)
    ensures
        no_pre_word(flush(b).0),
        nl_end(flush(b).0),
{
    lemma_pre_literals();
    lemma_flush_avoid(b, 'u', 'o');
    if b.block == BlockState::Paragraph && b.para.len() > 0 {
        lemma_inline_avoid(b.para, 'p', 'p');
        lemma_avoid_pre(inline_html(b.para));
        lemma_pre_join3("<p>"@, inline_html(b.para), "</p>\n"@);
    }
}

proof fn lemma_close_all_nl(stack: Seq<ListEntry>)
    ensures
        nl_end(close_all(stack)),
        no_pre_word(close_all(stack)),
    decreases stack.len(),
{
    lemma_close_all_avoid(stack, 'p', 'p');
    lemma_avoid_pre(close_all(stack));
    if stack.len() > 0 {
        lemma_close_all_nl(stack.drop_last());
        reveal_strlit("</ul>\n");
        reveal_strlit("</ol>\n");
        let c = close_tag(stack.last().kind);
        assert(c.last() == '\n');
        let r = close_all(stack.drop_last());
        if r.len() > 0 {
            assert((c + r).last() == r.last());
        } else {
            assert(c + r =~= c);
        }
    }
}

proof fn lemma_list_item_pre(stack: Seq<ListEntry>, kind: ListKind, indent: usize, text: Seq<char>)
    ensures
        no_pre_word(list_item(stack, kind, indent, text).0),
        nl_end(list_item(stack, kind, indent, text).0),
{
    lemma_list_item_avoid(stack, kind, indent, text, 'p', 'p');
    lemma_avoid_pre(list_item(stack, kind, indent, text).0);
    lemma_item_avoid(text, 'u', 'o');
    let r = close_deeper(stack, indent);
    let opens = r.1.len() == 0 || indent > r.1.last().indent;
    let o2 = if opens { open_tag(kind) } else { seq![] };
    reveal_strlit("</li>\n");
    assert(item_html(text).len() > 0);
    assert((r.0 + o2 + item_html(text)).last() == item_html(text).last());
}

/// An opening code tag: one `<pre><code`, no `</code></pre>`.
proof fn lemma_fence_counts(lang: Seq<char>)
    ensures
        count_occ(fence_open(lang), "<pre><code"@) == 1,
        count_occ(fence_open(lang), "</code></pre>"@) == 0,
        code_end_ok(fence_open(lang)),
{
    lemma_code_patterns();
    let p1 = "<pre><code"@;
    let p2 = "</code></pre>"@;
    reveal_strlit("<pre><code>");
    reveal_strlit("<pre><code class=\"language-");
    reveal_strlit("\">");
    reveal_strlit(" class=\"language-");
    reveal_strlit(">");
    let rest = if lang.len() == 0 {
        ">"@
    } else {
        " class=\"language-"@ + escape(lang) + "\">"@
    };
    crate::markdown::escape::lemma_escape_no_markup(lang);
    assert(!rest.contains('<')) by {
        if rest.contains('<') {
            let k = choose|k: int| 0 <= k < rest.len() && rest[k] == '<';
            if lang.len() > 0 {
                let e = escape(lang);
                if 17 <= k < 17 + e.len() {
                    assert(rest[k] == e[k - 17]);
                    assert(e.contains('<'));
                }
            }
        }
    }
    assert(fence_open(lang) =~= p1 + rest);
    lemma_no_lt_code(rest);
    // `<pre><code` neither overlaps itself nor runs into `</code></pre>`.
    assert forall|m: int| 1 <= m < p1.len() && m <= p1.len() implies #[trigger] p1.skip(p1.len() - m) != p1.take(m) by {
        if p1.skip(p1.len() - m) == p1.take(m) {
            assert(p1.skip(p1.len() - m)[0] == p1[p1.len() - m]);
            assert(p1.take(m)[0] == p1[0]);
            if m >= 2 {
                assert(p1.skip(p1.len() - m)[1] == p1[p1.len() - m + 1]);
                assert(p1.take(m)[1] == p1[1]);
            }
        }
    }
    assert forall|m: int| 1 <= m < p2.len() && m <= p1.len() implies #[trigger] p1.skip(p1.len() - m) != p2.take(m) by {
        if p1.skip(p1.len() - m) == p2.take(m) {
            assert(p1.skip(p1.len() - m)[0] == p1[p1.len() - m]);
            assert(p2.take(m)[0] == p2[0]);
            if m >= 2 {
                assert(p1.skip(p1.len() - m)[1] == p1[p1.len() - m + 1]);
                assert(p2.take(m)[1] == p2[1]);
            }
        }
    }
    lemma_count_concat(p1, rest, p1);
    lemma_count_concat(p1, rest, p2);
    assert(p1.drop_last().len() == 9);
    assert forall|i: int| 0 <= i && i + p1.len() <= p1.drop_last().len() implies #[trigger] p1.drop_last().subrange(i, i + p1.len()) != p1 by {}
    lemma_count_zero(p1.drop_last(), p1);
    assert(p1.skip(0) =~= p1);
    assert(count_occ(p1, p1) == 1);
    assert forall|i: int| 0 <= i && i + p2.len() <= p1.len() implies #[trigger] p1.subrange(i, i + p2.len()) != p2 by {}
    lemma_count_zero(p1, p2);
    let fo = fence_open(lang);
    if lang.len() == 0 {
        assert(fo.subrange(fo.len() - 7, fo.len() as int) =~= "><code>"@);
    } else {
        assert(fo[fo.len() - 2] == '"');
    }
}

/// A closing code tag: one `</code></pre>`, no `<pre><code`.
proof fn lemma_code_close_counts(code: Seq<char>)
    ensures
        count_occ(code_close(code), "<pre><code"@) == 0,
        count_occ(code_close(code), "</code></pre>"@) == 1,
        nl_end(code_close(code)),
        code_end_ok(code_close(code)),
{
    lemma_code_patterns();
    let p1 = "<pre><code"@;
    let p2 = "</code></pre>"@;
    reveal_strlit("</code></pre>\n");
    let e = escape(code);
    crate::markdown::escape::lemma_escape_no_markup(code);
    lemma_no_lt_code(e);
    let nl = seq!['\n'];
    assert("</code></pre>\n"@ =~= p2 + nl);
    assert forall|m: int| 1 <= m < p2.len() && m <= p2.len() implies #[trigger] p2.skip(p2.len() - m) != p2.take(m) by {
        if p2.skip(p2.len() - m) == p2.take(m) {
            assert(p2.skip(p2.len() - m)[m - 1] == p2[p2.len() - 1]);
            assert(p2.take(m)[m - 1] == p2[m - 1]);
            assert(p2.skip(p2.len() - m)[0] == p2[p2.len() - m]);
            assert(p2.take(m)[0] == p2[0]);
        }
    }
    assert forall|m: int| 1 <= m < p1.len() && m <= p2.len() implies #[trigger] p2.skip(p2.len() - m) != p1.take(m) by {
        if p2.skip(p2.len() - m) == p1.take(m) {
            assert(p2.skip(p2.len() - m)[m - 1] == p2[p2.len() - 1]);
            assert(p1.take(m)[m - 1] == p1[m - 1]);
            assert(p2.skip(p2.len() - m)[0] == p2[p2.len() - m]);
            assert(p1.take(m)[0] == p1[0]);
        }
    }
    lemma_count_concat(p2, nl, p1);
    lemma_count_concat(p2, nl, p2);
    assert forall|i: int| 0 <= i && i + p1.len() <= p2.len() implies #[trigger] p2.subrange(i, i + p1.len()) != p1 by {
        if p2.subrange(i, i + p1.len()) == p1 {
            assert(p2.subrange(i, i + p1.len())[0] == p2[i]);
            assert(p2.subrange(i, i + p1.len())[1] == p2[i + 1]);
        }
    }
    lemma_count_zero(p2, p1);
    assert forall|i: int| 0 <= i && i + p1.len() <= nl.len() implies #[trigger] nl.subrange(i, i + p1.len()) != p1 by {}
    lemma_count_zero(nl, p1);
    assert forall|i: int| 0 <= i && i + p2.len() <= nl.len() implies #[trigger] nl.subrange(i, i + p2.len()) != p2 by {}
    lemma_count_zero(nl, p2);
    assert(p2.drop_last().len() == 12);
    assert forall|i: int| 0 <= i && i + p2.len() <= p2.drop_last().len() implies #[trigger] p2.drop_last().subrange(i, i + p2.len()) != p2 by {}
    lemma_count_zero(p2.drop_last(), p2);
    assert(p2.skip(0) =~= p2);
    assert(count_occ(p2, p2) == 1);
    lemma_count_concat(e, p2 + nl, p1);
    lemma_count_concat(e, p2 + nl, p2);
    assert(code_close(code) =~= e + (p2 + nl));
    assert(code_close(code).last() == '\n');
}

proof fn lemma_rest_code(lines: Seq<Seq<char>>, i: int, b: Body)
    requires
        0 <= i < lines.len(),
        code_open(b) == 0,
    ensures
        code_end_ok(step_rest(lines, i, b).0),
        code_tally(step_rest(lines, i, b).0) == -code_open(step_rest(lines, i, b).2),
{
    let line = lines[i];
    let tr = crate::text::trim_end(line);
    let f = flush(b);
    lemma_flush_pre(b);
    lemma_flush_avoid(b, 'u', 'o');
    lemma_close_all_nl(f.1.stack);
    lemma_pre_literals();
    let fc = f.0 + close_all(f.1.stack);
    lemma_pre_join(f.0, close_all(f.1.stack));
    if crate::markdown::block::is_rule(tr) {
        lemma_pre_join(fc, "<hr>\n"@);
        lemma_code_plain(step_rest(lines, i, b).0);
    } else if crate::text::starts_with(tr, "> "@) || tr == seq!['>'] {
        let rest = if crate::text::starts_with(tr, "> "@) { tr.skip("> "@.len() as int) } else { seq![] };
        let open = if f.1.block != BlockState::Blockquote { "<blockquote>\n"@ } else { seq![] };
        lemma_inline_avoid(rest, 'p', 'p');
        lemma_avoid_pre(inline_html(rest));
        lemma_pre_join3(fc, open, "<p>"@);
        lemma_pre_join3(fc + open + "<p>"@, inline_html(rest), "</p>\n"@);
        assert(step_rest(lines, i, b).0 =~= fc + open + "<p>"@ + inline_html(rest) + "</p>\n"@);
        lemma_code_plain(step_rest(lines, i, b).0);
    } else if crate::markdown::block::parse_bullet(line) is Some {
        let (ind, ts) = crate::markdown::block::parse_bullet(line).unwrap();
        let li = list_item(f.1.stack, ListKind::Unordered, ind as usize, line.skip(ts));
        lemma_list_item_pre(f.1.stack, ListKind::Unordered, ind as usize, line.skip(ts));
        lemma_pre_join(f.0, li.0);
        lemma_code_plain(step_rest(lines, i, b).0);
    } else if crate::markdown::block::parse_numbered(line) is Some {
        let (ind, ts) = crate::markdown::block::parse_numbered(line).unwrap();
        let li = list_item(f.1.stack, ListKind::Ordered, ind as usize, line.skip(ts));
        lemma_list_item_pre(f.1.stack, ListKind::Ordered, ind as usize, line.skip(ts));
        lemma_pre_join(f.0, li.0);
        lemma_code_plain(step_rest(lines, i, b).0);
    } else if crate::text::starts_with(line, "    "@) && b.stack.len() == 0 && b.block == BlockState::Idle {
        let fo = fence_open(Seq::<char>::empty());
        lemma_fence_counts(Seq::<char>::empty());
        lemma_code_plain(f.0);
        lemma_code_join(f.0, fo);
        assert(step_rest(lines, i, b).0 =~= f.0 + fo);
    } else if tr.contains('|') && i + 1 < lines.len() && crate::markdown::table::is_separator(lines[i + 1]) {
        let j = table_end(lines, i + 2);
        let t = table_html(tr, crate::text::trim(lines[i + 1]), trimmed_rows(lines, i + 2, j));
        lemma_table_avoid(tr, crate::text::trim(lines[i + 1]), trimmed_rows(lines, i + 2, j), 'p', 'p');
        lemma_avoid_pre(t);
        reveal_strlit("</tbody>\n</table>\n");
        assert(t.len() > 0);
        lemma_pre_join(fc, t);
        lemma_code_plain(step_rest(lines, i, b).0);
    } else {
        lemma_close_all_nl(b.stack);
        let bq = if b.block == BlockState::Blockquote { "</blockquote>\n"@ } else { seq![] };
        lemma_pre_join(close_all(b.stack), bq);
        lemma_code_plain(step_rest(lines, i, b).0);
    }
}

proof fn lemma_plain_code(lines: Seq<Seq<char>>, i: int, b: Body)
    requires
        0 <= i < lines.len(),
        code_open(b) == 0,
    ensures
        code_end_ok(step_plain(lines, i, b).0),
        code_tally(step_plain(lines, i, b).0) == -code_open(step_plain(lines, i, b).2),
{
    let line = lines[i];
    let tr = crate::text::trim_end(line);
    let f = flush(b);
    lemma_flush_pre(b);
    lemma_flush_avoid(b, 'u', 'o');
    lemma_close_all_nl(f.1.stack);
    lemma_pre_literals();
    let fc = f.0 + close_all(f.1.stack);
    lemma_pre_join(f.0, close_all(f.1.stack));
    if tr.len() == 0 {
        let bq = if f.1.block == BlockState::Blockquote { "</blockquote>\n"@ } else { seq![] };
        lemma_pre_join(fc, bq);
        lemma_code_plain(step_plain(lines, i, b).0);
    } else if crate::text::starts_with(tr, "```"@) {
        let lang = crate::text::trim(tr.skip("```"@.len() as int));
        lemma_fence_counts(lang);
        lemma_code_plain(fc);
        lemma_code_join(fc, fence_open(lang));
    } else {
        match crate::markdown::block::parse_heading(tr) {
            Some((level, ts)) => {
                lemma_hash_run_nonneg(tr, 0);
                let h = heading_html(level, tr.skip(ts));
                lemma_heading_avoid(level, tr.skip(ts), 'p', 'p');
                lemma_avoid_pre(h);
                reveal_strlit(">\n");
                assert(h.len() > 0);
                lemma_pre_join(fc, h);
                lemma_code_plain(step_plain(lines, i, b).0);
            },
            None => {
                lemma_rest_code(lines, i, b);
            },
        }
    }
}

proof fn lemma_step_code(lines: Seq<Seq<char>>, i: int, b: Body)
    requires
        0 <= i < lines.len(),
    ensures
        code_end_ok(step(lines, i, b).0),
        code_tally(step(lines, i, b).0) == code_open(b) - code_open(step(lines, i, b).2),
{
    let line = lines[i];
    let tr = crate::text::trim_end(line);
    lemma_code_close_counts(b.code);
    assert(count_occ(Seq::<char>::empty(), "<pre><code"@) == 0);
    assert(count_occ(Seq::<char>::empty(), "</code></pre>"@) == 0);
    if b.block == BlockState::FencedCode {
    } else if b.block == BlockState::IndentedCode {
        if crate::text::starts_with(line, "    "@) || (tr.len() == 0 && crate::markdown::body::peek_from(lines, i + 1)) {
        } else {
            let b2 = Body { block: BlockState::Idle, para: b.para, code: seq![], stack: b.stack };
            lemma_plain_code(lines, i, b2);
            lemma_code_join(code_close(b.code), step_plain(lines, i, b2).0);
        }
    } else {
        lemma_plain_code(lines, i, b);
    }
}

/// What is emitted after the last line closes the code block still open.
proof fn lemma_finish_code(b: Body)
    ensures
        code_tally(finish(b)) == code_open(b),
{
    let f = flush(b);
    lemma_flush_pre(b);
    lemma_flush_avoid(b, 'u', 'o');
    lemma_close_all_nl(f.1.stack);
    lemma_pre_literals();
    let fc = f.0 + close_all(f.1.stack);
    lemma_pre_join(f.0, close_all(f.1.stack));
    let bq = if f.1.block == BlockState::Blockquote { "</blockquote>\n"@ } else { seq![] };
    lemma_pre_join(fc, bq);
    lemma_code_plain(fc + bq);
    lemma_code_close_counts(f.1.code);
    let cc = if f.1.block == BlockState::FencedCode || f.1.block == BlockState::IndentedCode {
        code_close(f.1.code)
    } else {
        seq![]
    };
    assert(count_occ(Seq::<char>::empty(), "<pre><code"@) == 0);
    assert(count_occ(Seq::<char>::empty(), "</code></pre>"@) == 0);
    lemma_code_join(fc + bq, cc);
}

/// The HTML for the lines from `i` on closes every code block it opens, and
/// the one open in `b` as well.
pub proof fn lemma_body_from_code(lines: Seq<Seq<char>>, i: int, b: Body)
    ensures
        code_tally(body_from(lines, i, b)) == code_open(b),
    decreases lines.len() - i,
{
    if i < 0 || i >= lines.len() {
        lemma_finish_code(b);
    } else {
        let r = step(lines, i, b);
        lemma_step_code(lines, i, b);
        lemma_step_tally(lines, i, b);
        lemma_body_from_code(lines, r.1, r.2);
        lemma_code_end_safe(r.0);
        lemma_code_patterns();
        lemma_count_concat(r.0, body_from(lines, r.1, r.2), "<pre><code"@);
        lemma_count_concat(r.0, body_from(lines, r.1, r.2), "</code></pre>"@);
    }
}

/// Every code block in a rendered body is closed: the body holds as many
/// `</code></pre>` as `<pre><code`.
pub proof fn lemma_code_blocks_balanced(source: Seq<char>)
    ensures
        count_occ(body_html(source), "</code></pre>"@) == count_occ(body_html(source), "<pre><code"@),
{
    lemma_body_from_code(source_lines(source), 0, init_body());
}

} // verus!
