//! The block structure of a Markdown document: a line-by-line state machine
//! over paragraphs, code blocks, blockquotes, lists, headings, rules and tables.
use vstd::prelude::*;
use crate::text::{
    trim, trim_end, starts_with, views, utf8_len, push_str, push_all, slice, trim_bounds,
    skip_ws_backward, starts_with_at, contains_char, push_range,
};
use crate::markdown::escape::{escape, push_escaped_all};
use crate::markdown::inline::{inline_html, render_inline_chars};
use crate::markdown::block::{
    hash_run, parse_heading, slug, is_rule, parse_bullet, parse_numbered, hash_run_exec,
    parse_heading_exec, slug_exec, is_rule_exec, parse_bullet_exec, parse_numbered_exec,
};
use crate::markdown::table::{is_separator, table_html, is_separator_exec, push_table};

verus! {

/// The kind of block the renderer is inside.
#[derive(PartialEq, Eq, Structural, Clone, Copy)]
pub enum BlockState {
    Idle,
    Paragraph,
    FencedCode,
    IndentedCode,
    Blockquote,
}

/// Whether a list is bulleted or numbered.
#[derive(PartialEq, Eq, Structural, Clone, Copy)]
pub enum ListKind {
    Unordered,
    Ordered,
}

/// An open list: its kind and the indentation (in bytes) of its items.
#[derive(Clone, Copy)]
pub struct ListEntry {
    pub kind: ListKind,
    pub indent: usize,
}

/// The renderer's state between lines.
#[verifier::ext_equal]
pub struct Body {
    pub block: BlockState,
    /// Lines of the paragraph being gathered.
    pub para: Seq<char>,
    /// Lines of the code block being gathered.
    pub code: Seq<char>,
    /// The open lists, innermost last.
    pub stack: Seq<ListEntry>,
}

/// The state of the block renderer between lines.
pub struct BodyState {
    pub block: BlockState,
    pub para: Vec<char>,
    pub code: Vec<char>,
    pub stack: Vec<ListEntry>,
}

impl BodyState {
    pub open spec fn body(&self) -> Body {
        Body { block: self.block, para: self.para@, code: self.code@, stack: self.stack@ }
    }
}

pub open spec fn init_body() -> Body {
    Body { block: BlockState::Idle, para: seq![], code: seq![], stack: seq![] }
}

pub open spec fn open_tag(k: ListKind) -> Seq<char> {
    match k {
        ListKind::Unordered => "<ul>\n"@,
        ListKind::Ordered => "<ol>\n"@,
    }
}

pub open spec fn close_tag(k: ListKind) -> Seq<char> {
    match k {
        ListKind::Unordered => "</ul>\n"@,
        ListKind::Ordered => "</ol>\n"@,
    }
}

/// The closing tags of all open lists, innermost first.
pub open spec fn close_all(stack: Seq<ListEntry>) -> Seq<char>
    decreases stack.len(),
{
    if stack.len() == 0 {
        seq![]
    } else {
        close_tag(stack.last().kind) + close_all(stack.drop_last())
    }
}

/// `c`, followed by a newline when it is not empty.
pub open spec fn join_nl(c: Seq<char>) -> Seq<char> {
    if c.len() > 0 {
        c.push('\n')
    } else {
        c
    }
}

/// Ends a pending paragraph: its HTML, and the state after it.
pub open spec fn flush(b: Body) -> (Seq<char>, Body) {
    if b.block == BlockState::Paragraph {
        if b.para.len() > 0 {
            (
                "<p>"@ + inline_html(b.para) + "</p>\n"@,
                Body { block: BlockState::Idle, para: seq![], code: b.code, stack: b.stack },
            )
        } else {
            (seq![], Body { block: BlockState::Idle, para: b.para, code: b.code, stack: b.stack })
        }
    } else {
        (seq![], b)
    }
}

/// Closes the lists nested deeper than `indent`, keeping the outermost.
pub open spec fn close_deeper(stack: Seq<ListEntry>, indent: usize) -> (Seq<char>, Seq<ListEntry>)
    decreases stack.len(),
{
    if stack.len() > 1 && indent < stack.last().indent {
        let r = close_deeper(stack.drop_last(), indent);
        (close_tag(stack.last().kind) + r.0, r.1)
    } else {
        (seq![], stack)
    }
}

/// The `<li>` of a list item, with task-list checkboxes.
pub open spec fn item_html(text: Seq<char>) -> Seq<char> {
    if starts_with(text, "[ ] "@) {
        "<li><input type=\"checkbox\" disabled> "@ + inline_html(text.skip("[ ] "@.len() as int))
            + "</li>\n"@
    } else if starts_with(text, "[x] "@) || starts_with(text, "[X] "@) {
        "<li><input type=\"checkbox\" checked disabled> "@ + inline_html(
            text.skip("[x] "@.len() as int),
        ) + "</li>\n"@
    } else {
        "<li>"@ + inline_html(text) + "</li>\n"@
    }
}

/// A list item: the HTML it produces and the open lists after it.
pub open spec fn list_item(stack: Seq<ListEntry>, kind: ListKind, indent: usize, text: Seq<char>) -> (
    Seq<char>,
    Seq<ListEntry>,
) {
    let r = close_deeper(stack, indent);
    let opens = r.1.len() == 0 || indent > r.1.last().indent;
    let o2 = if opens {
        open_tag(kind)
    } else {
        seq![]
    };
    let s2 = if opens {
        r.1.push(ListEntry { kind, indent })
    } else {
        r.1
    };
    (r.0 + o2 + item_html(text), s2)
}

/// Whether the next line after `j - 1` that is not blank is indented by four spaces.
pub open spec fn peek_from(lines: Seq<Seq<char>>, j: int) -> bool
    decreases lines.len() - j,
{
    if j < 0 || j >= lines.len() {
        false
    } else if trim_end(lines[j]).len() == 0 {
        peek_from(lines, j + 1)
    } else {
        starts_with(trim_end(lines[j]), "    "@)
    }
}

/// The first line at or after `j` that ends a table's data rows.
pub open spec fn table_end(lines: Seq<Seq<char>>, j: int) -> int
    decreases lines.len() - j,
{
    if j < 0 || j >= lines.len() {
        lines.len() as int
    } else if trim(lines[j]).len() == 0 || !trim(lines[j]).contains('|') {
        j
    } else {
        table_end(lines, j + 1)
    }
}

pub open spec fn trimmed_rows(lines: Seq<Seq<char>>, lo: int, hi: int) -> Seq<Seq<char>> {
    Seq::new((hi - lo) as nat, |k: int| trim(lines[lo + k]))
}

pub open spec fn fence_open(lang: Seq<char>) -> Seq<char> {
    if lang.len() == 0 {
        "<pre><code>"@
    } else {
        "<pre><code class=\"language-"@ + escape(lang) + "\">"@
    }
}

pub open spec fn level_digit(level: int) -> Seq<char> {
    seq![(level + 48) as char]
}

pub open spec fn heading_html(level: int, text: Seq<char>) -> Seq<char> {
    "<h"@ + level_digit(level) + " id=\""@ + slug(text) + "\"><a class=\"anchor\" href=\"#"@ + slug(
        text,
    ) + "\">\u{1F517}</a>"@ + inline_html(text) + "</h"@ + level_digit(level) + ">\n"@
}

pub open spec fn code_close(code: Seq<char>) -> Seq<char> {
    escape(code) + "</code></pre>\n"@
}

pub open spec fn with_stack(b: Body, stack: Seq<ListEntry>) -> Body {
    Body { block: b.block, para: b.para, code: b.code, stack }
}

/// A line that is none of: blank, fence, heading.
pub open spec fn step_rest(lines: Seq<Seq<char>>, i: int, b: Body) -> (Seq<char>, int, Body) {
    let line = lines[i];
    let tr = trim_end(line);
    let f = flush(b);
    if is_rule(tr) {
        (f.0 + close_all(f.1.stack) + "<hr>\n"@, i + 1, with_stack(f.1, seq![]))
    } else if starts_with(tr, "> "@) || tr == seq!['>'] {
        let rest = if starts_with(tr, "> "@) {
            tr.skip("> "@.len() as int)
        } else {
            seq![]
        };
        let open = if f.1.block != BlockState::Blockquote {
            "<blockquote>\n"@
        } else {
            seq![]
        };
        (
            f.0 + close_all(f.1.stack) + open + "<p>"@ + inline_html(rest) + "</p>\n"@,
            i + 1,
            Body { block: BlockState::Blockquote, para: f.1.para, code: f.1.code, stack: seq![] },
        )
    } else if parse_bullet(line) is Some {
        let (ind, ts) = parse_bullet(line).unwrap();
        let r = list_item(f.1.stack, ListKind::Unordered, ind as usize, line.skip(ts));
        (f.0 + r.0, i + 1, with_stack(f.1, r.1))
    } else if parse_numbered(line) is Some {
        let (ind, ts) = parse_numbered(line).unwrap();
        let r = list_item(f.1.stack, ListKind::Ordered, ind as usize, line.skip(ts));
        (f.0 + r.0, i + 1, with_stack(f.1, r.1))
    } else if starts_with(line, "    "@) && b.stack.len() == 0 && b.block == BlockState::Idle {
        (
            f.0 + "<pre><code>"@,
            i + 1,
            Body {
                block: BlockState::IndentedCode,
                para: f.1.para,
                code: f.1.code + line.skip("    "@.len() as int),
                stack: f.1.stack,
            },
        )
    } else if tr.contains('|') && i + 1 < lines.len() && is_separator(lines[i + 1]) {
        let j = table_end(lines, i + 2);
        (
            f.0 + close_all(f.1.stack) + table_html(
                tr,
                trim(lines[i + 1]),
                trimmed_rows(lines, i + 2, j),
            ),
            j,
            with_stack(f.1, seq![]),
        )
    } else {
        let bq = b.block == BlockState::Blockquote;
        (
            close_all(b.stack) + (if bq {
                "</blockquote>\n"@
            } else {
                seq![]
            }),
            i + 1,
            Body { block: BlockState::Paragraph, para: join_nl(b.para) + tr, code: b.code, stack: seq![] },
        )
    }
}

/// A line outside code blocks; the flag tells whether the heading check met
/// a run of 256 or more `#`.
pub open spec fn step_plain(lines: Seq<Seq<char>>, i: int, b: Body) -> (Seq<char>, int, Body, bool) {
    let line = lines[i];
    let tr = trim_end(line);
    let f = flush(b);
    if tr.len() == 0 {
        let bq = f.1.block == BlockState::Blockquote;
        (
            f.0 + close_all(f.1.stack) + (if bq {
                "</blockquote>\n"@
            } else {
                seq![]
            }),
            i + 1,
            Body {
                block: if bq {
                    BlockState::Idle
                } else {
                    f.1.block
                },
                para: f.1.para,
                code: f.1.code,
                stack: seq![],
            },
            false,
        )
    } else if starts_with(tr, "```"@) {
        (
            f.0 + close_all(f.1.stack) + fence_open(trim(tr.skip("```"@.len() as int))),
            i + 1,
            Body { block: BlockState::FencedCode, para: f.1.para, code: f.1.code, stack: seq![] },
            false,
        )
    } else {
        let ov = hash_run(tr, 0) >= 256;
        match parse_heading(tr) {
            Some((level, ts)) => (
                f.0 + close_all(f.1.stack) + heading_html(level, tr.skip(ts)),
                i + 1,
                with_stack(f.1, seq![]),
                ov,
            ),
            None => {
                let r = step_rest(lines, i, b);
                (r.0, r.1, r.2, ov)
            },
        }
    }
}

/// One step of the renderer at line `i`: its HTML, the next line, the next
/// state, and the heading-overflow flag.
pub open spec fn step(lines: Seq<Seq<char>>, i: int, b: Body) -> (Seq<char>, int, Body, bool) {
    let line = lines[i];
    let tr = trim_end(line);
    if b.block == BlockState::FencedCode {
        if starts_with(tr, "```"@) {
            (
                code_close(b.code),
                i + 1,
                Body { block: BlockState::Idle, para: b.para, code: seq![], stack: b.stack },
                false,
            )
        } else {
            (
                seq![],
                i + 1,
                Body { block: b.block, para: b.para, code: join_nl(b.code) + line, stack: b.stack },
                false,
            )
        }
    } else if b.block == BlockState::IndentedCode {
        if starts_with(line, "    "@) || (tr.len() == 0 && peek_from(lines, i + 1)) {
            let c1 = join_nl(b.code);
            let c2 = if starts_with(line, "    "@) {
                c1 + line.skip("    "@.len() as int)
            } else {
                c1
            };
            (seq![], i + 1, Body { block: b.block, para: b.para, code: c2, stack: b.stack }, false)
        } else {
            let r = step_plain(
                lines,
                i,
                Body { block: BlockState::Idle, para: b.para, code: seq![], stack: b.stack },
            );
            (code_close(b.code) + r.0, r.1, r.2, r.3)
        }
    } else {
        step_plain(lines, i, b)
    }
}

/// What is emitted after the last line.
pub open spec fn finish(b: Body) -> Seq<char> {
    let f = flush(b);
    f.0 + close_all(f.1.stack) + (if f.1.block == BlockState::Blockquote {
        "</blockquote>\n"@
    } else {
        seq![]
    }) + (if f.1.block == BlockState::FencedCode || f.1.block == BlockState::IndentedCode {
        code_close(f.1.code)
    } else {
        seq![]
    })
}

/// The HTML for the lines from `i` on, in state `b`.
pub open spec fn body_from(lines: Seq<Seq<char>>, i: int, b: Body) -> Seq<char>
    decreases lines.len() - i,
{
    if i < 0 || i >= lines.len() {
        finish(b)
    } else {
        let r = step(lines, i, b);
        r.0 + (if i < r.1 <= lines.len() {
            body_from(lines, r.1, r.2)
        } else {
            seq![]
        })
    }
}

/// Whether rendering the lines from `i` on checks a heading whose `#` run
/// is 256 or longer.
pub open spec fn overflow_from(lines: Seq<Seq<char>>, i: int, b: Body) -> bool
    decreases lines.len() - i,
{
    if i < 0 || i >= lines.len() {
        false
    } else {
        let r = step(lines, i, b);
        r.3 || (i < r.1 <= lines.len() && overflow_from(lines, r.1, r.2))
    }
}

/// The lines of a Markdown source.
pub open spec fn source_lines(source: Seq<char>) -> Seq<Seq<char>> {
    crate::text::split_on(crate::text::norm_crlf(source), '\n')
}

/// The HTML body for a Markdown source.
pub open spec fn body_html(source: Seq<char>) -> Seq<char> {
    body_from(source_lines(source), 0, init_body())
}

/// Whether rendering `source` checks a heading whose `#` run is 256 or longer.
pub open spec fn heading_overflow(source: Seq<char>) -> bool {
    overflow_from(source_lines(source), 0, init_body())
}

/// Whether the open lists are nested by strictly increasing indentation.
pub open spec fn nested(stack: Seq<ListEntry>) -> bool {
    forall|i: int, j: int| 0 <= i < j < stack.len() ==> #[trigger] stack[i].indent < #[trigger] stack[j].indent
}

proof fn lemma_close_deeper_prefix(stack: Seq<ListEntry>, indent: usize)
    ensures
        close_deeper(stack, indent).1.len() <= stack.len(),
        close_deeper(stack, indent).1 == stack.take(close_deeper(stack, indent).1.len() as int),
    decreases stack.len(),
{
    if stack.len() > 1 && indent < stack.last().indent {
        lemma_close_deeper_prefix(stack.drop_last(), indent);
        let n = close_deeper(stack, indent).1.len() as int;
        assert(stack.drop_last().take(n) =~= stack.take(n));
    } else {
        assert(stack.take(stack.len() as int) =~= stack);
    }
}

proof fn lemma_list_item_nested(stack: Seq<ListEntry>, kind: ListKind, indent: usize, text: Seq<char>)
    requires
        nested(stack),
    ensures
        nested(list_item(stack, kind, indent, text).1),
{
    lemma_close_deeper_prefix(stack, indent);
    let r = close_deeper(stack, indent).1;
    assert forall|i: int, j: int| 0 <= i < j < r.len() implies #[trigger] r[i].indent < #[trigger] r[j].indent by {
        assert(r[i] == stack[i] && r[j] == stack[j]);
    }
    let s2 = list_item(stack, kind, indent, text).1;
    if r.len() == 0 || indent > r.last().indent {
        assert forall|i: int, j: int| 0 <= i < j < s2.len() implies #[trigger] s2[i].indent < #[trigger] s2[j].indent by {
            if j == s2.len() - 1 {
                assert(s2[j].indent == indent);
                assert(s2[i] == r[i]);
                if i < r.len() - 1 {
                    assert(r[i].indent < r[r.len() - 1].indent);
                }
            } else {
                assert(s2[i] == r[i] && s2[j] == r[j]);
            }
        }
    }
}

proof fn lemma_close_deeper_form(stack: Seq<ListEntry>, indent: usize)
    requires
        nested(stack),
    ensures
        ({
            let r = close_deeper(stack, indent);
            let k = r.1.len() as int;
            &&& r.1 == stack.take(k)
            &&& k <= stack.len()
            &&& stack.len() > 0 ==> 1 <= k
            &&& forall|j: int| 1 <= j < k ==> #[trigger] stack[j].indent <= indent
            &&& forall|j: int| k <= j < stack.len() ==> #[trigger] stack[j].indent > indent
            &&& r.0 == close_all(stack.skip(k))
        }),
    decreases stack.len(),
{
    lemma_close_deeper_prefix(stack, indent);
    let r = close_deeper(stack, indent);
    let k = r.1.len() as int;
    if stack.len() > 1 && indent < stack.last().indent {
        let d = stack.drop_last();
        assert forall|i: int, j: int| 0 <= i < j < d.len() implies #[trigger] d[i].indent < #[trigger] d[j].indent by {
            assert(d[i] == stack[i] && d[j] == stack[j]);
        }
        lemma_close_deeper_form(d, indent);
        assert forall|j: int| 1 <= j < k implies #[trigger] stack[j].indent <= indent by {
            assert(stack[j] == d[j]);
        }
        assert forall|j: int| k <= j < stack.len() implies #[trigger] stack[j].indent > indent by {
            if j < d.len() {
                assert(stack[j] == d[j]);
            }
        }
        let t = stack.skip(k);
        assert(t.last() == stack.last());
        assert(t.drop_last() =~= d.skip(k));
    } else {
        assert(k == stack.len());
        assert forall|j: int| 1 <= j < k implies #[trigger] stack[j].indent <= indent by {
            if j < stack.len() - 1 {
                assert(stack[j].indent < stack[stack.len() - 1].indent);
            }
        }
        assert(stack.skip(k) =~= Seq::<ListEntry>::empty());
    }
}

/// A list item in closed form: of the open lists it keeps the outermost
/// and every other one indented no more than the item, closing the rest
/// innermost first; it opens a new list when nothing is kept or the item is
/// indented more than the innermost kept list; then comes the item itself.
pub proof fn lemma_list_item_form(stack: Seq<ListEntry>, kind: ListKind, indent: usize, text: Seq<char>)
    requires
        nested(stack),
    ensures
        ({
            let k = close_deeper(stack, indent).1.len() as int;
            let opens = k == 0 || indent > stack[k - 1].indent;
            let li = list_item(stack, kind, indent, text);
            &&& k <= stack.len()
            &&& (stack.len() == 0) == (k == 0)
            &&& forall|j: int| 1 <= j < k ==> #[trigger] stack[j].indent <= indent
            &&& forall|j: int| k <= j < stack.len() ==> #[trigger] stack[j].indent > indent
            &&& li.1 == stack.take(k) + (if opens {
                seq![ListEntry { kind, indent }]
            } else {
                seq![]
            })
            &&& li.0 == close_all(stack.skip(k)) + (if opens {
                open_tag(kind)
            } else {
                seq![]
            }) + item_html(text)
        }),
{
    lemma_close_deeper_form(stack, indent);
    let r = close_deeper(stack, indent);
    let k = r.1.len() as int;
    if k > 0 {
        assert(r.1.last() == stack[k - 1]);
    }
    let li = list_item(stack, kind, indent, text);
    if k == 0 || indent > stack[k - 1].indent {
        assert(li.1 =~= stack.take(k) + seq![ListEntry { kind, indent }]);
    } else {
        assert(li.1 =~= stack.take(k) + Seq::<ListEntry>::empty());
        assert(li.0 =~= close_all(stack.skip(k)) + Seq::<char>::empty() + item_html(text));
    }
}

/// Handles one list item: appends its HTML to `out` and updates the open
/// lists. On lists nested by increasing indentation it keeps the outermost
/// list and every other one indented no more than the item, closes the
/// rest innermost first, opens a new list when nothing is kept or the item
/// is indented deeper than the innermost kept list, and then emits the
/// item; the lists stay nested.
pub fn handle_list_item(stack: &mut Vec<ListEntry>, kind: ListKind, indent: usize, text: &Vec<char>, out: &mut Vec<char>)
    ensures
        final(out)@ == old(out)@ + list_item(old(stack)@, kind, indent, text@).0,
        final(stack)@ == list_item(old(stack)@, kind, indent, text@).1,
        nested(old(stack)@) ==> nested(final(stack)@),
        nested(old(stack)@) ==> ({
            let old_stack = old(stack)@;
            let k = close_deeper(old_stack, indent).1.len() as int;
            let opens = k == 0 || indent > old_stack[k - 1].indent;
            &&& k <= old_stack.len()
            &&& (old_stack.len() == 0) == (k == 0)
            &&& forall|j: int| 1 <= j < k ==> #[trigger] old_stack[j].indent <= indent
            &&& forall|j: int| k <= j < old_stack.len() ==> #[trigger] old_stack[j].indent > indent
            &&& final(stack)@ == old_stack.take(k) + (if opens {
                seq![ListEntry { kind, indent }]
            } else {
                seq![]
            })
            &&& final(out)@ == old(out)@ + close_all(old_stack.skip(k)) + (if opens {
                open_tag(kind)
            } else {
                seq![]
            }) + item_html(text@)
        }),
{
    let ghost s0 = stack@;
    let ghost o0 = out@;
    proof {
        if nested(s0) {
            lemma_list_item_form(s0, kind, indent, text@);
            lemma_list_item_nested(s0, kind, indent, text@);
        }
    }
    assert(text@.skip(0) =~= text@);
    list_item_exec(stack, kind, indent, text, 0, out);
    assert(out@ =~= o0 + list_item(s0, kind, indent, text@).0);
}

/// Every step of the renderer keeps the open lists nested by strictly
/// increasing indentation: a list is opened only inside one that is less
/// indented.
pub proof fn lemma_step_keeps_nesting(lines: Seq<Seq<char>>, i: int, b: Body)
    requires
        0 <= i < lines.len(),
        nested(b.stack),
    ensures
        nested(step(lines, i, b).2.stack),
{
    let line = lines[i];
    let f = flush(b);
    assert(f.1.stack == b.stack);
    if let Some((ind, ts)) = parse_bullet(line) {
        lemma_list_item_nested(b.stack, ListKind::Unordered, ind as usize, line.skip(ts));
    }
    if let Some((ind, ts)) = parse_numbered(line) {
        lemma_list_item_nested(b.stack, ListKind::Ordered, ind as usize, line.skip(ts));
    }
}

/// Line endings do not matter: a document whose lines end with `\r\n`
/// renders as the same document with `\n` line endings.
pub proof fn lemma_crlf_renders_as_lf(s: Seq<char>)
    requires
        !s.contains('\r'),
    ensures
        body_html(crate::text::lf_to_crlf(s)) == body_html(s),
        heading_overflow(crate::text::lf_to_crlf(s)) == heading_overflow(s),
{
    crate::text::lemma_norm_crlf_undoes(s);
    crate::text::lemma_norm_crlf_plain(s);
}

fn push_close_tag(out: &mut Vec<char>, k: ListKind)
    ensures
        final(out)@ == old(out)@ + close_tag(k),
{
    match k {
        ListKind::Unordered => push_str(out, "</ul>\n"),
        ListKind::Ordered => push_str(out, "</ol>\n"),
    }
}

fn close_all_exec(stack: &mut Vec<ListEntry>, out: &mut Vec<char>)
    ensures
        final(out)@ == old(out)@ + close_all(old(stack)@),
        final(stack)@ == Seq::<ListEntry>::empty(),
{
    let ghost start = out@;
    let ghost s0 = stack@;
    while stack.len() > 0
        invariant
            out@ + close_all(stack@) == start + close_all(s0),
        decreases stack.len(),
    {
        let ghost before = out@;
        let ghost st = stack@;
        let e = stack.pop().unwrap();
        push_close_tag(out, e.kind);
        assert(st.drop_last() =~= stack@);
        assert(out@ + close_all(stack@) =~= before + close_all(st));
    }
    assert(out@ + close_all(stack@) =~= out@);
}

fn flush_exec(st: &mut BodyState, out: &mut Vec<char>)
    ensures
        final(out)@ == old(out)@ + flush(old(st).body()).0,
        final(st).body() == flush(old(st).body()).1,
{
    if st.block == BlockState::Paragraph {
        if st.para.len() > 0 {
            push_str(out, "<p>");
            let r = render_inline_chars(&st.para);
            push_all(out, &r);
            push_str(out, "</p>\n");
            st.para = Vec::new();
        }
        st.block = BlockState::Idle;
    }
}

fn close_deeper_exec(stack: &mut Vec<ListEntry>, indent: usize, out: &mut Vec<char>)
    ensures
        final(out)@ == old(out)@ + close_deeper(old(stack)@, indent).0,
        final(stack)@ == close_deeper(old(stack)@, indent).1,
{
    let ghost start = out@;
    let ghost s0 = stack@;
    while stack.len() > 1 && indent < stack[stack.len() - 1].indent
        invariant
            out@ + close_deeper(stack@, indent).0 == start + close_deeper(s0, indent).0,
            close_deeper(stack@, indent).1 == close_deeper(s0, indent).1,
        decreases stack.len(),
    {
        let ghost before = out@;
        let ghost st = stack@;
        let e = stack.pop().unwrap();
        push_close_tag(out, e.kind);
        assert(st.drop_last() =~= stack@);
        assert(out@ + close_deeper(stack@, indent).0 =~= before + close_deeper(st, indent).0);
    }
    assert(out@ + close_deeper(stack@, indent).0 =~= out@);
}

fn list_item_exec(
    stack: &mut Vec<ListEntry>,
    kind: ListKind,
    indent: usize,
    line: &Vec<char>,
    ts: usize,
    out: &mut Vec<char>,
)
    requires
        ts <= line.len(),
    ensures
        final(out)@ == old(out)@ + list_item(old(stack)@, kind, indent, line@.skip(ts as int)).0,
        final(stack)@ == list_item(old(stack)@, kind, indent, line@.skip(ts as int)).1,
{
    let ghost start = out@;
    close_deeper_exec(stack, indent, out);
    if stack.len() == 0 || indent > stack[stack.len() - 1].indent {
        match kind {
            ListKind::Unordered => push_str(out, "<ul>\n"),
            ListKind::Ordered => push_str(out, "<ol>\n"),
        }
        stack.push(ListEntry { kind, indent });
    }
    let ghost text = line@.skip(ts as int);
    assert(line@.skip(ts as int) =~= line@.subrange(ts as int, line@.len() as int));
    if starts_with_at(line, ts, "[ ] ") {
        push_str(out, "<li><input type=\"checkbox\" disabled> ");
        let k = ts + "[ ] ".unicode_len();
        let sub = slice(line, k, line.len());
        assert(sub@ =~= text.skip("[ ] "@.len() as int));
        let r = render_inline_chars(&sub);
        push_all(out, &r);
        push_str(out, "</li>\n");
    } else if starts_with_at(line, ts, "[x] ") || starts_with_at(line, ts, "[X] ") {
        push_str(out, "<li><input type=\"checkbox\" checked disabled> ");
        proof {
            reveal_strlit("[x] ");
            reveal_strlit("[X] ");
        }
        let k = ts + "[x] ".unicode_len();
        let sub = slice(line, k, line.len());
        assert(sub@ =~= text.skip("[x] "@.len() as int));
        let r = render_inline_chars(&sub);
        push_all(out, &r);
        push_str(out, "</li>\n");
    } else {
        push_str(out, "<li>");
        let sub = slice(line, ts, line.len());
        let r = render_inline_chars(&sub);
        push_all(out, &r);
        push_str(out, "</li>\n");
    }
    assert(out@ =~= start + list_item(old(stack)@, kind, indent, text).0);
}

/// Whether the next non-blank line from `j` on starts with four spaces.
fn peek_exec(lines: &Vec<Vec<char>>, j0: usize) -> (b: bool)
    ensures
        b == peek_from(views(lines@), j0 as int),
{
    let mut j = j0;
    while j < lines.len()
        invariant
            j0 <= j,
            peek_from(views(lines@), j0 as int) == peek_from(views(lines@), j as int),
        decreases lines.len() - j,
    {
        let l = &lines[j];
        assert(views(lines@)[j as int] == l@);
        let e = skip_ws_backward(l, 0, l.len());
        assert(l@.subrange(0, l@.len() as int) =~= l@);
        if e > 0 {
            let t = slice(l, 0, e);
            assert(t@.skip(0) =~= t@);
            return starts_with_at(&t, 0, "    ");
        }
        j = j + 1;
    }
    false
}

pub proof fn lemma_table_end(lines: Seq<Seq<char>>, j: int)
    requires
        0 <= j <= lines.len(),
    ensures
        j <= table_end(lines, j) <= lines.len(),
    decreases lines.len() - j,
{
    if j < lines.len() && !(trim(lines[j]).len() == 0 || !trim(lines[j]).contains('|')) {
        lemma_table_end(lines, j + 1);
    }
}

/// Whether a line continues a table's data rows.
fn is_table_row(l: &Vec<char>) -> (b: bool)
    ensures
        b == !(trim(l@).len() == 0 || !trim(l@).contains('|')),
{
    let (x, y) = trim_bounds(l, 0, l.len());
    assert(l@.subrange(0, l@.len() as int) =~= l@);
    x < y && contains_char(l, x, y, '|')
}

/// Renders the table that starts at line `i`; returns the line after it.
fn table_exec(lines: &Vec<Vec<char>>, i: usize, tr_end: usize, out: &mut Vec<char>) -> (j: usize)
    requires
        i + 1 < lines.len(),
        tr_end <= lines@[i as int]@.len(),
        trim_end(lines@[i as int]@) == lines@[i as int]@.take(tr_end as int),
    ensures
        j == table_end(views(lines@), i + 2),
        final(out)@ == old(out)@ + table_html(
            trim_end(views(lines@)[i as int]),
            trim(views(lines@)[i + 1]),
            trimmed_rows(views(lines@), i + 2, j as int),
        ),
{
    let ghost lv = views(lines@);
    let header = slice(&lines[i], 0, tr_end);
    let sl = &lines[i + 1];
    let (sx, sy) = trim_bounds(sl, 0, sl.len());
    let sep = slice(sl, sx, sy);
    assert(sl@.subrange(0, sl@.len() as int) =~= sl@);
    let mut rows: Vec<Vec<char>> = Vec::new();
    let mut j = i + 2;
    proof {
        assert(lv[i as int] == lines@[i as int]@);
        assert(lv[i + 1] == sl@);
        assert(header@ =~= trim_end(lv[i as int]));
        assert(views(rows@) =~= trimmed_rows(lv, i + 2, j as int));
    }
    while j < lines.len() && is_table_row(&lines[j])
        invariant
            i + 2 <= j <= lines.len(),
            lv == views(lines@),
            table_end(lv, i + 2) == table_end(lv, j as int),
            views(rows@) == trimmed_rows(lv, i + 2, j as int),
        decreases lines.len() - j,
    {
        let l = &lines[j];
        assert(lv[j as int] == l@);
        let (x, y) = trim_bounds(l, 0, l.len());
        assert(l@.subrange(0, l@.len() as int) =~= l@);
        let row = slice(l, x, y);
        let ghost before = views(rows@);
        assert(row@ == trim(lv[j as int]));
        rows.push(row);
        assert(views(rows@) =~= before.push(row@));
        j = j + 1;
        assert(views(rows@) =~= trimmed_rows(lv, i + 2, j as int));
    }
    proof {
        if j < lines.len() {
            assert(lv[j as int] == lines@[j as int]@);
        }
    }
    push_table(out, &header, &sep, &rows);
    j
}

fn push_heading(out: &mut Vec<char>, level: usize, tr: &Vec<char>, ts: usize)
    requires
        1 <= level <= 6,
        ts <= tr.len(),
    ensures
        final(out)@ == old(out)@ + heading_html(level as int, tr@.skip(ts as int)),
{
    let ghost start = out@;
    let digit: char = ((level as u8) + 48) as char;
    assert(seq![digit] == level_digit(level as int));
    let text = slice(tr, ts, tr.len());
    assert(text@ =~= tr@.skip(ts as int));
    push_str(out, "<h");
    out.push(digit);
    push_str(out, " id=\"");
    slug_exec(&text, 0, text.len(), out);
    push_str(out, "\"><a class=\"anchor\" href=\"#");
    slug_exec(&text, 0, text.len(), out);
    push_str(out, "\">\u{1F517}</a>");
    let r = render_inline_chars(&text);
    push_all(out, &r);
    push_str(out, "</h");
    out.push(digit);
    push_str(out, ">\n");
    assert(text@.subrange(0, text@.len() as int) =~= text@);
    assert(out@ =~= start + heading_html(level as int, tr@.skip(ts as int)));
}

/// A line that is none of: blank, fence, heading.
#[verifier::rlimit(60)]
fn rest_exec(lines: &Vec<Vec<char>>, i: usize, st: &mut BodyState, out: &mut Vec<char>) -> (next: usize)
    requires
        i < lines.len(),
        utf8_len(lines@[i as int]@) <= usize::MAX,
    ensures
        final(out)@ == old(out)@ + step_rest(views(lines@), i as int, old(st).body()).0,
        next == step_rest(views(lines@), i as int, old(st).body()).1,
        final(st).body() == step_rest(views(lines@), i as int, old(st).body()).2,
        i < next <= lines.len(),
{
    let ghost lv = views(lines@);
    let ghost b0 = st.body();
    let ghost o0 = out@;
    let line = &lines[i];
    assert(lv[i as int] == line@);
    let e = skip_ws_backward(line, 0, line.len());
    assert(line@.subrange(0, line@.len() as int) =~= line@);
    let tr = slice(line, 0, e);
    assert(tr@ == trim_end(line@));
    let ghost f = flush(b0);
    if is_rule_exec(&tr) {
        flush_exec(st, out);
        close_all_exec(&mut st.stack, out);
        push_str(out, "<hr>\n");
        assert(out@ =~= o0 + step_rest(lv, i as int, b0).0);
        assert(st.body() =~= step_rest(lv, i as int, b0).2);
        return i + 1;
    }
    let quoted = starts_with_at(&tr, 0, "> ");
    assert(tr@.skip(0) =~= tr@);
    if quoted || (tr.len() == 1 && tr[0] == '>') {
        let rest: Vec<char> = if quoted {
            let k = "> ".unicode_len();
            slice(&tr, k, tr.len())
        } else {
            Vec::new()
        };
        proof {
            if quoted {
                assert(rest@ =~= tr@.skip("> "@.len() as int));
            } else {
                assert(tr@ =~= seq!['>']);
            }
        }
        flush_exec(st, out);
        close_all_exec(&mut st.stack, out);
        if st.block != BlockState::Blockquote {
            push_str(out, "<blockquote>\n");
        }
        push_str(out, "<p>");
        let r = render_inline_chars(&rest);
        push_all(out, &r);
        push_str(out, "</p>\n");
        st.block = BlockState::Blockquote;
        assert(out@ =~= o0 + step_rest(lv, i as int, b0).0);
        assert(st.body() =~= step_rest(lv, i as int, b0).2);
        return i + 1;
    }
    proof {
        if tr@ == seq!['>'] {
            assert(tr@[0] == '>');
        }
    }
    match parse_bullet_exec(line) {
        Some((ind, ts)) => {
            flush_exec(st, out);
            list_item_exec(&mut st.stack, ListKind::Unordered, ind, line, ts, out);
            assert(out@ =~= o0 + step_rest(lv, i as int, b0).0);
            assert(st.body() =~= step_rest(lv, i as int, b0).2);
            return i + 1;
        },
        None => {},
    }
    match parse_numbered_exec(line) {
        Some((ind, ts)) => {
            flush_exec(st, out);
            list_item_exec(&mut st.stack, ListKind::Ordered, ind, line, ts, out);
            assert(out@ =~= o0 + step_rest(lv, i as int, b0).0);
            assert(st.body() =~= step_rest(lv, i as int, b0).2);
            return i + 1;
        },
        None => {},
    }
    let four = starts_with_at(line, 0, "    ");
    assert(line@.skip(0) =~= line@);
    if four && st.stack.len() == 0 && st.block == BlockState::Idle {
        flush_exec(st, out);
        push_str(out, "<pre><code>");
        let k = "    ".unicode_len();
        push_range(&mut st.code, line, k, line.len());
        assert(line@.subrange(k as int, line@.len() as int) =~= line@.skip("    "@.len() as int));
        st.block = BlockState::IndentedCode;
        assert(out@ =~= o0 + step_rest(lv, i as int, b0).0);
        assert(st.body() =~= step_rest(lv, i as int, b0).2);
        return i + 1;
    }
    if contains_char(&tr, 0, tr.len(), '|') && i + 1 < lines.len() && is_separator_exec(
        &lines[i + 1],
        0,
        lines[i + 1].len(),
    ) {
        proof {
            assert(tr@.subrange(0, tr@.len() as int) =~= tr@);
            assert(lv[i + 1] == lines@[i + 1]@);
            assert(lines@[i + 1]@.subrange(0, lines@[i + 1]@.len() as int) =~= lines@[i + 1]@);
            assert(line@.take(e as int) =~= tr@);
            lemma_table_end(lv, i + 2);
        }
        flush_exec(st, out);
        close_all_exec(&mut st.stack, out);
        let j = table_exec(lines, i, e, out);
        assert(out@ =~= o0 + step_rest(lv, i as int, b0).0);
        assert(st.body() =~= step_rest(lv, i as int, b0).2);
        return j;
    }
    proof {
        assert(tr@.subrange(0, tr@.len() as int) =~= tr@);
        if i + 1 < lines.len() {
            assert(lv[i + 1] == lines@[i + 1]@);
            assert(lines@[i + 1]@.subrange(0, lines@[i + 1]@.len() as int) =~= lines@[i + 1]@);
        }
    }
    close_all_exec(&mut st.stack, out);
    if st.block == BlockState::Blockquote {
        push_str(out, "</blockquote>\n");
    }
    st.block = BlockState::Paragraph;
    if st.para.len() > 0 {
        st.para.push('\n');
    }
    push_all(&mut st.para, &tr);
    assert(out@ =~= o0 + step_rest(lv, i as int, b0).0);
    assert(st.body() =~= step_rest(lv, i as int, b0).2);
    i + 1
}

/// A blank line outside code blocks.
fn blank_exec(lines: &Vec<Vec<char>>, i: usize, st: &mut BodyState, out: &mut Vec<char>)
    requires
        i < lines.len(),
        trim_end(views(lines@)[i as int]).len() == 0,
    ensures
        final(out)@ == old(out)@ + step_plain(views(lines@), i as int, old(st).body()).0,
        final(st).body() == step_plain(views(lines@), i as int, old(st).body()).2,
        step_plain(views(lines@), i as int, old(st).body()).1 == i + 1,
        !step_plain(views(lines@), i as int, old(st).body()).3,
{
    let ghost lv = views(lines@);
    let ghost b0 = st.body();
    let ghost o0 = out@;
    flush_exec(st, out);
    close_all_exec(&mut st.stack, out);
    if st.block == BlockState::Blockquote {
        push_str(out, "</blockquote>\n");
        st.block = BlockState::Idle;
    }
    assert(out@ =~= o0 + step_plain(lv, i as int, b0).0);
    assert(st.body() =~= step_plain(lv, i as int, b0).2);
}

/// A line that opens a fenced code block; `tr` is the line without its
/// trailing whitespace.
fn fence_exec(lines: &Vec<Vec<char>>, i: usize, tr: &Vec<char>, st: &mut BodyState, out: &mut Vec<char>)
    requires
        i < lines.len(),
        tr@ == trim_end(views(lines@)[i as int]),
        tr@.len() > 0,
        starts_with(tr@, "```"@),
    ensures
        final(out)@ == old(out)@ + step_plain(views(lines@), i as int, old(st).body()).0,
        final(st).body() == step_plain(views(lines@), i as int, old(st).body()).2,
        step_plain(views(lines@), i as int, old(st).body()).1 == i + 1,
        !step_plain(views(lines@), i as int, old(st).body()).3,
{
    let ghost lv = views(lines@);
    let ghost b0 = st.body();
    let ghost o0 = out@;
    flush_exec(st, out);
    close_all_exec(&mut st.stack, out);
    let k = "```".unicode_len();
    let (a, b) = trim_bounds(tr, k, tr.len());
    assert(tr@.subrange(k as int, tr@.len() as int) =~= tr@.skip("```"@.len() as int));
    if a == b {
        push_str(out, "<pre><code>");
    } else {
        push_str(out, "<pre><code class=\"language-");
        let lang = slice(tr, a, b);
        push_escaped_all(out, &lang);
        push_str(out, "\">");
    }
    st.block = BlockState::FencedCode;
    assert(out@ =~= o0 + step_plain(lv, i as int, b0).0);
    assert(st.body() =~= step_plain(lv, i as int, b0).2);
}

/// A line outside code blocks.
#[verifier::rlimit(60)]
fn plain_exec(lines: &Vec<Vec<char>>, i: usize, st: &mut BodyState, out: &mut Vec<char>) -> (r: (
    usize,
    bool,
))
    requires
        i < lines.len(),
        utf8_len(lines@[i as int]@) <= usize::MAX,
    ensures
        final(out)@ == old(out)@ + step_plain(views(lines@), i as int, old(st).body()).0,
        r.0 == step_plain(views(lines@), i as int, old(st).body()).1,
        final(st).body() == step_plain(views(lines@), i as int, old(st).body()).2,
        r.1 == step_plain(views(lines@), i as int, old(st).body()).3,
        i < r.0 <= lines.len(),
{
    let ghost lv = views(lines@);
    let ghost b0 = st.body();
    let ghost o0 = out@;
    let line = &lines[i];
    assert(lv[i as int] == line@);
    let e = skip_ws_backward(line, 0, line.len());
    assert(line@.subrange(0, line@.len() as int) =~= line@);
    let tr = slice(line, 0, e);
    assert(tr@ == trim_end(line@));
    if e == 0 {
        blank_exec(lines, i, st, out);
        return (i + 1, false);
    }
    assert(tr@.skip(0) =~= tr@);
    if starts_with_at(&tr, 0, "```") {
        fence_exec(lines, i, &tr, st, out);
        return (i + 1, false);
    }
    let n = hash_run_exec(&tr);
    let ov = n >= 256;
    match parse_heading_exec(&tr) {
        Some((level, ts)) => {
            flush_exec(st, out);
            close_all_exec(&mut st.stack, out);
            push_heading(out, level, &tr, ts);
            assert(out@ =~= o0 + step_plain(lv, i as int, b0).0);
            assert(st.body() =~= step_plain(lv, i as int, b0).2);
            (i + 1, ov)
        },
        None => {
            let next = rest_exec(lines, i, st, out);
            (next, ov)
        },
    }
}

/// One step of the renderer at line `i`.
fn step_exec(lines: &Vec<Vec<char>>, i: usize, st: &mut BodyState, out: &mut Vec<char>) -> (r: (
    usize,
    bool,
))
    requires
        i < lines.len(),
        utf8_len(lines@[i as int]@) <= usize::MAX,
    ensures
        final(out)@ == old(out)@ + step(views(lines@), i as int, old(st).body()).0,
        r.0 == step(views(lines@), i as int, old(st).body()).1,
        final(st).body() == step(views(lines@), i as int, old(st).body()).2,
        r.1 == step(views(lines@), i as int, old(st).body()).3,
        i < r.0 <= lines.len(),
{
    let ghost lv = views(lines@);
    let ghost b0 = st.body();
    let ghost o0 = out@;
    let line = &lines[i];
    assert(lv[i as int] == line@);
    let e = skip_ws_backward(line, 0, line.len());
    assert(line@.subrange(0, line@.len() as int) =~= line@);
    if st.block == BlockState::FencedCode {
        let tr = slice(line, 0, e);
        assert(tr@.skip(0) =~= tr@);
        if starts_with_at(&tr, 0, "```") {
            push_escaped_all(out, &st.code);
            push_str(out, "</code></pre>\n");
            st.code = Vec::new();
            st.block = BlockState::Idle;
        } else {
            if st.code.len() > 0 {
                st.code.push('\n');
            }
            push_all(&mut st.code, line);
        }
        assert(out@ =~= o0 + step(lv, i as int, b0).0);
        assert(st.body() =~= step(lv, i as int, b0).2);
        return (i + 1, false);
    }
    if st.block == BlockState::IndentedCode {
        let four = starts_with_at(line, 0, "    ");
        assert(line@.skip(0) =~= line@);
        if four || (e == 0 && peek_exec(lines, i + 1)) {
            if st.code.len() > 0 {
                st.code.push('\n');
            }
            if four {
                let k = "    ".unicode_len();
                push_range(&mut st.code, line, k, line.len());
                assert(line@.subrange(k as int, line@.len() as int) =~= line@.skip(
                    "    "@.len() as int,
                ));
            }
            assert(st.body() =~= step(lv, i as int, b0).2);
            return (i + 1, false);
        }
        push_escaped_all(out, &st.code);
        push_str(out, "</code></pre>\n");
        st.code = Vec::new();
        st.block = BlockState::Idle;
        let r = plain_exec(lines, i, st, out);
        assert(out@ =~= o0 + step(lv, i as int, b0).0);
        return r;
    }
    plain_exec(lines, i, st, out)
}

fn finish_exec(st: &mut BodyState, out: &mut Vec<char>)
    ensures
        final(out)@ == old(out)@ + finish(old(st).body()),
{
    let ghost o0 = out@;
    let ghost b0 = st.body();
    flush_exec(st, out);
    close_all_exec(&mut st.stack, out);
    if st.block == BlockState::Blockquote {
        push_str(out, "</blockquote>\n");
    }
    if st.block == BlockState::FencedCode || st.block == BlockState::IndentedCode {
        push_escaped_all(out, &st.code);
        push_str(out, "</code></pre>\n");
    }
    assert(out@ =~= o0 + finish(b0));
}

/// Renders the Markdown `source` to an HTML body, and tells whether the
/// heading check met a run of 256 or more `#`.
pub fn render_body_chars(source: &Vec<char>) -> (r: (Vec<char>, bool))
    requires
        utf8_len(source@) <= usize::MAX,
    ensures
        r.0@ == body_html(source@),
        r.1 == heading_overflow(source@),
{
    let norm = crate::text::normalize_newlines(source);
    let lines = crate::text::split_lines(&norm);
    let ghost lv = views(lines@);
    let mut st = BodyState { block: BlockState::Idle, para: Vec::new(), code: Vec::new(), stack: Vec::new() };
    let mut out: Vec<char> = Vec::new();
    let mut ov = false;
    let mut i: usize = 0;
    assert(st.body() =~= init_body());
    while i < lines.len()
        invariant
            i <= lines.len(),
            lv == views(lines@),
            lv == source_lines(source@),
            forall|k: int| 0 <= k < lines.len() ==> utf8_len(#[trigger] lines@[k]@) <= usize::MAX,
            out@ + body_from(lv, i as int, st.body()) == body_from(lv, 0, init_body()),
            (ov || overflow_from(lv, i as int, st.body())) == overflow_from(lv, 0, init_body()),
        decreases lines.len() - i,
    {
        let ghost b = st.body();
        let ghost o = out@;
        let (next, f) = step_exec(&lines, i, &mut st, &mut out);
        assert(out@ + body_from(lv, next as int, st.body()) =~= o + body_from(lv, i as int, b));
        ov = ov || f;
        i = next;
    }
    let ghost b = st.body();
    let ghost o = out@;
    finish_exec(&mut st, &mut out);
    assert(out@ =~= o + body_from(lv, i as int, b));
    (out, ov)
}

} // verus!
