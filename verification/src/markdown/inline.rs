//! Inline formatting: code spans, images, links, emphasis, strikethrough,
//! bare URLs, and escaping of everything else.
use vstd::prelude::*;
use crate::text::{find_char, find_char_exec, lemma_find_char, is_ws, starts_with, push_str, push_all, slice, starts_with_at, is_whitespace};
use crate::markdown::escape::{escape, escape_char, push_escaped};

verus! {

/// The kinds of delimited spans whose content is itself inline text.
#[derive(Clone, Copy)]
pub enum Emph {
    StrongEm,
    Del,
    Strong,
    Em,
}

pub open spec fn emph_open(k: Emph) -> Seq<char> {
    match k {
        Emph::StrongEm => "<strong><em>"@,
        Emph::Del => "<del>"@,
        Emph::Strong => "<strong>"@,
        Emph::Em => "<em>"@,
    }
}

pub open spec fn emph_close(k: Emph) -> Seq<char> {
    match k {
        Emph::StrongEm => "</em></strong>"@,
        Emph::Del => "</del>"@,
        Emph::Strong => "</strong>"@,
        Emph::Em => "</em>"@,
    }
}

/// What the inline scanner recognises at one position; positions index the text.
#[derive(Clone, Copy)]
pub enum InlineTok {
    /// A code span whose text is `lo..hi`.
    Code { lo: usize, hi: usize, next: usize },
    /// An opening backtick run of `n` with no closing run: literal backticks.
    Ticks { n: usize },
    Image { alt_lo: usize, alt_hi: usize, url_lo: usize, url_hi: usize, next: usize },
    Link { text_lo: usize, text_hi: usize, url_lo: usize, url_hi: usize, next: usize },
    /// A delimited span whose inner text is `lo..hi`.
    Wrap { kind: Emph, lo: usize, hi: usize, next: usize },
    /// A bare URL `i..hi`; scanning resumes at `next` (clamped to the text's length).
    Auto { hi: usize, next: usize },
    /// A character that stands for itself.
    Plain,
}

/// Length of the run of backticks that starts at `i`.
pub open spec fn tick_run(s: Seq<char>, i: int) -> int
    decreases s.len() - i,
{
    if 0 <= i < s.len() && s[i] == '`' {
        1 + tick_run(s, i + 1)
    } else {
        0
    }
}

pub open spec fn ticks(n: int) -> Seq<char> {
    Seq::new(n as nat, |k: int| '`')
}

/// First position at or after `start` where `p` occurs.
pub open spec fn find_seq(s: Seq<char>, p: Seq<char>, start: int) -> Option<int>
    decreases s.len() + 1 - start,
{
    if start < 0 || start + p.len() > s.len() {
        None
    } else if s.subrange(start, start + p.len()) == p {
        Some(start)
    } else {
        find_seq(s, p, start + 1)
    }
}

/// `[text](url)` starting with the `[` at `bs`: the positions of `]` and `)`.
pub open spec fn parse_link(s: Seq<char>, bs: int) -> Option<(int, int)> {
    match find_char(s, ']', bs + 1) {
        None => None,
        Some(close) => {
            if close + 1 >= s.len() || s[close + 1] != '(' {
                None
            } else {
                match find_char(s, ')', close + 2) {
                    None => None,
                    Some(e) => Some((close, e)),
                }
            }
        },
    }
}

/// Characters that end a bare URL.
pub open spec fn url_stop(c: char) -> bool {
    is_ws(c) || c == '<' || c == '>' || c == '"'
}

/// Punctuation that is stripped from the end of a bare URL.
pub open spec fn url_trailing(c: char) -> bool {
    c == '.' || c == ',' || c == ';' || c == ':' || c == '!' || c == '?' || c == ')'
}

pub open spec fn first_stop(s: Seq<char>, k: int) -> int
    decreases s.len() - k,
{
    if k < 0 || k >= s.len() {
        s.len() as int
    } else if url_stop(s[k]) {
        k
    } else {
        first_stop(s, k + 1)
    }
}

pub open spec fn trim_trailing(s: Seq<char>, lo: int, hi: int) -> int
    decreases hi - lo,
{
    if hi > lo && url_trailing(s[hi - 1]) {
        trim_trailing(s, lo, hi - 1)
    } else {
        hi
    }
}

/// Length of the scheme prefix of a bare URL at `i`, or -1.
pub open spec fn url_prefix_len(s: Seq<char>, i: int) -> int {
    if starts_with(s.skip(i), "https://"@) {
        "https://"@.len() as int
    } else if starts_with(s.skip(i), "http://"@) {
        "http://"@.len() as int
    } else {
        -1
    }
}

/// A bare `http://` or `https://` URL at `i`: the end of the URL.
pub open spec fn try_url(s: Seq<char>, i: int) -> Option<int> {
    let p = url_prefix_len(s, i);
    if p < 0 || s.len() - i == p {
        None
    } else {
        let h = trim_trailing(s, i, first_stop(s, i));
        if h - i <= p {
            None
        } else {
            Some(h)
        }
    }
}

/// A bare URL that the scanner links runs from `i` up to `hi` without
/// whitespace, `<`, `>` or `"`; it never ends with `.`, `,`, `;`, `:`, `!`,
/// `?` or `)`; and what lies between its end and the next whitespace, `<`,
/// `>` or `"` (or the end of the text) is only such punctuation, left as
/// text after the link.
pub proof fn lemma_autolink_trims_punctuation(s: Seq<char>, i: int)
    requires
        0 <= i < s.len(),
        s.len() <= usize::MAX,
    ensures
        inline_tok(s, i) matches InlineTok::Auto { hi, next } ==> {
            let h = hi as int;
            &&& i < h <= s.len()
            &&& next == hi
            &&& forall|j: int|
                i <= j < h ==> !is_ws(#[trigger] s[j]) && s[j] != '<' && s[j] != '>' && s[j] != '"'
            &&& {
                let c = s[h - 1];
                !(c == '.' || c == ',' || c == ';' || c == ':' || c == '!' || c == '?' || c == ')')
            }
            &&& forall|j: int|
                h <= j < first_stop(s, i) ==> {
                    let c = #[trigger] s[j];
                    c == '.' || c == ',' || c == ';' || c == ':' || c == '!' || c == '?' || c == ')'
                }
            &&& first_stop(s, i) < s.len() ==> {
                let c = s[first_stop(s, i)];
                is_ws(c) || c == '<' || c == '>' || c == '"'
            }
        },
{
    reveal(inline_tok);
    lemma_first_stop(s, i);
    let f = first_stop(s, i);
    lemma_trim_trailing(s, i, f);
}

proof fn lemma_first_stop_at(s: Seq<char>, k: int, e: int)
    requires
        0 <= k <= e <= s.len(),
        forall|j: int| k <= j < e ==> !url_stop(#[trigger] s[j]),
        e < s.len() ==> url_stop(s[e]),
    ensures
        first_stop(s, k) == e,
    decreases e - k,
{
    if k < e {
        lemma_first_stop_at(s, k + 1, e);
    }
}

proof fn lemma_trim_trailing_at(s: Seq<char>, lo: int, h: int, e: int)
    requires
        lo < h <= e,
        !url_trailing(s[h - 1]),
        forall|j: int| h <= j < e ==> url_trailing(#[trigger] s[j]),
    ensures
        trim_trailing(s, lo, e) == h,
    decreases e - h,
{
    if h < e {
        lemma_trim_trailing_at(s, lo, h, e - 1);
    }
}

/// A bare `https://` or `http://` URL is linked exactly up to its last
/// character that is not trailing punctuation: where the text from `i`
/// starts with the scheme, has no whitespace, `<`, `>` or `"` before `e`
/// (where one stands, or the text ends), and `i..h` is longer than the scheme
/// and is followed up to `e` only by `.`, `,`, `;`, `:`, `!`, `?` or `)`, the
/// scanner finds a link to `i..h` and resumes after it.
pub proof fn lemma_autolink_found(s: Seq<char>, i: int, h: int, e: int)
    requires
        s.len() <= usize::MAX,
        0 <= i < h <= e <= s.len(),
        (starts_with(s.skip(i), "https://"@) && h > i + 8) || (starts_with(s.skip(i), "http://"@) && h > i + 7),
        forall|j: int| i <= j < e ==> !is_ws(#[trigger] s[j]) && s[j] != '<' && s[j] != '>' && s[j] != '"',
        e < s.len() ==> (is_ws(s[e]) || s[e] == '<' || s[e] == '>' || s[e] == '"'),
        ({
            let c = s[h - 1];
            !(c == '.' || c == ',' || c == ';' || c == ':' || c == '!' || c == '?' || c == ')')
        }),
        forall|j: int|
            h <= j < e ==> {
                let c = #[trigger] s[j];
                c == '.' || c == ',' || c == ';' || c == ':' || c == '!' || c == '?' || c == ')'
            },
    ensures
        inline_tok(s, i) == (InlineTok::Auto { hi: h as usize, next: h as usize }),
{
    reveal(inline_tok);
    reveal_strlit("https://");
    reveal_strlit("http://");
    let t = s.skip(i);
    lemma_first_stop_at(s, i, e);
    lemma_trim_trailing_at(s, i, h, e);
    if starts_with(t, "https://"@) {
        assert(t.take(8)[0] == t[0]);
        assert(t.take(8)[4] == t[4]);
        assert(!starts_with(t, "http://"@)) by {
            if starts_with(t, "http://"@) {
                assert(t.take(7)[4] == t[4]);
            }
        }
        assert(url_prefix_len(s, i) == 8);
    } else {
        assert(t.take(7)[0] == t[0]);
        assert(t.take(7)[4] == t[4]);
        assert(!starts_with(t, "https://"@)) by {
            if starts_with(t, "https://"@) {
                assert(t.take(8)[4] == t[4]);
            }
        }
        assert(url_prefix_len(s, i) == 7);
    }
    assert(s[i] == t[0]);
}

/// What the scanner recognises at position `i` of `s`.
#[verifier::opaque]
pub open spec fn inline_tok(s: Seq<char>, i: int) -> InlineTok {
    let len = s.len() as int;
    if s[i] == '`' {
        let n = tick_run(s, i);
        match find_seq(s, ticks(n), i + n) {
            Some(j) => InlineTok::Code { lo: (i + n) as usize, hi: j as usize, next: (j + n) as usize },
            None => InlineTok::Ticks { n: n as usize },
        }
    } else if s[i] == '!' && i + 1 < len && s[i + 1] == '[' && parse_link(s, i + 1) is Some {
        let (close, e) = parse_link(s, i + 1).unwrap();
        InlineTok::Image {
            alt_lo: (i + 2) as usize,
            alt_hi: close as usize,
            url_lo: (close + 2) as usize,
            url_hi: e as usize,
            next: (e + 1) as usize,
        }
    } else if s[i] == '[' && parse_link(s, i) is Some {
        let (close, e) = parse_link(s, i).unwrap();
        InlineTok::Link {
            text_lo: (i + 1) as usize,
            text_hi: close as usize,
            url_lo: (close + 2) as usize,
            url_hi: e as usize,
            next: (e + 1) as usize,
        }
    } else if i + 2 < len && s[i] == '*' && s[i + 1] == '*' && s[i + 2] == '*' && find_seq(
        s,
        "***"@,
        i + 3,
    ) is Some {
        let e = find_seq(s, "***"@, i + 3).unwrap();
        InlineTok::Wrap {
            kind: Emph::StrongEm,
            lo: (i + 3) as usize,
            hi: e as usize,
            next: (e + 3) as usize,
        }
    } else if i + 1 < len && s[i] == '~' && s[i + 1] == '~' && find_seq(s, "~~"@, i + 2) is Some {
        let e = find_seq(s, "~~"@, i + 2).unwrap();
        InlineTok::Wrap { kind: Emph::Del, lo: (i + 2) as usize, hi: e as usize, next: (e + 2) as usize }
    } else if i + 1 < len && s[i] == '*' && s[i + 1] == '*' && find_seq(s, "**"@, i + 2) is Some {
        let e = find_seq(s, "**"@, i + 2).unwrap();
        InlineTok::Wrap {
            kind: Emph::Strong,
            lo: (i + 2) as usize,
            hi: e as usize,
            next: (e + 2) as usize,
        }
    } else if s[i] == '*' && find_char(s, '*', i + 1) is Some {
        let e = find_char(s, '*', i + 1).unwrap();
        InlineTok::Wrap { kind: Emph::Em, lo: (i + 1) as usize, hi: e as usize, next: (e + 1) as usize }
    } else if s[i] == 'h' && try_url(s, i) is Some {
        let h = try_url(s, i).unwrap();
        InlineTok::Auto { hi: h as usize, next: h as usize }
    } else {
        InlineTok::Plain
    }
}

/// Where scanning resumes after the token `t` found at `i`.
pub open spec fn tok_next(t: InlineTok, i: int) -> int {
    match t {
        InlineTok::Code { next, .. } => next as int,
        InlineTok::Ticks { n } => i + n,
        InlineTok::Image { next, .. } => next as int,
        InlineTok::Link { next, .. } => next as int,
        InlineTok::Wrap { next, .. } => next as int,
        InlineTok::Auto { next, .. } => next as int,
        InlineTok::Plain => i + 1,
    }
}

/// The positions of a token lie inside the text, after `i`.
pub open spec fn tok_wf(t: InlineTok, i: int, len: int) -> bool {
    match t {
        InlineTok::Code { lo, hi, next } => i < lo <= hi < next <= len,
        InlineTok::Ticks { n } => 0 < n && i + n <= len,
        InlineTok::Image { alt_lo, alt_hi, url_lo, url_hi, next } => i < alt_lo <= alt_hi < url_lo
            <= url_hi < next <= len,
        InlineTok::Link { text_lo, text_hi, url_lo, url_hi, next } => i < text_lo <= text_hi
            < url_lo <= url_hi < next <= len,
        InlineTok::Wrap { lo, hi, next, .. } => i < lo <= hi < next <= len,
        InlineTok::Auto { hi, next } => i < hi <= len && i < next <= len,
        InlineTok::Plain => i < len,
    }
}

/// Code span text: one space is stripped from each end when both ends hold one.
pub open spec fn code_text(t: Seq<char>) -> Seq<char> {
    if t.len() > 1 && t[0] == ' ' && t.last() == ' ' {
        t.subrange(1, t.len() - 1)
    } else {
        t
    }
}

/// The span of a token whose content is itself rendered as inline text.
pub open spec fn inner_range(t: InlineTok) -> Option<(int, int)> {
    match t {
        InlineTok::Link { text_lo, text_hi, .. } => Some((text_lo as int, text_hi as int)),
        InlineTok::Wrap { lo, hi, .. } => Some((lo as int, hi as int)),
        _ => None,
    }
}

/// The HTML for the token `t` at `i`, given the HTML `inner` of its content.
pub open spec fn tok_piece(s: Seq<char>, i: int, t: InlineTok, inner: Seq<char>) -> Seq<char> {
    match t {
        InlineTok::Code { lo, hi, .. } => "<code>"@ + escape(code_text(s.subrange(lo as int, hi as int)))
            + "</code>"@,
        InlineTok::Ticks { n } => ticks(n as int),
        InlineTok::Image { alt_lo, alt_hi, url_lo, url_hi, .. } => "<img src=\""@ + escape(
            s.subrange(url_lo as int, url_hi as int),
        ) + "\" alt=\""@ + escape(s.subrange(alt_lo as int, alt_hi as int)) + "\">"@,
        InlineTok::Link { url_lo, url_hi, .. } => "<a href=\""@ + escape(
            s.subrange(url_lo as int, url_hi as int),
        ) + "\">"@ + inner + "</a>"@,
        InlineTok::Wrap { kind, .. } => emph_open(kind) + inner + emph_close(kind),
        InlineTok::Auto { hi, .. } => "<a href=\""@ + escape(s.subrange(i, hi as int)) + "\">"@
            + escape(s.subrange(i, hi as int)) + "</a>"@,
        InlineTok::Plain => escape_char(s[i]),
    }
}

/// The HTML for the text `s[i..]`.
pub open spec fn inline_from(s: Seq<char>, i: int) -> Seq<char>
    decreases s.len(), s.len() - i,
{
    if i < 0 || i >= s.len() {
        seq![]
    } else {
        let t = inline_tok(s, i);
        let inner = match inner_range(t) {
            Some((lo, hi)) => if 0 <= lo <= hi <= s.len() && hi - lo < s.len() {
                inline_from(s.subrange(lo, hi), 0)
            } else {
                seq![]
            },
            None => seq![],
        };
        let next = tok_next(t, i);
        tok_piece(s, i, t, inner) + (if i < next < s.len() {
            inline_from(s, next)
        } else {
            seq![]
        })
    }
}

/// The HTML for the inline text `s`.
pub open spec fn inline_html(s: Seq<char>) -> Seq<char> {
    inline_from(s, 0)
}

/// Whether every `<` in `s` has two more characters after it, and neither
/// it nor a `/` after it is followed by `x` or `y`: `s` holds no tag whose
/// name starts with `x` or `y`, opening or closing.
pub open spec fn tags_avoid(s: Seq<char>, x: char, y: char) -> bool {
    forall|i: int|
        0 <= i < s.len() && #[trigger] s[i] == '<' ==> i + 2 < s.len() && s[i + 1] != x && s[i + 1] != y
            && (s[i + 1] == '/' ==> s[i + 2] != x && s[i + 2] != y)
}

/// Whether `s` holds no `<t…` or `</t…` tag.
pub open spec fn no_table_tags(s: Seq<char>) -> bool {
    tags_avoid(s, 't', 't')
}

/// The letters that start no tag that inline HTML emits.
pub open spec fn not_inline_tag_letter(x: char) -> bool {
    x != 'c' && x != 'i' && x != 'a' && x != 's' && x != 'e' && x != 'd' && x != '/'
}

pub proof fn lemma_tags_avoid_concat(a: Seq<char>, b: Seq<char>, x: char, y: char)
    requires
        tags_avoid(a, x, y),
        tags_avoid(b, x, y),
    ensures
        tags_avoid(a + b, x, y),
{
    let c = a + b;
    assert forall|i: int| 0 <= i < c.len() && #[trigger] c[i] == '<' implies i + 2 < c.len() && c[i + 1]
        != x && c[i + 1] != y && (c[i + 1] == '/' ==> c[i + 2] != x && c[i + 2] != y) by {
        if i < a.len() {
            assert(a[i] == '<');
            assert(c[i + 1] == a[i + 1] && c[i + 2] == a[i + 2]);
        } else {
            assert(b[i - a.len()] == '<');
            assert(c[i + 1] == b[i + 1 - a.len()] && c[i + 2] == b[i + 2 - a.len()]);
        }
    }
}

pub proof fn lemma_no_lt(s: Seq<char>, x: char, y: char)
    requires
        !s.contains('<'),
    ensures
        tags_avoid(s, x, y),
{
    assert forall|i: int| 0 <= i < s.len() && #[trigger] s[i] == '<' implies false by {
        assert(s.contains('<'));
    }
}

proof fn lemma_tag_literals(x: char, y: char)
    requires
        not_inline_tag_letter(x),
        not_inline_tag_letter(y),
    ensures
        tags_avoid("<code>"@, x, y),
        tags_avoid("</code>"@, x, y),
        tags_avoid("<img src=\""@, x, y),
        tags_avoid("\" alt=\""@, x, y),
        tags_avoid("\">"@, x, y),
        tags_avoid("<a href=\""@, x, y),
        tags_avoid("</a>"@, x, y),
        tags_avoid("<strong><em>"@, x, y),
        tags_avoid("</em></strong>"@, x, y),
        tags_avoid("<del>"@, x, y),
        tags_avoid("</del>"@, x, y),
        tags_avoid("<strong>"@, x, y),
        tags_avoid("</strong>"@, x, y),
        tags_avoid("<em>"@, x, y),
        tags_avoid("</em>"@, x, y),
{
    reveal_strlit("<code>");
    reveal_strlit("</code>");
    reveal_strlit("<img src=\"");
    reveal_strlit("\" alt=\"");
    reveal_strlit("\">");
    reveal_strlit("<a href=\"");
    reveal_strlit("</a>");
    reveal_strlit("<strong><em>");
    reveal_strlit("</em></strong>");
    reveal_strlit("<del>");
    reveal_strlit("</del>");
    reveal_strlit("<strong>");
    reveal_strlit("</strong>");
    reveal_strlit("<em>");
    reveal_strlit("</em>");
}

pub proof fn lemma_escape_tags_avoid(s: Seq<char>, x: char, y: char)
    ensures
        tags_avoid(escape(s), x, y),
{
    crate::markdown::escape::lemma_escape_no_markup(s);
    lemma_no_lt(escape(s), x, y);
}

proof fn lemma_piece_tags_avoid(s: Seq<char>, i: int, t: InlineTok, inner: Seq<char>, x: char, y: char)
    requires
        not_inline_tag_letter(x),
        not_inline_tag_letter(y),
        0 <= i < s.len(),
        tags_avoid(inner, x, y),
    ensures
        tags_avoid(tok_piece(s, i, t, inner), x, y),
{
    lemma_tag_literals(x, y);
    match t {
        InlineTok::Code { lo, hi, .. } => {
            let e = escape(code_text(s.subrange(lo as int, hi as int)));
            lemma_escape_tags_avoid(code_text(s.subrange(lo as int, hi as int)), x, y);
            lemma_tags_avoid_concat("<code>"@, e, x, y);
            lemma_tags_avoid_concat("<code>"@ + e, "</code>"@, x, y);
        },
        InlineTok::Ticks { n } => {
            assert(!ticks(n as int).contains('<'));
            lemma_no_lt(ticks(n as int), x, y);
        },
        InlineTok::Image { alt_lo, alt_hi, url_lo, url_hi, .. } => {
            let u = escape(s.subrange(url_lo as int, url_hi as int));
            let a = escape(s.subrange(alt_lo as int, alt_hi as int));
            lemma_escape_tags_avoid(s.subrange(url_lo as int, url_hi as int), x, y);
            lemma_escape_tags_avoid(s.subrange(alt_lo as int, alt_hi as int), x, y);
            lemma_tags_avoid_concat("<img src=\""@, u, x, y);
            lemma_tags_avoid_concat("<img src=\""@ + u, "\" alt=\""@, x, y);
            lemma_tags_avoid_concat("<img src=\""@ + u + "\" alt=\""@, a, x, y);
            lemma_tags_avoid_concat("<img src=\""@ + u + "\" alt=\""@ + a, "\">"@, x, y);
        },
        InlineTok::Link { url_lo, url_hi, .. } => {
            let u = escape(s.subrange(url_lo as int, url_hi as int));
            lemma_escape_tags_avoid(s.subrange(url_lo as int, url_hi as int), x, y);
            lemma_tags_avoid_concat("<a href=\""@, u, x, y);
            lemma_tags_avoid_concat("<a href=\""@ + u, "\">"@, x, y);
            lemma_tags_avoid_concat("<a href=\""@ + u + "\">"@, inner, x, y);
            lemma_tags_avoid_concat("<a href=\""@ + u + "\">"@ + inner, "</a>"@, x, y);
        },
        InlineTok::Wrap { kind, .. } => {
            lemma_tags_avoid_concat(emph_open(kind), inner, x, y);
            lemma_tags_avoid_concat(emph_open(kind) + inner, emph_close(kind), x, y);
        },
        InlineTok::Auto { hi, .. } => {
            let u = escape(s.subrange(i, hi as int));
            lemma_escape_tags_avoid(s.subrange(i, hi as int), x, y);
            lemma_tags_avoid_concat("<a href=\""@, u, x, y);
            lemma_tags_avoid_concat("<a href=\""@ + u, "\">"@, x, y);
            lemma_tags_avoid_concat("<a href=\""@ + u + "\">"@, u, x, y);
            lemma_tags_avoid_concat("<a href=\""@ + u + "\">"@ + u, "</a>"@, x, y);
        },
        InlineTok::Plain => {
            reveal_strlit("&lt;");
            reveal_strlit("&gt;");
            reveal_strlit("&amp;");
            reveal_strlit("&quot;");
            assert(!escape_char(s[i]).contains('<'));
            lemma_no_lt(escape_char(s[i]), x, y);
        },
    }
}

/// Inline HTML holds no tag whose name starts with `x` or `y`, for any
/// letters that start none of its own tags.
pub proof fn lemma_inline_tags_avoid(s: Seq<char>, i: int, x: char, y: char)
    requires
        not_inline_tag_letter(x),
        not_inline_tag_letter(y),
    ensures
        tags_avoid(inline_from(s, i), x, y),
    decreases s.len(), s.len() - i,
{
    if i < 0 || i >= s.len() {
        lemma_no_lt(Seq::<char>::empty(), x, y);
    } else {
        let t = inline_tok(s, i);
        let inner = match inner_range(t) {
            Some((lo, hi)) => if 0 <= lo <= hi <= s.len() && hi - lo < s.len() {
                lemma_inline_tags_avoid(s.subrange(lo, hi), 0, x, y);
                inline_from(s.subrange(lo, hi), 0)
            } else {
                lemma_no_lt(Seq::<char>::empty(), x, y);
                seq![]
            },
            None => {
                lemma_no_lt(Seq::<char>::empty(), x, y);
                seq![]
            },
        };
        lemma_piece_tags_avoid(s, i, t, inner, x, y);
        let next = tok_next(t, i);
        if i < next < s.len() {
            lemma_inline_tags_avoid(s, next, x, y);
            lemma_tags_avoid_concat(tok_piece(s, i, t, inner), inline_from(s, next), x, y);
        } else {
            lemma_no_lt(Seq::<char>::empty(), x, y);
            lemma_tags_avoid_concat(tok_piece(s, i, t, inner), Seq::<char>::empty(), x, y);
            assert(tok_piece(s, i, t, inner) + Seq::<char>::empty() =~= tok_piece(s, i, t, inner));
        }
    }
}

/// Inline HTML holds no table tags.
pub proof fn lemma_inline_no_table_tags(s: Seq<char>, i: int)
    ensures
        no_table_tags(inline_from(s, i)),
{
    lemma_inline_tags_avoid(s, i, 't', 't');
}

/// Whether `s` holds none of the characters that start inline markup
/// (`` ` ``, `*`, `~`, `[`) and no `http://` or `https://`.
pub open spec fn markup_free(s: Seq<char>) -> bool {
    &&& forall|i: int|
        0 <= i < s.len() ==> #[trigger] s[i] != '`' && s[i] != '*' && s[i] != '~' && s[i] != '['
    &&& forall|i: int|
        0 <= i < s.len() ==> !starts_with(#[trigger] s.skip(i), "http://"@) && !starts_with(
            s.skip(i),
            "https://"@,
        )
}

proof fn lemma_markup_free_from(s: Seq<char>, i: int)
    requires
        markup_free(s),
        0 <= i <= s.len(),
    ensures
        inline_from(s, i) == escape(s.skip(i)),
    decreases s.len() - i,
{
    if i == s.len() {
        assert(s.skip(i) =~= Seq::<char>::empty());
    } else {
        reveal(inline_tok);
        assert(s[i] != '`' && s[i] != '*' && s[i] != '~' && s[i] != '[');
        assert(!starts_with(s.skip(i), "http://"@) && !starts_with(s.skip(i), "https://"@));
        assert(url_prefix_len(s, i) < 0);
        assert(inline_tok(s, i) == InlineTok::Plain);
        lemma_markup_free_from(s, i + 1);
        assert(s.skip(i) =~= seq![s[i]] + s.skip(i + 1));
        crate::markdown::escape::lemma_escape_append(seq![s[i]], s.skip(i + 1));
        assert(seq![s[i]].drop_last() =~= Seq::<char>::empty());
        assert(seq![s[i]].last() == s[i]);
        assert(escape(Seq::<char>::empty()) == Seq::<char>::empty());
        assert(escape(seq![s[i]]) =~= escape_char(s[i]));
        if i + 1 == s.len() {
            assert(s.skip(i + 1) =~= Seq::<char>::empty());
        }
    }
}

/// Text without inline markup renders as its escaped self.
pub proof fn lemma_markup_free_is_escaped(s: Seq<char>)
    requires
        markup_free(s),
    ensures
        inline_html(s) == escape(s),
{
    lemma_markup_free_from(s, 0);
    assert(s.skip(0) =~= s);
}

proof fn lemma_find_seq(s: Seq<char>, p: Seq<char>, start: int)
    ensures
        find_seq(s, p, start) matches Some(k) ==> start <= k && k + p.len() <= s.len()
            && s.subrange(k, k + p.len()) == p,
    decreases s.len() + 1 - start,
{
    if 0 <= start && start + p.len() <= s.len() && s.subrange(start, start + p.len()) != p {
        lemma_find_seq(s, p, start + 1);
    }
}

proof fn lemma_tick_run(s: Seq<char>, i: int)
    requires
        0 <= i <= s.len(),
    ensures
        0 <= tick_run(s, i) <= s.len() - i,
        i < s.len() && s[i] == '`' ==> tick_run(s, i) >= 1,
        forall|k: int| i <= k < i + tick_run(s, i) ==> s[k] == '`',
    decreases s.len() - i,
{
    if i < s.len() && s[i] == '`' {
        lemma_tick_run(s, i + 1);
    }
}

/// Where a run that starts at `k` ends: no stop before it, and a stop or
/// the end of the text there.
proof fn lemma_first_stop(s: Seq<char>, k: int)
    requires
        0 <= k <= s.len(),
    ensures
        k <= first_stop(s, k) <= s.len(),
        forall|j: int| k <= j < first_stop(s, k) ==> !url_stop(#[trigger] s[j]),
        first_stop(s, k) < s.len() ==> url_stop(s[first_stop(s, k)]),
    decreases s.len() - k,
{
    if k < s.len() && !url_stop(s[k]) {
        lemma_first_stop(s, k + 1);
    }
}

/// Stripping trailing punctuation removes only punctuation, and stops at a
/// character that is not.
proof fn lemma_trim_trailing(s: Seq<char>, lo: int, hi: int)
    requires
        lo <= hi,
    ensures
        lo <= trim_trailing(s, lo, hi) <= hi,
        forall|j: int| trim_trailing(s, lo, hi) <= j < hi ==> url_trailing(#[trigger] s[j]),
        trim_trailing(s, lo, hi) > lo ==> !url_trailing(s[trim_trailing(s, lo, hi) - 1]),
    decreases hi - lo,
{
    if hi > lo && url_trailing(s[hi - 1]) {
        lemma_trim_trailing(s, lo, hi - 1);
    }
}

fn find_seq_exec(s: &Vec<char>, p: &Vec<char>, start: usize) -> (r: Option<usize>)
    ensures
        match r {
            Some(k) => find_seq(s@, p@, start as int) == Some(k as int),
            None => find_seq(s@, p@, start as int) is None,
        },
{
    if p.len() > s.len() {
        return None;
    }
    let mut k = start;
    while k <= s.len() - p.len()
        invariant
            start <= k,
            p.len() <= s.len(),
            find_seq(s@, p@, start as int) == find_seq(s@, p@, k as int),
        decreases s.len() - k,
    {
        let mut j: usize = 0;
        let mut same = true;
        while j < p.len()
            invariant
                k + p.len() <= s.len(),
                j <= p.len(),
                same == (forall|m: int| 0 <= m < j ==> s@[k + m] == p@[m]),
            decreases p.len() - j,
        {
            if s[k + j] != p[j] {
                same = false;
            }
            j = j + 1;
        }
        proof {
            let sub = s@.subrange(k as int, k + p.len());
            if same {
                assert(sub =~= p@);
            } else {
                let m = choose|m: int| 0 <= m < p.len() && s@[k + m] != p@[m];
                assert(sub[m] != p@[m]);
            }
        }
        if same {
            return Some(k);
        }
        k = k + 1;
    }
    None
}

fn tick_run_exec(s: &Vec<char>, i: usize) -> (n: usize)
    requires
        i <= s.len(),
    ensures
        n == tick_run(s@, i as int),
        i + n <= s.len(),
{
    let mut k = i;
    while k < s.len() && s[k] == '`'
        invariant
            i <= k <= s.len(),
            tick_run(s@, i as int) == (k - i) + tick_run(s@, k as int),
        decreases s.len() - k,
    {
        k = k + 1;
    }
    proof {
        lemma_tick_run(s@, i as int);
    }
    k - i
}

fn parse_link_exec(s: &Vec<char>, bs: usize) -> (r: Option<(usize, usize)>)
    requires
        bs < s.len(),
    ensures
        match r {
            Some((c, e)) => parse_link(s@, bs as int) == Some((c as int, e as int)),
            None => parse_link(s@, bs as int) is None,
        },
{
    match find_char_exec(s, ']', bs + 1) {
        None => None,
        Some(close) => {
            proof {
                lemma_find_char(s@, ']', bs + 1);
            }
            if close + 1 >= s.len() || s[close + 1] != '(' {
                None
            } else {
                match find_char_exec(s, ')', close + 2) {
                    None => None,
                    Some(e) => Some((close, e)),
                }
            }
        },
    }
}

fn first_stop_exec(s: &Vec<char>, k0: usize) -> (r: usize)
    requires
        k0 <= s.len(),
    ensures
        r == first_stop(s@, k0 as int),
        k0 <= r <= s.len(),
{
    let mut k = k0;
    while k < s.len()
        invariant
            k0 <= k <= s.len(),
            first_stop(s@, k0 as int) == first_stop(s@, k as int),
        decreases s.len() - k,
    {
        let c = s[k];
        if is_whitespace(c) || c == '<' || c == '>' || c == '"' {
            return k;
        }
        k = k + 1;
    }
    k
}

fn trim_trailing_exec(s: &Vec<char>, lo: usize, hi0: usize) -> (r: usize)
    requires
        lo <= hi0 <= s.len(),
    ensures
        r == trim_trailing(s@, lo as int, hi0 as int),
        lo <= r <= hi0,
{
    let mut hi = hi0;
    while hi > lo
        invariant
            lo <= hi <= hi0 <= s.len(),
            trim_trailing(s@, lo as int, hi0 as int) == trim_trailing(s@, lo as int, hi as int),
        decreases hi - lo,
    {
        let c = s[hi - 1];
        if c == '.' || c == ',' || c == ';' || c == ':' || c == '!' || c == '?' || c == ')' {
            hi = hi - 1;
        } else {
            return hi;
        }
    }
    hi
}

fn try_url_exec(s: &Vec<char>, i: usize) -> (r: Option<usize>)
    requires
        i < s.len(),
    ensures
        match r {
            Some(h) => try_url(s@, i as int) == Some(h as int),
            None => try_url(s@, i as int) is None,
        },
{
    let p: usize = if starts_with_at(s, i, "https://") {
        "https://".unicode_len()
    } else if starts_with_at(s, i, "http://") {
        "http://".unicode_len()
    } else {
        return None;
    };
    if s.len() - i == p {
        return None;
    }
    let e = first_stop_exec(s, i);
    let h = trim_trailing_exec(s, i, e);
    if h - i <= p {
        None
    } else {
        Some(h)
    }
}

/// The token at position `i`, with its positions inside the text.
fn scan_token(s: &Vec<char>, i: usize) -> (t: InlineTok)
    requires
        i < s.len(),
    ensures
        t == inline_tok(s@, i as int),
        tok_wf(t, i as int, s.len() as int),
{
    reveal(inline_tok);
    let len = s.len();
    if s[i] == '`' {
        let n = tick_run_exec(s, i);
        let mut tv: Vec<char> = Vec::new();
        let mut k: usize = 0;
        while k < n
            invariant
                k <= n,
                tv@ == ticks(k as int),
            decreases n - k,
        {
            tv.push('`');
            k = k + 1;
            assert(tv@ =~= ticks(k as int));
        }
        proof {
            lemma_tick_run(s@, i as int);
        }
        match find_seq_exec(s, &tv, i + n) {
            Some(j) => {
                proof {
                    lemma_find_seq(s@, ticks(n as int), (i + n) as int);
                }
                return InlineTok::Code { lo: i + n, hi: j, next: j + n };
            },
            None => {
                return InlineTok::Ticks { n };
            },
        }
    }
    if s[i] == '!' && i + 1 < len && s[i + 1] == '[' {
        match parse_link_exec(s, i + 1) {
            Some((close, e)) => {
                proof {
                    lemma_find_char(s@, ']', i + 2);
                    lemma_find_char(s@, ')', close + 2);
                }
                return InlineTok::Image {
                    alt_lo: i + 2,
                    alt_hi: close,
                    url_lo: close + 2,
                    url_hi: e,
                    next: e + 1,
                };
            },
            None => {},
        }
    }
    if s[i] == '[' {
        match parse_link_exec(s, i) {
            Some((close, e)) => {
                proof {
                    lemma_find_char(s@, ']', i + 1);
                    lemma_find_char(s@, ')', close + 2);
                }
                return InlineTok::Link {
                    text_lo: i + 1,
                    text_hi: close,
                    url_lo: close + 2,
                    url_hi: e,
                    next: e + 1,
                };
            },
            None => {},
        }
    }
    if len - i > 2 && s[i] == '*' && s[i + 1] == '*' && s[i + 2] == '*' {
        let pv = crate::text::chars_of("***");
        match find_seq_exec(s, &pv, i + 3) {
            Some(e) => {
                proof {
                    lemma_find_seq(s@, "***"@, i + 3);
                    reveal_strlit("***");
                }
                return InlineTok::Wrap { kind: Emph::StrongEm, lo: i + 3, hi: e, next: e + 3 };
            },
            None => {},
        }
    }
    if i + 1 < len && s[i] == '~' && s[i + 1] == '~' {
        let pv = crate::text::chars_of("~~");
        match find_seq_exec(s, &pv, i + 2) {
            Some(e) => {
                proof {
                    lemma_find_seq(s@, "~~"@, i + 2);
                    reveal_strlit("~~");
                }
                return InlineTok::Wrap { kind: Emph::Del, lo: i + 2, hi: e, next: e + 2 };
            },
            None => {},
        }
    }
    if i + 1 < len && s[i] == '*' && s[i + 1] == '*' {
        let pv = crate::text::chars_of("**");
        match find_seq_exec(s, &pv, i + 2) {
            Some(e) => {
                proof {
                    lemma_find_seq(s@, "**"@, i + 2);
                    reveal_strlit("**");
                }
                return InlineTok::Wrap { kind: Emph::Strong, lo: i + 2, hi: e, next: e + 2 };
            },
            None => {},
        }
    }
    if s[i] == '*' {
        match find_char_exec(s, '*', i + 1) {
            Some(e) => {
                proof {
                    lemma_find_char(s@, '*', i + 1);
                }
                return InlineTok::Wrap { kind: Emph::Em, lo: i + 1, hi: e, next: e + 1 };
            },
            None => {},
        }
    }
    if s[i] == 'h' {
        match try_url_exec(s, i) {
            Some(h) => {
                proof {
                    let p = url_prefix_len(s@, i as int);
                    lemma_first_stop(s@, i as int);
                    lemma_trim_trailing(s@, i as int, first_stop(s@, i as int));
                    if h == i {
                        assert(s@.subrange(i as int, h as int) =~= Seq::<char>::empty());
                        reveal_strlit("https://");
                        reveal_strlit("http://");
                    }
                }
                return InlineTok::Auto { hi: h, next: h };
            },
            None => {},
        }
    }
    InlineTok::Plain
}

fn push_open(out: &mut Vec<char>, k: Emph)
    ensures
        final(out)@ == old(out)@ + emph_open(k),
{
    match k {
        Emph::StrongEm => push_str(out, "<strong><em>"),
        Emph::Del => push_str(out, "<del>"),
        Emph::Strong => push_str(out, "<strong>"),
        Emph::Em => push_str(out, "<em>"),
    }
}

fn push_close(out: &mut Vec<char>, k: Emph)
    ensures
        final(out)@ == old(out)@ + emph_close(k),
{
    match k {
        Emph::StrongEm => push_str(out, "</em></strong>"),
        Emph::Del => push_str(out, "</del>"),
        Emph::Strong => push_str(out, "</strong>"),
        Emph::Em => push_str(out, "</em>"),
    }
}

/// The rendering of the content of a token that has one.
pub open spec fn tok_inner(s: Seq<char>, t: InlineTok) -> Seq<char>
    decreases s.len(), 0int,
{
    match inner_range(t) {
        Some((lo, hi)) => if 0 <= lo <= hi <= s.len() && hi - lo < s.len() {
            inline_from(s.subrange(lo, hi), 0)
        } else {
            seq![]
        },
        None => seq![],
    }
}

/// Appends the HTML of the token `t` found at `i`.
fn render_tok(s: &Vec<char>, i: usize, t: InlineTok, out: &mut Vec<char>) -> (inner: Ghost<Seq<char>>)
    requires
        i < s.len(),
        tok_wf(t, i as int, s.len() as int),
    ensures
        inner@ == tok_inner(s@, t),
        final(out)@ == old(out)@ + tok_piece(s@, i as int, t, inner@),
    decreases s@.len(), 0int,
{
    let ghost before = out@;
    let ghost mut inner: Seq<char> = seq![];
    match t {
        InlineTok::Code { lo, hi, .. } => {
            push_str(out, "<code>");
            if hi - lo > 1 && s[lo] == ' ' && s[hi - 1] == ' ' {
                push_escaped(out, s, lo + 1, hi - 1);
                assert(s@.subrange(lo + 1, hi - 1) =~= code_text(s@.subrange(lo as int, hi as int)));
            } else {
                push_escaped(out, s, lo, hi);
            }
            push_str(out, "</code>");
        },
        InlineTok::Ticks { n } => {
            let mut k: usize = 0;
            while k < n
                invariant
                    k <= n,
                    out@ == before + ticks(k as int),
                decreases n - k,
            {
                out.push('`');
                k = k + 1;
                assert(out@ =~= before + ticks(k as int));
            }
        },
        InlineTok::Image { alt_lo, alt_hi, url_lo, url_hi, .. } => {
            push_str(out, "<img src=\"");
            push_escaped(out, s, url_lo, url_hi);
            push_str(out, "\" alt=\"");
            push_escaped(out, s, alt_lo, alt_hi);
            push_str(out, "\">");
        },
        InlineTok::Link { text_lo, text_hi, url_lo, url_hi, .. } => {
            push_str(out, "<a href=\"");
            push_escaped(out, s, url_lo, url_hi);
            push_str(out, "\">");
            let sub = slice(s, text_lo, text_hi);
            let r = render_inline_chars(&sub);
            proof {
                inner = r@;
            }
            push_all(out, &r);
            push_str(out, "</a>");
        },
        InlineTok::Wrap { kind, lo, hi, .. } => {
            push_open(out, kind);
            let sub = slice(s, lo, hi);
            let r = render_inline_chars(&sub);
            proof {
                inner = r@;
            }
            push_all(out, &r);
            push_close(out, kind);
        },
        InlineTok::Auto { hi, .. } => {
            push_str(out, "<a href=\"");
            push_escaped(out, s, i, hi);
            push_str(out, "\">");
            push_escaped(out, s, i, hi);
            push_str(out, "</a>");
        },
        InlineTok::Plain => {
            let c = s[i];
            if c == '<' {
                push_str(out, "&lt;");
            } else if c == '>' {
                push_str(out, "&gt;");
            } else if c == '&' {
                push_str(out, "&amp;");
            } else if c == '"' {
                push_str(out, "&quot;");
            } else {
                out.push(c);
            }
        },
    }
    assert(out@ =~= before + tok_piece(s@, i as int, t, inner));
    Ghost(inner)
}

/// Renders inline Markdown text as HTML.
pub fn render_inline_chars(s: &Vec<char>) -> (out: Vec<char>)
    ensures
        out@ == inline_html(s@),
    decreases s@.len(), 1int,
{
    let mut out: Vec<char> = Vec::new();
    let mut i: usize = 0;
    while i < s.len()
        invariant
            i <= s.len(),
            out@ + inline_from(s@, i as int) == inline_from(s@, 0),
        decreases s.len() - i,
    {
        let t = scan_token(s, i);
        let ghost before = out@;
        let inner = render_tok(s, i, t, &mut out);
        let next: usize = match t {
            InlineTok::Code { next, .. } => next,
            InlineTok::Ticks { n } => i + n,
            InlineTok::Image { next, .. } => next,
            InlineTok::Link { next, .. } => next,
            InlineTok::Wrap { next, .. } => next,
            InlineTok::Auto { next, .. } => next,
            InlineTok::Plain => i + 1,
        };
        assert(inline_from(s@, i as int) =~= tok_piece(s@, i as int, t, inner@) + inline_from(
            s@,
            next as int,
        ));
        assert((out@ + inline_from(s@, next as int)) =~= before + inline_from(s@, i as int));
        i = next;
    }
    out
}

} // verus!
