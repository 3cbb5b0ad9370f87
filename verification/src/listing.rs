//! Directory listings: which entries are shown, in which order, and their HTML.
use vstd::prelude::*;
use crate::text::{ascii_lower, ends_with, chars_of, string_of, push_str, push_all, to_lower, starts_with_at, slice};
use crate::path::EntryKind;
use crate::markdown::escape::{escape, push_escaped_all};
use crate::markdown::page_html;

verus! {

/// An entry in a directory listing.
pub struct DirectoryEntry {
    pub name: String,
    pub is_dir: bool,
}

pub open spec fn entry_view(e: DirectoryEntry) -> (Seq<char>, bool) {
    (e.name@, e.is_dir)
}

pub open spec fn entries_view(es: Seq<DirectoryEntry>) -> Seq<(Seq<char>, bool)> {
    es.map_values(|e: DirectoryEntry| entry_view(e))
}

/// Lexicographic order of character sequences (that of their UTF-8 bytes).
pub open spec fn lex_lt(a: Seq<char>, b: Seq<char>) -> bool
    decreases a.len(),
{
    if a.len() == 0 {
        b.len() > 0
    } else if b.len() == 0 {
        false
    } else if a[0] != b[0] {
        a[0] < b[0]
    } else {
        lex_lt(a.drop_first(), b.drop_first())
    }
}

/// Whether `a` is listed before `b`: directories first, then by name
/// without regard to ASCII case.
pub open spec fn listed_before(a: (Seq<char>, bool), b: (Seq<char>, bool)) -> bool {
    (a.1 && !b.1) || (a.1 == b.1 && lex_lt(ascii_lower(a.0), ascii_lower(b.0)))
}

/// `x` inserted into `s` after every entry it is not listed before.
pub open spec fn insert_sorted(s: Seq<(Seq<char>, bool)>, x: (Seq<char>, bool)) -> Seq<
    (Seq<char>, bool),
>
    decreases s.len(),
{
    if s.len() == 0 {
        seq![x]
    } else if listed_before(x, s.last()) {
        insert_sorted(s.drop_last(), x).push(s.last())
    } else {
        s.push(x)
    }
}

/// The stable sort of `s` by `listed_before`.
pub open spec fn sort_entries(s: Seq<(Seq<char>, bool)>) -> Seq<(Seq<char>, bool)>
    decreases s.len(),
{
    if s.len() == 0 {
        seq![]
    } else {
        insert_sorted(sort_entries(s.drop_last()), s.last())
    }
}

/// The entries of a directory that are listed: subdirectories and `.md` files.
pub open spec fn select_entries(raw: Seq<(Seq<char>, EntryKind)>) -> Seq<(Seq<char>, bool)>
    decreases raw.len(),
{
    if raw.len() == 0 {
        seq![]
    } else {
        let (name, kind) = raw.last();
        let rest = select_entries(raw.drop_last());
        if kind == EntryKind::Directory {
            rest.push((name, true))
        } else if kind == EntryKind::File && ends_with(name, ".md"@) {
            rest.push((name, false))
        } else {
            rest
        }
    }
}

pub open spec fn raw_view(raw: Seq<(String, EntryKind)>) -> Seq<(Seq<char>, EntryKind)> {
    raw.map_values(|r: (String, EntryKind)| (r.0@, r.1))
}

/// Whether no entry of `s` is listed before an earlier one.
pub open spec fn is_listing_order(s: Seq<(Seq<char>, bool)>) -> bool {
    forall|i: int, j: int| 0 <= i < j < s.len() ==> !listed_before(#[trigger] s[j], #[trigger] s[i])
}

/// No sequence is before itself.
pub proof fn lemma_lex_irrefl(a: Seq<char>)
    ensures
        !lex_lt(a, a),
    decreases a.len(),
{
    if a.len() > 0 {
        lemma_lex_irrefl(a.drop_first());
    }
}

/// The lexicographic order is transitive.
pub proof fn lemma_lex_trans(a: Seq<char>, b: Seq<char>, c: Seq<char>)
    requires
        lex_lt(a, b),
        lex_lt(b, c),
    ensures
        lex_lt(a, c),
    decreases a.len(),
{
    if a.len() > 0 && b.len() > 0 && c.len() > 0 && a[0] == b[0] && b[0] == c[0] {
        lemma_lex_trans(a.drop_first(), b.drop_first(), c.drop_first());
    }
}

/// Of two different sequences, one is before the other.
pub proof fn lemma_lex_total(a: Seq<char>, b: Seq<char>)
    ensures
        lex_lt(a, b) || lex_lt(b, a) || a == b,
    decreases a.len(),
{
    if a.len() > 0 && b.len() > 0 && a[0] == b[0] {
        lemma_lex_total(a.drop_first(), b.drop_first());
        if a.drop_first() == b.drop_first() {
            assert(a =~= seq![a[0]] + a.drop_first());
            assert(b =~= seq![b[0]] + b.drop_first());
        }
    } else if a.len() == 0 && b.len() == 0 {
        assert(a =~= b);
    }
}

/// `listed_before` is a strict weak order: if `a` comes before `c`, then
/// any `b` comes after `a` or before `c`.
proof fn lemma_before_negative_transitive(a: (Seq<char>, bool), b: (Seq<char>, bool), c: (
    Seq<char>,
    bool,
))
    requires
        listed_before(a, c),
    ensures
        listed_before(a, b) || listed_before(b, c),
{
    let la = ascii_lower(a.0);
    let lb = ascii_lower(b.0);
    let lc = ascii_lower(c.0);
    lemma_lex_total(la, lb);
    lemma_lex_total(lb, lc);
    if a.1 == b.1 && b.1 == c.1 {
        if lex_lt(lb, la) && lex_lt(lc, lb) {
            lemma_lex_trans(lc, lb, la);
            lemma_lex_trans(la, lc, la);
            lemma_lex_irrefl(la);
        } else if lex_lt(lb, la) && lc == lb {
            lemma_lex_trans(la, lc, la);
            lemma_lex_irrefl(la);
        } else if la == lb && lex_lt(lc, lb) {
            lemma_lex_trans(la, lc, la);
            lemma_lex_irrefl(la);
        } else if la == lb && lc == lb {
            lemma_lex_irrefl(la);
        }
    }
}

proof fn lemma_before_asym(a: (Seq<char>, bool), b: (Seq<char>, bool))
    requires
        listed_before(a, b),
    ensures
        !listed_before(b, a),
{
    if a.1 == b.1 && lex_lt(ascii_lower(b.0), ascii_lower(a.0)) {
        lemma_lex_trans(ascii_lower(a.0), ascii_lower(b.0), ascii_lower(a.0));
        lemma_lex_irrefl(ascii_lower(a.0));
    }
}

proof fn lemma_insert_sorted(s: Seq<(Seq<char>, bool)>, x: (Seq<char>, bool))
    requires
        is_listing_order(s),
    ensures
        is_listing_order(insert_sorted(s, x)),
        insert_sorted(s, x).to_multiset() == s.to_multiset().insert(x),
        insert_sorted(s, x).len() == s.len() + 1,
    decreases s.len(),
{
    broadcast use vstd::seq_lib::group_to_multiset_ensures;

    if s.len() == 0 {
        assert(seq![x] =~= Seq::<(Seq<char>, bool)>::empty().push(x));
    } else if listed_before(x, s.last()) {
        let t = s.drop_last();
        assert forall|i: int, j: int| 0 <= i < j < t.len() implies !listed_before(
            #[trigger] t[j],
            #[trigger] t[i],
        ) by {
            assert(t[i] == s[i] && t[j] == s[j]);
        }
        lemma_insert_sorted(t, x);
        let u = insert_sorted(t, x);
        let r = u.push(s.last());
        assert(s =~= t.push(s.last()));
        // every element of u is not after s.last()
        assert forall|i: int| 0 <= i < u.len() implies !listed_before(s.last(), #[trigger] u[i]) by {
            lemma_insert_members(t, x, i);
            if u[i] == x {
                lemma_before_asym(x, s.last());
            } else {
                let k = choose|k: int| 0 <= k < t.len() && u[i] == t[k];
                assert(s[k] == t[k]);
                assert(!listed_before(s[s.len() - 1], s[k]));
            }
        }
        assert forall|i: int, j: int| 0 <= i < j < r.len() implies !listed_before(
            #[trigger] r[j],
            #[trigger] r[i],
        ) by {
            if j == r.len() - 1 {
                assert(r[j] == s.last());
                assert(r[i] == u[i]);
            } else {
                assert(r[i] == u[i] && r[j] == u[j]);
            }
        }
    } else {
        let r = s.push(x);
        assert forall|i: int, j: int| 0 <= i < j < r.len() implies !listed_before(
            #[trigger] r[j],
            #[trigger] r[i],
        ) by {
            if j == r.len() - 1 {
                assert(r[j] == x);
                assert(r[i] == s[i]);
                if listed_before(x, s[i]) {
                    lemma_before_negative_transitive(x, s.last(), s[i]);
                    if i < s.len() - 1 {
                        assert(!listed_before(s[s.len() - 1], s[i]));
                    }
                }
            } else {
                assert(r[i] == s[i] && r[j] == s[j]);
            }
        }
    }
}

/// The members of `insert_sorted(s, x)`: `x` and those of `s`.
proof fn lemma_insert_members(s: Seq<(Seq<char>, bool)>, x: (Seq<char>, bool), i: int)
    requires
        0 <= i < insert_sorted(s, x).len(),
    ensures
        insert_sorted(s, x).len() == s.len() + 1,
        insert_sorted(s, x)[i] == x || exists|k: int| 0 <= k < s.len() && insert_sorted(s, x)[i] == s[k],
    decreases s.len(),
{
    lemma_insert_len(s, x);
    if s.len() > 0 && listed_before(x, s.last()) {
        let t = s.drop_last();
        let u = insert_sorted(t, x);
        lemma_insert_len(t, x);
        if i < u.len() {
            lemma_insert_members(t, x, i);
            if u[i] != x {
                let k = choose|k: int| 0 <= k < t.len() && u[i] == t[k];
                assert(s[k] == t[k]);
            }
        } else {
            assert(insert_sorted(s, x)[i] == s[s.len() - 1]);
        }
    } else if s.len() > 0 {
        if i < s.len() {
            assert(insert_sorted(s, x)[i] == s[i]);
        }
    }
}

proof fn lemma_insert_len(s: Seq<(Seq<char>, bool)>, x: (Seq<char>, bool))
    ensures
        insert_sorted(s, x).len() == s.len() + 1,
    decreases s.len(),
{
    if s.len() > 0 && listed_before(x, s.last()) {
        lemma_insert_len(s.drop_last(), x);
    }
}

/// A directory listing is in listing order, and holds exactly the selected
/// entries: the subdirectories and the `.md` files.
pub proof fn lemma_sorted_listing(s: Seq<(Seq<char>, bool)>)
    ensures
        is_listing_order(sort_entries(s)),
        sort_entries(s).to_multiset() == s.to_multiset(),
    decreases s.len(),
{
    broadcast use vstd::seq_lib::group_to_multiset_ensures;

    if s.len() == 0 {
    } else {
        lemma_sorted_listing(s.drop_last());
        lemma_insert_sorted(sort_entries(s.drop_last()), s.last());
        assert(s =~= s.drop_last().push(s.last()));
    }
}

/// `s` without its trailing `/` characters.
pub open spec fn strip_trailing_slashes(s: Seq<char>) -> Seq<char>
    decreases s.len(),
{
    if s.len() > 0 && s.last() == '/' {
        strip_trailing_slashes(s.drop_last())
    } else {
        s
    }
}

/// The position of the last `/` in `s[..hi]`.
pub open spec fn last_slash(s: Seq<char>, hi: int) -> Option<int>
    decreases hi,
{
    if hi <= 0 {
        None
    } else if s[hi - 1] == '/' {
        Some(hi - 1)
    } else {
        last_slash(s, hi - 1)
    }
}

/// The URL of the parent directory, ending with `/`.
pub open spec fn parent_of(url: Seq<char>) -> Seq<char> {
    let t = strip_trailing_slashes(url);
    match last_slash(t, t.len() as int) {
        None => "/"@,
        Some(p) => if p == 0 {
            "/"@
        } else {
            t.take(p).push('/')
        },
    }
}

/// One line of a listing: a link to the entry, with an icon.
pub open spec fn entry_html(base: Seq<char>, e: (Seq<char>, bool)) -> Seq<char> {
    let suffix = if e.1 {
        seq!['/']
    } else {
        seq![]
    };
    let icon = if e.1 {
        "\u{1F4C1} "@
    } else {
        "\u{1F4C4} "@
    };
    "<a href=\""@ + escape(base + seq!['/'] + e.0 + suffix) + "\">"@ + icon + escape(e.0 + suffix)
        + "</a><br>\n"@
}

pub open spec fn entries_html(base: Seq<char>, es: Seq<(Seq<char>, bool)>) -> Seq<char>
    decreases es.len(),
{
    if es.len() == 0 {
        seq![]
    } else {
        entries_html(base, es.drop_last()) + entry_html(base, es.last())
    }
}

pub open spec fn listing_title(url: Seq<char>) -> Seq<char> {
    if url == "/"@ {
        "Index of /"@
    } else {
        "Index of "@ + url
    }
}

/// The heading of a listing page.
pub open spec fn listing_heading(url: Seq<char>) -> Seq<char> {
    "<h1>"@ + escape(listing_title(url)) + "</h1>\n"@
}

/// The link to the parent directory.
pub open spec fn parent_link(url: Seq<char>) -> Seq<char> {
    "<a href=\""@ + escape(parent_of(url)) + "\">\u{1F4C1} ..</a><br>\n"@
}

/// The body of a listing page.
pub open spec fn listing_body(url: Seq<char>, es: Seq<(Seq<char>, bool)>, show_parent: bool) -> Seq<char> {
    listing_heading(url) + (if show_parent {
        parent_link(url)
    } else {
        seq![]
    }) + entries_html(strip_trailing_slashes(url), es) + "\n"@
}

/// The link to the parent directory is there exactly when asked for: right
/// after the heading, and the only difference from the listing without it.
pub proof fn lemma_parent_link(url: Seq<char>, es: Seq<(Seq<char>, bool)>)
    ensures
        crate::markdown::occurs_at(listing_body(url, es, true), parent_link(url), listing_heading(url).len() as int),
        listing_body(url, es, true) == listing_body(url, es, false).take(listing_heading(url).len() as int)
            + parent_link(url) + listing_body(url, es, false).skip(listing_heading(url).len() as int),
{
    let h = listing_heading(url);
    let rest = entries_html(strip_trailing_slashes(url), es) + "\n"@;
    let b1 = listing_body(url, es, true);
    let b0 = listing_body(url, es, false);
    assert(b1 =~= h + parent_link(url) + rest);
    assert(b0 =~= h + rest);
    assert(b1.subrange(h.len() as int, (h.len() + parent_link(url).len()) as int) =~= parent_link(url));
    assert(b0.take(h.len() as int) =~= h);
    assert(b0.skip(h.len() as int) =~= rest);
}

/// What the link to the parent directory shows: the folder icon, `..`, and
/// the end of the link.
pub open spec fn parent_mark() -> Seq<char> {
    "\u{1F4C1} ..</a>"@
}

proof fn lemma_parent_mark()
    ensures
        parent_mark() == seq!['\u{1F4C1}', ' ', '.', '.', '<', '/', 'a', '>'],
{
    reveal_strlit("\u{1F4C1} ..</a>");
}

/// Escaping adds no folder icon.
proof fn lemma_escape_keeps_icon(s: Seq<char>)
    ensures
        escape(s).contains('\u{1F4C1}') ==> s.contains('\u{1F4C1}'),
    decreases s.len(),
{
    reveal_strlit("&lt;");
    reveal_strlit("&gt;");
    reveal_strlit("&amp;");
    reveal_strlit("&quot;");
    if s.len() > 0 {
        let d = s.drop_last();
        lemma_escape_keeps_icon(d);
        let e = escape(d);
        let c = crate::markdown::escape::escape_char(s.last());
        if escape(s).contains('\u{1F4C1}') {
            let k = choose|k: int| 0 <= k < escape(s).len() && escape(s)[k] == '\u{1F4C1}';
            assert(escape(s) == e + c);
            if k < e.len() {
                assert(e[k] == '\u{1F4C1}');
                assert(e.contains('\u{1F4C1}'));
                let j = choose|j: int| 0 <= j < d.len() && d[j] == '\u{1F4C1}';
                assert(s[j] == d[j]);
            } else {
                assert(c[k - e.len()] == '\u{1F4C1}');
                assert(s[s.len() - 1] == '\u{1F4C1}');
            }
        }
    }
}

/// An occurrence of the mark at `i` in `x` puts `</a>` at `i + 4`.
proof fn lemma_mark_at(x: Seq<char>, i: int)
    requires
        0 <= i,
        i + 8 <= x.len(),
        x.subrange(i, i + 8) == parent_mark(),
    ensures
        x[i] == '\u{1F4C1}' && x[i + 1] == ' ' && x[i + 2] == '.' && x[i + 3] == '.',
        x[i + 4] == '<' && x[i + 5] == '/' && x[i + 6] == 'a' && x[i + 7] == '>',
{
    lemma_parent_mark();
    let w = x.subrange(i, i + 8);
    assert(w[0] == x[i] && w[1] == x[i + 1] && w[2] == x[i + 2] && w[3] == x[i + 3]);
    assert(w[4] == x[i + 4] && w[5] == x[i + 5] && w[6] == x[i + 6] && w[7] == x[i + 7]);
}

/// The heading of a listing does not show the mark.
proof fn lemma_heading_no_mark(url: Seq<char>)
    ensures
        crate::markdown::table::count_occ(listing_heading(url), parent_mark()) == 0,
        listing_heading(url).last() == '\n',
{
    lemma_parent_mark();
    reveal_strlit("<h1>");
    reveal_strlit("</h1>\n");
    let e = escape(listing_title(url));
    crate::markdown::escape::lemma_escape_no_markup(listing_title(url));
    let x = listing_heading(url);
    assert(x == "<h1>"@ + e + "</h1>\n"@);
    assert forall|i: int| 0 <= i && i + parent_mark().len() <= x.len() implies #[trigger] x.subrange(i, i + parent_mark().len()) != parent_mark() by {
        if x.subrange(i, i + parent_mark().len()) == parent_mark() {
            lemma_mark_at(x, i);
            let p = i + 4;
            if p < 4 + e.len() {
                assert(x[p] == e[p - 4]);
                assert(e.contains('<'));
            } else {
                assert(x[p] == "</h1>\n"@[p - 4 - e.len()]);
                assert(p == 4 + e.len());
                assert(x[p + 2] == 'h');
            }
        }
    }
    crate::markdown::table::lemma_count_zero(x, parent_mark());
}

/// An entry whose name has no folder icon does not show the mark.
proof fn lemma_entry_no_mark(base: Seq<char>, e: (Seq<char>, bool))
    requires
        !e.0.contains('\u{1F4C1}'),
    ensures
        crate::markdown::table::count_occ(entry_html(base, e), parent_mark()) == 0,
        entry_html(base, e).last() == '\n',
{
    lemma_parent_mark();
    reveal_strlit("<a href=\"");
    reveal_strlit("\">");
    reveal_strlit("\u{1F4C1} ");
    reveal_strlit("\u{1F4C4} ");
    reveal_strlit("</a><br>\n");
    reveal_strlit("&lt;");
    reveal_strlit("&gt;");
    reveal_strlit("&amp;");
    reveal_strlit("&quot;");
    let suffix = if e.1 { seq!['/'] } else { seq![] };
    let icon = if e.1 { "\u{1F4C1} "@ } else { "\u{1F4C4} "@ };
    let e1 = escape(base + seq!['/'] + e.0 + suffix);
    let e2 = escape(e.0 + suffix);
    crate::markdown::escape::lemma_escape_no_markup(base + seq!['/'] + e.0 + suffix);
    crate::markdown::escape::lemma_escape_no_markup(e.0 + suffix);
    let rest = e1 + "\">"@ + icon + e2;
    let pre = "<a href=\""@ + rest;
    let c = "</a><br>\n"@;
    let x = entry_html(base, e);
    assert(x == pre + c);
    let q = pre.len() as int;
    assert forall|k: int| 0 <= k < rest.len() implies rest[k] != '<' by {
        if k < e1.len() {
            assert(rest[k] == e1[k]);
            if e1[k] == '<' {
                assert(e1.contains('<'));
            }
        } else if k >= rest.len() - e2.len() {
            assert(rest[k] == e2[k - (rest.len() - e2.len())]);
            if e2[k - (rest.len() - e2.len())] == '<' {
                assert(e2.contains('<'));
            }
        }
    }
    // The four characters before the closing `</a>`.
    if e.1 {
        crate::markdown::escape::lemma_escape_append(e.0, seq!['/']);
        let sl = seq!['/'];
        assert(sl.drop_last() =~= Seq::<char>::empty());
        assert(escape(sl) == escape(sl.drop_last()) + crate::markdown::escape::escape_char('/'));
        assert(escape(sl) =~= seq!['/']);
        assert(e2.last() == '/');
        assert(pre[q - 1] == e2.last());
    } else {
        assert(e.0 + suffix =~= e.0);
        lemma_escape_keeps_icon(e.0);
        if e2.len() >= 4 {
            assert(pre[q - 4] == e2[e2.len() - 4]);
            if e2[e2.len() - 4] == '\u{1F4C1}' {
                assert(e2.contains('\u{1F4C1}'));
            }
        } else {
            assert(pre[q - 4] != '\u{1F4C1}') by {
                if e2.len() == 3 {
                    assert(pre[q - 4] == icon[1]);
                } else if e2.len() == 2 {
                    assert(pre[q - 4] == icon[0]);
                } else if e2.len() == 1 {
                    assert(pre[q - 4] == "\">"@[1]);
                } else {
                    assert(pre[q - 4] == "\">"@[0]);
                }
            }
        }
    }
    assert forall|i: int| 0 <= i && i + parent_mark().len() <= x.len() implies #[trigger] x.subrange(i, i + parent_mark().len()) != parent_mark() by {
        if x.subrange(i, i + parent_mark().len()) == parent_mark() {
            lemma_mark_at(x, i);
            let p = i + 4;
            if p < q {
                assert(x[p] == pre[p]);
                if p >= 9 {
                    assert(pre[p] == rest[p - 9]);
                }
            } else {
                assert(x[p] == c[p - q]);
                assert(x[p + 1] == c[p - q + 1]);
                assert(p == q);
                assert(x[i] == pre[i] && x[i + 3] == pre[i + 3]);
            }
        }
    }
    crate::markdown::table::lemma_count_zero(x, parent_mark());
}

proof fn lemma_entries_no_mark(base: Seq<char>, es: Seq<(Seq<char>, bool)>)
    requires
        forall|k: int| 0 <= k < es.len() ==> !(#[trigger] es[k]).0.contains('\u{1F4C1}'),
    ensures
        crate::markdown::table::count_occ(entries_html(base, es), parent_mark()) == 0,
        entries_html(base, es).len() == 0 || entries_html(base, es).last() == '\n',
    decreases es.len(),
{
    if es.len() > 0 {
        let d = es.drop_last();
        assert forall|k: int| 0 <= k < d.len() implies !(#[trigger] d[k]).0.contains('\u{1F4C1}') by {
            assert(d[k] == es[k]);
        }
        lemma_entries_no_mark(base, d);
        lemma_entry_no_mark(base, es.last());
        lemma_parent_mark();
        crate::markdown::table::lemma_end_safe_last(entries_html(base, d), parent_mark());
        crate::markdown::table::lemma_count_concat(entries_html(base, d), entry_html(base, es.last()), parent_mark());
        assert((entries_html(base, d) + entry_html(base, es.last())).last() == entry_html(base, es.last()).last());
    }
}

/// The link to the parent directory is shown exactly when asked for: where
/// no entry name holds the folder icon, the listing holds the icon followed
/// by `..</a>` if and only if it shows the parent link.
pub proof fn lemma_parent_link_exactly(url: Seq<char>, es: Seq<(Seq<char>, bool)>, show_parent: bool)
    requires
        forall|k: int| 0 <= k < es.len() ==> !(#[trigger] es[k]).0.contains('\u{1F4C1}'),
    ensures
        (exists|i: int| crate::markdown::occurs_at(listing_body(url, es, show_parent), parent_mark(), i)) == show_parent,
{
    let h = listing_heading(url);
    let en = entries_html(strip_trailing_slashes(url), es);
    let x = listing_body(url, es, show_parent);
    lemma_parent_mark();
    reveal_strlit("\n");
    if show_parent {
        reveal_strlit("<a href=\"");
        reveal_strlit("\">\u{1F4C1} ..</a><br>\n");
        let pe = escape(parent_of(url));
        let pl = parent_link(url);
        let i: int = h.len() + 9 + pe.len() + 2int;
        assert(x =~= h + pl + (en + "\n"@));
        assert(x.subrange(i, i + 8) =~= parent_mark()) by {
            assert forall|k: int| 0 <= k < 8 implies x.subrange(i, i + 8)[k] == parent_mark()[k] by {
                assert(x[i + k] == pl[9 + pe.len() + 2 + k]);
                assert(pl[9 + pe.len() + 2 + k] == "\">\u{1F4C1} ..</a><br>\n"@[2 + k]);
            }
        }
        assert(crate::markdown::occurs_at(x, parent_mark(), i));
    } else {
        lemma_heading_no_mark(url);
        lemma_entries_no_mark(strip_trailing_slashes(url), es);
        let nl = "\n"@;
        assert forall|i: int| 0 <= i && i + parent_mark().len() <= nl.len() implies #[trigger] nl.subrange(i, i + parent_mark().len()) != parent_mark() by {}
        crate::markdown::table::lemma_count_zero(nl, parent_mark());
        crate::markdown::table::lemma_end_safe_last(h, parent_mark());
        crate::markdown::table::lemma_end_safe_last(en, parent_mark());
        crate::markdown::table::lemma_count_concat(en, nl, parent_mark());
        crate::markdown::table::lemma_count_concat(h, en + nl, parent_mark());
        assert(x =~= h + (en + nl));
        if exists|i: int| crate::markdown::occurs_at(x, parent_mark(), i) {
            let i = choose|i: int| crate::markdown::occurs_at(x, parent_mark(), i);
            lemma_occurs_counted(x, parent_mark(), i);
        }
    }
}

/// The mark cannot start in fixed text without the folder icon, nor in
/// escaped text followed by `</t`, nor run out of a body that ends with a
/// newline.
proof fn lemma_mark_in_pieces(
    a: Seq<char>,
    e: Seq<char>,
    b: Seq<char>,
    d: Seq<char>,
    c: Seq<char>,
    j: int,
)
    requires
        !a.contains('\u{1F4C1}'),
        !b.contains('\u{1F4C1}'),
        !c.contains('\u{1F4C1}'),
        !e.contains('<'),
        b.len() >= 3 && b[0] == '<' && b[1] == '/' && b[2] == 't',
        d.len() > 0 && d.last() == '\n',
        forall|i: int| !crate::markdown::occurs_at(d, parent_mark(), i),
    ensures
        !crate::markdown::occurs_at(a + e + b + d + c, parent_mark(), j),
{
    lemma_parent_mark();
    let x = a + e + b + d + c;
    let o1 = a.len() as int;
    let o2 = o1 + e.len();
    let o3 = o2 + b.len();
    let o4 = o3 + d.len();
    if crate::markdown::occurs_at(x, parent_mark(), j) {
        lemma_mark_at(x, j);
        if j < o1 {
            assert(x[j] == a[j]);
            assert(a.contains('\u{1F4C1}'));
        } else if j < o2 {
            if j + 4 < o2 {
                assert(x[j + 4] == e[j + 4 - o1]);
                assert(e.contains('<'));
            } else if j + 1 >= o2 {
                assert(x[j + 1] == b[j + 1 - o2]);
            } else if j + 2 >= o2 {
                assert(x[j + 2] == b[j + 2 - o2]);
            } else if j + 3 >= o2 {
                assert(x[j + 3] == b[j + 3 - o2]);
            } else {
                assert(x[j + 6] == b[2]);
            }
        } else if j < o3 {
            assert(x[j] == b[j - o2]);
            assert(b.contains('\u{1F4C1}'));
        } else if j < o4 {
            if j + 8 <= o4 {
                assert(d.subrange(j - o3, j - o3 + 8) =~= x.subrange(j, j + 8));
                assert(crate::markdown::occurs_at(d, parent_mark(), j - o3));
            } else {
                assert(x[o4 - 1] == d[d.len() - 1]);
                let k = o4 - 1 - j;
                assert(x.subrange(j, j + 8)[k] == x[o4 - 1]);
            }
        } else {
            assert(x[j] == c[j - o4]);
            assert(c.contains('\u{1F4C1}'));
        }
    }
}

proof fn lemma_listing_mark_absent_at(url: Seq<char>, es: Seq<(Seq<char>, bool)>, has_custom_css: bool, j: int)
    requires
        forall|k: int| 0 <= k < es.len() ==> !(#[trigger] es[k]).0.contains('\u{1F4C1}'),
    ensures
        !crate::markdown::occurs_at(
            page_html(listing_title(url), listing_body(url, es, false), has_custom_css),
            parent_mark(),
            j,
        ),
{
    let t = listing_title(url);
    let d = listing_body(url, es, false);
    crate::markdown::lemma_page_layout(t, d, has_custom_css);
    crate::markdown::lemma_page_fixed_text();
    crate::markdown::escape::lemma_escape_no_markup(t);
    lemma_parent_link_exactly(url, es, false);
    reveal_strlit("\n");
    assert(d.len() > 0 && d.last() == '\n');
    lemma_mark_in_pieces(
        crate::markdown::page_head_part(),
        escape(t),
        crate::markdown::page_mid_part(has_custom_css),
        d,
        crate::markdown::page_tail_part(),
        j,
    );
}

/// On the whole listing page too, the link to the parent directory is shown
/// exactly when asked for: where no entry name holds the folder icon, the
/// page holds the icon followed by `..</a>` if and only if it shows the
/// parent link.
pub proof fn lemma_listing_page_parent_exactly(
    url: Seq<char>,
    es: Seq<(Seq<char>, bool)>,
    show_parent: bool,
    has_custom_css: bool,
)
    requires
        forall|k: int| 0 <= k < es.len() ==> !(#[trigger] es[k]).0.contains('\u{1F4C1}'),
    ensures
        (exists|i: int|
            crate::markdown::occurs_at(
                page_html(listing_title(url), listing_body(url, es, show_parent), has_custom_css),
                parent_mark(),
                i,
            )) == show_parent,
{
    lemma_parent_mark();
    if show_parent {
        let t = listing_title(url);
        let d = listing_body(url, es, true);
        let x = page_html(t, d, has_custom_css);
        lemma_parent_link_exactly(url, es, true);
        let i = choose|i: int| crate::markdown::occurs_at(d, parent_mark(), i);
        crate::markdown::lemma_page_layout(t, d, has_custom_css);
        let o3 = (crate::markdown::page_head_part() + escape(t) + crate::markdown::page_mid_part(has_custom_css)).len() as int;
        assert(x == crate::markdown::page_head_part() + escape(t) + crate::markdown::page_mid_part(has_custom_css) + d
            + crate::markdown::page_tail_part());
        assert(x.subrange(o3 + i, o3 + i + 8) =~= d.subrange(i, i + 8));
        assert(crate::markdown::occurs_at(x, parent_mark(), o3 + i));
    } else {
        assert forall|j: int|
            !crate::markdown::occurs_at(
                page_html(listing_title(url), listing_body(url, es, false), has_custom_css),
                parent_mark(),
                j,
            ) by {
            lemma_listing_mark_absent_at(url, es, has_custom_css, j);
        }
    }
}

/// An occurrence is counted.
proof fn lemma_occurs_counted(s: Seq<char>, p: Seq<char>, i: int)
    requires
        p.len() > 0,
        crate::markdown::occurs_at(s, p, i),
    ensures
        crate::markdown::table::count_occ(s, p) > 0,
    decreases s.len(),
{
    if i + p.len() == s.len() {
        assert(s.skip(s.len() - p.len()) =~= s.subrange(i, i + p.len()));
        assert(crate::text::ends_with(s, p));
    } else {
        let d = s.drop_last();
        assert(d.subrange(i, i + p.len()) =~= s.subrange(i, i + p.len()));
        lemma_occurs_counted(d, p, i);
    }
}

/// Lexicographic comparison of two character vectors.
pub fn lex_lt_exec(a: &Vec<char>, b: &Vec<char>) -> (r: bool)
    ensures
        r == lex_lt(a@, b@),
{
    let mut k: usize = 0;
    assert(a@.skip(0) =~= a@);
    assert(b@.skip(0) =~= b@);
    while k < a.len() && k < b.len() && a[k] == b[k]
        invariant
            k <= a.len(),
            k <= b.len(),
            lex_lt(a@, b@) == lex_lt(a@.skip(k as int), b@.skip(k as int)),
        decreases a.len() - k,
    {
        assert(a@.skip(k as int).drop_first() =~= a@.skip(k + 1));
        assert(b@.skip(k as int).drop_first() =~= b@.skip(k + 1));
        k = k + 1;
    }
    if k == a.len() {
        k < b.len()
    } else if k == b.len() {
        false
    } else {
        a[k] < b[k]
    }
}

fn listed_before_exec(a: &DirectoryEntry, b: &DirectoryEntry) -> (r: bool)
    ensures
        r == listed_before(entry_view(*a), entry_view(*b)),
{
    if a.is_dir && !b.is_dir {
        return true;
    }
    if a.is_dir != b.is_dir {
        return false;
    }
    let la = to_lower(&chars_of(a.name.as_str()));
    let lb = to_lower(&chars_of(b.name.as_str()));
    lex_lt_exec(&la, &lb)
}

/// Inserts `x` into the listing `r` after every entry it is not listed before.
fn insert_entry(r: &mut Vec<DirectoryEntry>, x: DirectoryEntry)
    ensures
        entries_view(final(r)@) == insert_sorted(entries_view(old(r)@), entry_view(x)),
{
    let ghost s = entries_view(r@);
    let ghost xv = entry_view(x);
    let mut p = r.len();
    assert(s.take(p as int) =~= s);
    assert(s.skip(p as int) =~= Seq::<(Seq<char>, bool)>::empty());
    while p > 0 && listed_before_exec(&x, &r[p - 1])
        invariant
            p <= r.len(),
            s == entries_view(r@),
            xv == entry_view(x),
            insert_sorted(s, xv) == insert_sorted(s.take(p as int), xv) + s.skip(p as int),
        decreases p,
    {
        proof {
            let t = s.take(p as int);
            assert(t.last() == s[p - 1]);
            assert(t.drop_last() =~= s.take(p - 1));
            assert(s.skip(p - 1) =~= seq![s[p - 1]] + s.skip(p as int));
            assert(insert_sorted(t, xv) =~= insert_sorted(s.take(p - 1), xv).push(s[p - 1]));
            assert(insert_sorted(s.take(p - 1), xv).push(s[p - 1]) + s.skip(p as int)
                =~= insert_sorted(s.take(p - 1), xv) + s.skip(p - 1));
        }
        p = p - 1;
    }
    proof {
        let t = s.take(p as int);
        if p > 0 {
            assert(t.last() == s[p - 1]);
        }
        assert(insert_sorted(t, xv) =~= t.push(xv));
    }
    r.insert(p, x);
    assert(entries_view(r@) =~= s.take(p as int).push(xv) + s.skip(p as int));
}

/// The listed entries of a directory, in listing order: subdirectories
/// first, then `.md` files, each by name without regard to ASCII case.
/// Entries of equal rank keep the order they were read in.
pub fn collect_entries(raw: Vec<(String, EntryKind)>) -> (r: Vec<DirectoryEntry>)
    ensures
        entries_view(r@) == sort_entries(select_entries(raw_view(raw@))),
{
    let mut r: Vec<DirectoryEntry> = Vec::new();
    let mut k: usize = 0;
    while k < raw.len()
        invariant
            k <= raw.len(),
            entries_view(r@) == sort_entries(select_entries(raw_view(raw@).take(k as int))),
        decreases raw.len() - k,
    {
        let ghost pre = raw_view(raw@).take(k as int);
        assert(raw_view(raw@).take(k + 1).drop_last() =~= pre);
        assert(raw_view(raw@).take(k + 1).last() == (raw@[k as int].0@, raw@[k as int].1));
        let name = &raw[k].0;
        let kind = raw[k].1;
        if kind == EntryKind::Directory {
            insert_entry(&mut r, DirectoryEntry { name: name.clone(), is_dir: true });
            assert(select_entries(raw_view(raw@).take(k + 1)) =~= select_entries(pre).push((name@, true)));
            assert(select_entries(pre).push((name@, true)).drop_last() =~= select_entries(pre));
        } else if kind == EntryKind::File {
            let v = chars_of(name.as_str());
            let sl = ".md".unicode_len();
            if v.len() >= sl && starts_with_at(&v, v.len() - sl, ".md") {
                insert_entry(&mut r, DirectoryEntry { name: name.clone(), is_dir: false });
                proof {
                    assert(v@.skip(v.len() - sl).take(sl as int) =~= v@.skip(v.len() - sl));
                }
                assert(select_entries(raw_view(raw@).take(k + 1)) =~= select_entries(pre).push((name@, false)));
                assert(select_entries(pre).push((name@, false)).drop_last() =~= select_entries(pre));
            } else {
                proof {
                    if ends_with(v@, ".md"@) {
                        assert(v@.skip(v@.len() - ".md"@.len()).take(".md"@.len() as int) =~= v@.skip(
                            v@.len() - ".md"@.len(),
                        ));
                    }
                }
                assert(select_entries(raw_view(raw@).take(k + 1)) =~= select_entries(pre));
            }
        } else {
            assert(select_entries(raw_view(raw@).take(k + 1)) =~= select_entries(pre));
        }
        k = k + 1;
    }
    assert(raw_view(raw@).take(raw.len() as int) =~= raw_view(raw@));
    r
}

/// The URL of the parent directory of `url_path`, ending with `/`.
pub fn parent_url(url_path: &str) -> (r: String)
    ensures
        r@ == parent_of(url_path@),
{
    let u = chars_of(url_path);
    let t = trimmed_slashes(&u);
    let mut hi = t.len();
    while hi > 0 && t[hi - 1] != '/'
        invariant
            hi <= t.len(),
            last_slash(t@, t@.len() as int) == last_slash(t@, hi as int),
        decreases hi,
    {
        hi = hi - 1;
    }
    if hi <= 1 {
        string_of(&chars_of("/"))
    } else {
        let mut v = slice(&t, 0, hi - 1);
        v.push('/');
        string_of(&v)
    }
}

fn trimmed_slashes(u: &Vec<char>) -> (t: Vec<char>)
    ensures
        t@ == strip_trailing_slashes(u@),
{
    let mut e = u.len();
    assert(u@.take(e as int) =~= u@);
    while e > 0 && u[e - 1] == '/'
        invariant
            e <= u.len(),
            strip_trailing_slashes(u@) == strip_trailing_slashes(u@.take(e as int)),
        decreases e,
    {
        assert(u@.take(e as int).drop_last() =~= u@.take(e - 1));
        e = e - 1;
    }
    let t = slice(u, 0, e);
    assert(t@ =~= u@.take(e as int));
    t
}

/// Appends the listing line of one entry.
fn push_entry_html(body: &mut Vec<char>, base: &Vec<char>, e: &DirectoryEntry)
    ensures
        final(body)@ == old(body)@ + entry_html(base@, entry_view(*e)),
{
    let name = chars_of(e.name.as_str());
    let mut href: Vec<char> = Vec::new();
    push_all(&mut href, base);
    href.push('/');
    push_all(&mut href, &name);
    let mut shown: Vec<char> = Vec::new();
    push_all(&mut shown, &name);
    if e.is_dir {
        href.push('/');
        shown.push('/');
    }
    push_str(body, "<a href=\"");
    push_escaped_all(body, &href);
    push_str(body, "\">");
    if e.is_dir {
        push_str(body, "\u{1F4C1} ");
    } else {
        push_str(body, "\u{1F4C4} ");
    }
    push_escaped_all(body, &shown);
    push_str(body, "</a><br>\n");
    proof {
        let ev = entry_view(*e);
        if e.is_dir {
            assert(href@ =~= base@ + seq!['/'] + ev.0 + seq!['/']);
            assert(shown@ =~= ev.0 + seq!['/']);
        } else {
            assert(href@ =~= base@ + seq!['/'] + ev.0 + Seq::<char>::empty());
            assert(shown@ =~= ev.0 + Seq::<char>::empty());
        }
    }
}

/// Render a directory listing as an HTML page.
pub fn render_listing(url_path: &str, entries: &[DirectoryEntry], show_parent: bool, has_custom_css: bool) -> (r: String)
    ensures
        r@ == page_html(
            listing_title(url_path@),
            listing_body(url_path@, entries_view(entries@), show_parent),
            has_custom_css,
        ),
{
    let u = chars_of(url_path);
    let mut title: Vec<char> = Vec::new();
    if crate::text::equals_str(&u, "/") {
        push_str(&mut title, "Index of /");
    } else {
        push_str(&mut title, "Index of ");
        push_all(&mut title, &u);
    }
    let mut body: Vec<char> = Vec::new();
    push_str(&mut body, "<h1>");
    push_escaped_all(&mut body, &title);
    push_str(&mut body, "</h1>\n");
    if show_parent {
        let p = chars_of(parent_url(url_path).as_str());
        push_str(&mut body, "<a href=\"");
        push_escaped_all(&mut body, &p);
        push_str(&mut body, "\">\u{1F4C1} ..</a><br>\n");
    }
    let base = trimmed_slashes(&u);
    let ghost head = body@;
    let mut k: usize = 0;
    while k < entries.len()
        invariant
            k <= entries.len(),
            base@ == strip_trailing_slashes(url_path@),
            body@ == head + entries_html(base@, entries_view(entries@).take(k as int)),
        decreases entries.len() - k,
    {
        let ghost before = body@;
        push_entry_html(&mut body, &base, &entries[k]);
        assert(entries_view(entries@).take(k + 1).drop_last() =~= entries_view(entries@).take(k as int));
        assert(entries_view(entries@).take(k + 1).last() == entry_view(entries@[k as int]));
        k = k + 1;
        assert(body@ =~= head + entries_html(base@, entries_view(entries@).take(k as int)));
    }
    push_str(&mut body, "\n");
    assert(entries_view(entries@).take(entries.len() as int) =~= entries_view(entries@));
    assert(body@ =~= listing_body(url_path@, entries_view(entries@), show_parent));
    let mut out: Vec<char> = Vec::new();
    crate::markdown::page_into(&mut out, &title, &body, has_custom_css);
    string_of(&out)
}

} // verus!
