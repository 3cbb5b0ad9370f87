//! GFM-style tables: splitting rows into cells, recognising the separator
//! row, column alignment, and the table's HTML.
use vstd::prelude::*;
use crate::text::{trim, ends_with, push_str, push_all, slice, trim_bounds, views};
use crate::markdown::inline::{inline_html, render_inline_chars, no_table_tags, lemma_inline_no_table_tags};

verus! {

/// The alignment of a table column.
#[derive(PartialEq, Eq, Structural, Clone, Copy, Debug)]
pub enum Alignment {
    Left,
    Center,
    Right,
}

/// `t` without one leading `|` and then one trailing `|`.
pub open spec fn strip_pipes(t: Seq<char>) -> Seq<char> {
    let a = if t.len() > 0 && t[0] == '|' {
        t.skip(1)
    } else {
        t
    };
    if a.len() > 0 && a.last() == '|' {
        a.drop_last()
    } else {
        a
    }
}

/// The cells of `s[start..]`, scanning from `idx`; a `|` inside a backtick
/// code span does not separate cells.
pub open spec fn cells_from(s: Seq<char>, start: int, idx: int, in_code: bool) -> Seq<Seq<char>>
    decreases s.len() - idx,
{
    if idx < 0 || idx >= s.len() {
        seq![trim(s.subrange(start, s.len() as int))]
    } else if s[idx] == '`' {
        cells_from(s, start, idx + 1, !in_code)
    } else if s[idx] == '|' && !in_code {
        seq![trim(s.subrange(start, idx))] + cells_from(s, idx + 1, idx + 1, in_code)
    } else {
        cells_from(s, start, idx + 1, in_code)
    }
}

/// The trimmed cells of a table row.
pub open spec fn split_cells(line: Seq<char>) -> Seq<Seq<char>> {
    cells_from(strip_pipes(trim(line)), 0, 0, false)
}

/// `c` without one leading `:` and then one trailing `:`.
pub open spec fn strip_colons(c: Seq<char>) -> Seq<char> {
    let c1 = if c.len() > 0 && c[0] == ':' {
        c.skip(1)
    } else {
        c
    };
    if c1.len() > 0 && c1.last() == ':' {
        c1.drop_last()
    } else {
        c1
    }
}

pub open spec fn all_dashes(c: Seq<char>) -> bool {
    forall|k: int| 0 <= k < c.len() ==> #[trigger] c[k] == '-'
}

/// A cell of a separator row: dashes, with an optional colon at either end.
pub open spec fn separator_cell(c: Seq<char>) -> bool {
    c.len() > 0 && strip_colons(c).len() > 0 && all_dashes(strip_colons(c))
}

/// Whether a line is the separator row under a table header.
pub open spec fn is_separator(line: Seq<char>) -> bool {
    let cells = split_cells(trim(line));
    cells.len() > 0 && forall|k: int| 0 <= k < cells.len() ==> separator_cell(trim(#[trigger] cells[k]))
}

/// The alignment a separator cell gives its column.
pub open spec fn cell_alignment(c0: Seq<char>) -> Alignment {
    let c = trim(c0);
    let left = c.len() > 0 && c[0] == ':';
    let right = c.len() > 0 && c.last() == ':';
    if left && right {
        Alignment::Center
    } else if !left && right {
        Alignment::Right
    } else {
        Alignment::Left
    }
}

pub open spec fn alignments(sep: Seq<char>) -> Seq<Alignment> {
    split_cells(sep).map_values(|c: Seq<char>| cell_alignment(c))
}

pub open spec fn align_style(a: Alignment) -> Seq<char> {
    match a {
        Alignment::Left => seq![],
        Alignment::Center => " style=\"text-align: center\""@,
        Alignment::Right => " style=\"text-align: right\""@,
    }
}

/// The alignment of column `k`; columns beyond the separator row are left-aligned.
pub open spec fn align_at(a: Seq<Alignment>, k: int) -> Alignment {
    if 0 <= k < a.len() {
        a[k]
    } else {
        Alignment::Left
    }
}

/// The content of cell `k`; missing cells are empty.
pub open spec fn cell_at(cells: Seq<Seq<char>>, k: int) -> Seq<char> {
    if 0 <= k < cells.len() {
        cells[k]
    } else {
        seq![]
    }
}

/// The first `n` header cells.
pub open spec fn header_html(hs: Seq<Seq<char>>, a: Seq<Alignment>, n: int) -> Seq<char>
    decreases n,
{
    if n <= 0 {
        seq![]
    } else {
        header_html(hs, a, n - 1) + "<th"@ + align_style(align_at(a, n - 1)) + ">"@ + inline_html(
            cell_at(hs, n - 1),
        ) + "</th>\n"@
    }
}

/// The first `n` cells of a data row.
pub open spec fn data_cells_html(cells: Seq<Seq<char>>, a: Seq<Alignment>, n: int) -> Seq<char>
    decreases n,
{
    if n <= 0 {
        seq![]
    } else {
        data_cells_html(cells, a, n - 1) + "<td"@ + align_style(align_at(a, n - 1)) + ">"@
            + inline_html(cell_at(cells, n - 1)) + "</td>\n"@
    }
}

/// The first `n` data rows, each padded or cut to `cols` cells.
pub open spec fn rows_html(rows: Seq<Seq<char>>, a: Seq<Alignment>, cols: int, n: int) -> Seq<char>
    decreases n,
{
    if n <= 0 {
        seq![]
    } else {
        rows_html(rows, a, cols, n - 1) + "<tr>\n"@ + data_cells_html(
            split_cells(rows[n - 1]),
            a,
            cols,
        ) + "</tr>\n"@
    }
}

/// The HTML of a table with the given header row, separator row and data rows.
pub open spec fn table_html(header: Seq<char>, sep: Seq<char>, rows: Seq<Seq<char>>) -> Seq<char> {
    let hs = split_cells(header);
    let a = alignments(sep);
    "<table>\n<thead>\n<tr>\n"@ + header_html(hs, a, hs.len() as int)
        + "</tr>\n</thead>\n<tbody>\n"@ + rows_html(rows, a, hs.len() as int, rows.len() as int)
        + "</tbody>\n</table>\n"@
}

/// The number of occurrences of `p` in `s`.
pub open spec fn count_occ(s: Seq<char>, p: Seq<char>) -> nat
    decreases s.len(),
{
    if s.len() == 0 {
        0
    } else {
        count_occ(s.drop_last(), p) + if ends_with(s, p) {
            1nat
        } else {
            0nat
        }
    }
}

/// Whether no end of `a` is a proper beginning of `p`, so that no
/// occurrence of `p` runs from `a` into what follows it.
pub open spec fn end_safe(a: Seq<char>, p: Seq<char>) -> bool {
    forall|m: int| 1 <= m < p.len() && m <= a.len() ==> #[trigger] a.skip(a.len() - m) != p.take(m)
}

pub proof fn lemma_count_concat(a: Seq<char>, b: Seq<char>, p: Seq<char>)
    requires
        p.len() > 0,
        end_safe(a, p),
    ensures
        count_occ(a + b, p) == count_occ(a, p) + count_occ(b, p),
    decreases b.len(),
{
    if b.len() == 0 {
        assert(a + b =~= a);
    } else {
        let c = a + b;
        assert(c.drop_last() =~= a + b.drop_last());
        lemma_count_concat(a, b.drop_last(), p);
        if p.len() <= b.len() {
            assert(c.skip(c.len() - p.len()) =~= b.skip(b.len() - p.len()));
        } else if ends_with(c, p) {
            let m = p.len() - b.len();
            assert(a.skip(a.len() - m) =~= p.take(m)) by {
                assert forall|k: int| 0 <= k < m implies a.skip(a.len() - m)[k] == p.take(m)[k] by {
                    assert(c.skip(c.len() - p.len())[k] == p[k]);
                    assert(c[c.len() - p.len() + k] == a[a.len() - m + k]);
                }
            }
            assert(false);
        }
    }
}

pub proof fn lemma_end_safe_last(a: Seq<char>, p: Seq<char>)
    requires
        a.len() == 0 || forall|k: int| 0 <= k < p.len() - 1 ==> p[k] != a.last(),
    ensures
        end_safe(a, p),
{
    assert forall|m: int| 1 <= m < p.len() && m <= a.len() implies #[trigger] a.skip(a.len() - m) != p.take(m) by {
        assert(a.skip(a.len() - m)[m - 1] == a.last());
        assert(p.take(m)[m - 1] == p[m - 1]);
    }
}

pub proof fn lemma_count_zero(s: Seq<char>, p: Seq<char>)
    requires
        forall|i: int| 0 <= i && i + p.len() <= s.len() ==> #[trigger] s.subrange(i, i + p.len()) != p,
    ensures
        count_occ(s, p) == 0,
    decreases s.len(),
{
    if s.len() > 0 {
        let d = s.drop_last();
        assert forall|i: int| 0 <= i && i + p.len() <= d.len() implies #[trigger] d.subrange(i, i + p.len()) != p by {
            assert(d.subrange(i, i + p.len()) =~= s.subrange(i, i + p.len()));
        }
        lemma_count_zero(d, p);
        if ends_with(s, p) {
            let i = s.len() - p.len();
            assert(s.subrange(i, i + p.len()) =~= s.skip(i));
        }
    }
}

/// A closing table tag, `</t…`.
pub open spec fn closes_table_tag(p: Seq<char>) -> bool {
    p.len() >= 3 && p[0] == '<' && p[1] == '/' && p[2] == 't'
}

proof fn lemma_inline_counts(x: Seq<char>, p: Seq<char>)
    requires
        no_table_tags(x),
        closes_table_tag(p),
    ensures
        count_occ(x, p) == 0,
        end_safe(x, p),
{
    assert forall|i: int| 0 <= i && i + p.len() <= x.len() implies #[trigger] x.subrange(i, i + p.len()) != p by {
        if x.subrange(i, i + p.len()) == p {
            assert(x.subrange(i, i + p.len())[0] == x[i]);
            assert(x.subrange(i, i + p.len())[1] == x[i + 1]);
            assert(x.subrange(i, i + p.len())[2] == x[i + 2]);
        }
    }
    lemma_count_zero(x, p);
    assert forall|m: int| 1 <= m < p.len() && m <= x.len() implies #[trigger] x.skip(x.len() - m) != p.take(m) by {
        if x.skip(x.len() - m) == p.take(m) {
            let i = x.len() - m;
            assert(x.skip(i)[0] == x[i] && p.take(m)[0] == p[0]);
            assert(x[i] == p[0]);
            if m >= 3 {
                assert(x.skip(i)[1] == x[i + 1] && p.take(m)[1] == p[1]);
                assert(x.skip(i)[2] == x[i + 2] && p.take(m)[2] == p[2]);
            }
        }
    }
}

proof fn lemma_no_slash(s: Seq<char>, p: Seq<char>)
    requires
        closes_table_tag(p),
        forall|k: int| 0 <= k < s.len() ==> #[trigger] s[k] != '/',
    ensures
        count_occ(s, p) == 0,
{
    assert forall|i: int| 0 <= i && i + p.len() <= s.len() implies #[trigger] s.subrange(i, i + p.len()) != p by {
        if s.subrange(i, i + p.len()) == p {
            assert(s[i + 1] == p[1]);
        }
    }
    lemma_count_zero(s, p);
}

/// The opening tag of a cell: `<th` or `<td`, then the alignment style.
pub open spec fn cell_open(tag: Seq<char>, a: Alignment) -> Seq<char> {
    "<"@ + tag + align_style(a) + ">"@
}

proof fn lemma_cell_open_no_slash(tag: Seq<char>, a: Alignment, p: Seq<char>)
    requires
        tag == "th"@ || tag == "td"@,
        p == "</th>"@ || p == "</td>"@,
    ensures
        count_occ(cell_open(tag, a), p) == 0,
        end_safe(cell_open(tag, a), p),
{
    reveal_strlit("<");
    reveal_strlit(">");
    reveal_strlit("th");
    reveal_strlit("td");
    reveal_strlit(" style=\"text-align: center\"");
    reveal_strlit(" style=\"text-align: right\"");
    reveal_strlit("</th>");
    reveal_strlit("</td>");
    let o = cell_open(tag, a);
    assert forall|k: int| 0 <= k < o.len() implies #[trigger] o[k] != '/' by {
        let st = align_style(a);
        if k >= 3 && k < 3 + st.len() {
            assert(o[k] == st[k - 3]);
        }
    }
    lemma_no_slash(o, p);
    assert(o.last() == '>');
    lemma_end_safe_last(o, p);
}

/// The counts of `p` in a closing tag followed by a newline: one for the
/// tag itself, none for another table tag of the same length.
proof fn lemma_close_counts(c: Seq<char>, p: Seq<char>)
    requires
        c == "</th>\n"@ || c == "</td>\n"@ || c == "</tr>\n"@,
        p == "</th>"@ || p == "</td>"@,
    ensures
        count_occ(c, p) == if c == p + "\n"@ {
            1nat
        } else {
            0nat
        },
{
    reveal_strlit("</th>\n");
    reveal_strlit("</td>\n");
    reveal_strlit("</tr>\n");
    reveal_strlit("</th>");
    reveal_strlit("</td>");
    reveal_strlit("\n");
    let t = c.take(5);
    let nl = c.skip(5);
    assert(c =~= t + nl);
    assert(nl =~= seq!['\n']);
    assert forall|i: int| 0 <= i && i + p.len() <= t.drop_last().len() implies #[trigger] t.drop_last().subrange(i, i + p.len()) != p by {}
    lemma_count_zero(t.drop_last(), p);
    assert(t.drop_last().drop_last() =~= t.drop_last().take(3));
    assert(count_occ(t, p) == if t == p { 1nat } else { 0nat }) by {
        if t == p {
            assert(t.skip(0) =~= t);
        } else {
            assert(t.skip(0) =~= t);
        }
    }
    assert forall|i: int| 0 <= i && i + p.len() <= nl.len() implies #[trigger] nl.subrange(i, i + p.len()) != p by {}
    lemma_count_zero(nl, p);
    lemma_end_safe_last(t, p);
    lemma_count_concat(t, nl, p);
    if c == p + "\n"@ {
        assert(t =~= p);
    } else {
        assert(t != p) by {
            if t == p {
                assert(c =~= p + "\n"@);
            }
        }
    }
}

/// One header or data cell.
pub open spec fn cell_html(tag: Seq<char>, a: Alignment, content: Seq<char>) -> Seq<char> {
    cell_open(tag, a) + inline_html(content) + "</"@ + tag + ">\n"@
}

proof fn lemma_cell_counts(tag: Seq<char>, a: Alignment, content: Seq<char>, p: Seq<char>)
    requires
        tag == "th"@ || tag == "td"@,
        p == "</th>"@ || p == "</td>"@,
    ensures
        count_occ(cell_html(tag, a, content), p) == if p == "</"@ + tag + ">"@ {
            1nat
        } else {
            0nat
        },
        cell_html(tag, a, content).len() > 0,
        cell_html(tag, a, content).last() == '\n',
{
    reveal_strlit("</th>");
    reveal_strlit("</td>");
    reveal_strlit("</");
    reveal_strlit(">\n");
    reveal_strlit(">");
    reveal_strlit("th");
    reveal_strlit("td");
    reveal_strlit("</th>\n");
    reveal_strlit("</td>\n");
    reveal_strlit("\n");
    let o = cell_open(tag, a);
    let i = inline_html(content);
    let c = "</"@ + tag + ">\n"@;
    assert(c == "</th>\n"@ || c == "</td>\n"@);
    assert(closes_table_tag(p));
    lemma_inline_no_table_tags(content, 0);
    lemma_inline_counts(i, p);
    lemma_cell_open_no_slash(tag, a, p);
    lemma_close_counts(c, p);
    lemma_count_concat(i, c, p);
    lemma_count_concat(o, i + c, p);
    assert(cell_html(tag, a, content) =~= o + (i + c));
    assert((c == p + "\n"@) == (p == "</"@ + tag + ">"@)) by {
        if p == "</"@ + tag + ">"@ {
            assert(c =~= p + "\n"@);
        }
        if c == p + "\n"@ {
            assert(p =~= c.take(5));
            assert(tag.len() == 2);
            assert(("</"@ + tag + ">"@).len() == 5);
            assert forall|k: int| 0 <= k < 5 implies #[trigger] ("</"@ + tag + ">"@)[k] == c.take(5)[k] by {
                if k < 2 {
                } else if k < 4 {
                    assert(("</"@ + tag + ">"@)[k] == tag[k - 2]);
                    assert(c[k] == tag[k - 2]);
                } else {
                }
            }
            assert("</"@ + tag + ">"@ =~= c.take(5));
        }
    }
}

/// The header row holds exactly one `</th>` per header cell, and no `</td>`.
pub proof fn lemma_header_counts(hs: Seq<Seq<char>>, a: Seq<Alignment>, n: int)
    requires
        n >= 0,
    ensures
        count_occ(header_html(hs, a, n), "</th>"@) == n,
        count_occ(header_html(hs, a, n), "</td>"@) == 0,
        n > 0 ==> header_html(hs, a, n).len() > 0 && header_html(hs, a, n).last() == '\n',
    decreases n,
{
    reveal_strlit("</th>");
    reveal_strlit("</td>");
    reveal_strlit("th");
    reveal_strlit("<th");
    reveal_strlit("<");
    reveal_strlit(">");
    reveal_strlit("</th>\n");
    reveal_strlit("</");
    reveal_strlit(">\n");
    if n == 0 {
        assert(header_html(hs, a, 0) =~= Seq::<char>::empty());
    } else {
        lemma_header_counts(hs, a, n - 1);
        let h = header_html(hs, a, n - 1);
        let cell = cell_html("th"@, align_at(a, n - 1), cell_at(hs, n - 1));
        assert(header_html(hs, a, n) =~= h + cell);
        lemma_cell_counts("th"@, align_at(a, n - 1), cell_at(hs, n - 1), "</th>"@);
        lemma_cell_counts("th"@, align_at(a, n - 1), cell_at(hs, n - 1), "</td>"@);
        lemma_end_safe_last(h, "</th>"@);
        lemma_end_safe_last(h, "</td>"@);
        lemma_count_concat(h, cell, "</th>"@);
        lemma_count_concat(h, cell, "</td>"@);
        assert("</th>"@ == "</"@ + "th"@ + ">"@);
        assert("</td>"@ != "</"@ + "th"@ + ">"@) by {
            assert(("</"@ + "th"@ + ">"@)[3] == 'h');
        }
    }
}

/// A data row holds exactly one `</td>` per column, and no `</th>`.
pub proof fn lemma_data_cells_counts(cells: Seq<Seq<char>>, a: Seq<Alignment>, n: int)
    requires
        n >= 0,
    ensures
        count_occ(data_cells_html(cells, a, n), "</td>"@) == n,
        count_occ(data_cells_html(cells, a, n), "</th>"@) == 0,
        n > 0 ==> data_cells_html(cells, a, n).len() > 0 && data_cells_html(cells, a, n).last() == '\n',
    decreases n,
{
    reveal_strlit("</th>");
    reveal_strlit("</td>");
    reveal_strlit("td");
    reveal_strlit("<td");
    reveal_strlit("<");
    reveal_strlit(">");
    reveal_strlit("</td>\n");
    reveal_strlit("</");
    reveal_strlit(">\n");
    if n == 0 {
        assert(data_cells_html(cells, a, 0) =~= Seq::<char>::empty());
    } else {
        lemma_data_cells_counts(cells, a, n - 1);
        let h = data_cells_html(cells, a, n - 1);
        let cell = cell_html("td"@, align_at(a, n - 1), cell_at(cells, n - 1));
        assert(data_cells_html(cells, a, n) =~= h + cell);
        lemma_cell_counts("td"@, align_at(a, n - 1), cell_at(cells, n - 1), "</th>"@);
        lemma_cell_counts("td"@, align_at(a, n - 1), cell_at(cells, n - 1), "</td>"@);
        lemma_end_safe_last(h, "</th>"@);
        lemma_end_safe_last(h, "</td>"@);
        lemma_count_concat(h, cell, "</th>"@);
        lemma_count_concat(h, cell, "</td>"@);
        assert("</td>"@ == "</"@ + "td"@ + ">"@);
        assert("</th>"@ != "</"@ + "td"@ + ">"@) by {
            assert(("</"@ + "td"@ + ">"@)[3] == 'd');
        }
    }
}

proof fn lemma_row_frame(p: Seq<char>)
    requires
        p == "</th>"@ || p == "</td>"@,
    ensures
        count_occ("<tr>\n"@, p) == 0,
        count_occ("</tr>\n"@, p) == 0,
        end_safe("<tr>\n"@, p),
{
    reveal_strlit("<tr>\n");
    reveal_strlit("</tr>\n");
    reveal_strlit("</th>");
    reveal_strlit("</td>");
    assert(closes_table_tag(p));
    assert forall|k: int| 0 <= k < "<tr>\n"@.len() implies #[trigger] "<tr>\n"@[k] != '/' by {}
    lemma_no_slash("<tr>\n"@, p);
    lemma_close_counts("</tr>\n"@, p);
    reveal_strlit("\n");
    assert("</tr>\n"@ != p + "\n"@) by {
        assert(("</tr>\n"@)[3] == 'r');
        assert((p + "\n"@)[3] == p[3]);
    }
    lemma_end_safe_last("<tr>\n"@, p);
}

/// The data rows, each padded or cut to `cols` cells, hold exactly `cols`
/// `</td>` per row, and no `</th>`.
pub proof fn lemma_rows_counts(rows: Seq<Seq<char>>, a: Seq<Alignment>, cols: int, n: int)
    requires
        n >= 0,
        cols >= 0,
    ensures
        count_occ(rows_html(rows, a, cols, n), "</td>"@) == cols * n,
        count_occ(rows_html(rows, a, cols, n), "</th>"@) == 0,
        n > 0 ==> rows_html(rows, a, cols, n).len() > 0 && rows_html(rows, a, cols, n).last() == '\n',
    decreases n,
{
    reveal_strlit("</th>");
    reveal_strlit("</td>");
    reveal_strlit("<tr>\n");
    reveal_strlit("</tr>\n");
    if n == 0 {
        assert(rows_html(rows, a, cols, 0) =~= Seq::<char>::empty());
    } else {
        lemma_rows_counts(rows, a, cols, n - 1);
        let r = rows_html(rows, a, cols, n - 1);
        let d = data_cells_html(split_cells(rows[n - 1]), a, cols);
        let row = "<tr>\n"@ + (d + "</tr>\n"@);
        assert(rows_html(rows, a, cols, n) =~= r + row);
        lemma_data_cells_counts(split_cells(rows[n - 1]), a, cols);
        lemma_row_frame("</th>"@);
        lemma_row_frame("</td>"@);
        lemma_end_safe_last(d, "</th>"@);
        lemma_end_safe_last(d, "</td>"@);
        lemma_count_concat(d, "</tr>\n"@, "</th>"@);
        lemma_count_concat(d, "</tr>\n"@, "</td>"@);
        lemma_count_concat("<tr>\n"@, d + "</tr>\n"@, "</th>"@);
        lemma_count_concat("<tr>\n"@, d + "</tr>\n"@, "</td>"@);
        lemma_end_safe_last(r, "</th>"@);
        lemma_end_safe_last(r, "</td>"@);
        lemma_count_concat(r, row, "</th>"@);
        lemma_count_concat(r, row, "</td>"@);
        assert(cols * (n - 1) + cols == cols * n) by (nonlinear_arith);
    }
}

proof fn lemma_frame_counts(p: Seq<char>)
    requires
        p == "</th>"@ || p == "</td>"@,
    ensures
        count_occ("<table>\n<thead>\n<tr>\n"@, p) == 0,
        count_occ("</tr>\n</thead>\n<tbody>\n"@, p) == 0,
        count_occ("</tbody>\n</table>\n"@, p) == 0,
        end_safe("<table>\n<thead>\n<tr>\n"@, p),
        end_safe("</tr>\n</thead>\n<tbody>\n"@, p),
{
    reveal_strlit("<table>\n<thead>\n<tr>\n");
    reveal_strlit("</tr>\n</thead>\n<tbody>\n");
    reveal_strlit("</tbody>\n</table>\n");
    reveal_strlit("</th>");
    reveal_strlit("</td>");
    let a = "<table>\n<thead>\n<tr>\n"@;
    let b = "</tr>\n</thead>\n<tbody>\n"@;
    let c = "</tbody>\n</table>\n"@;
    assert(closes_table_tag(p));
    assert forall|k: int| 0 <= k < a.len() implies #[trigger] a[k] != '/' by {}
    lemma_no_slash(a, p);
    assert forall|i: int| 0 <= i && i + p.len() <= b.len() implies #[trigger] b.subrange(i, i + p.len()) != p by {
        if b.subrange(i, i + p.len()) == p {
            assert(b.subrange(i, i + p.len())[0] == b[i]);
            assert(b.subrange(i, i + p.len())[1] == b[i + 1]);
            assert(b.subrange(i, i + p.len())[3] == b[i + 3]);
            assert(b.subrange(i, i + p.len())[4] == b[i + 4]);
        }
    }
    lemma_count_zero(b, p);
    assert forall|i: int| 0 <= i && i + p.len() <= c.len() implies #[trigger] c.subrange(i, i + p.len()) != p by {
        if c.subrange(i, i + p.len()) == p {
            assert(c.subrange(i, i + p.len())[0] == c[i]);
            assert(c.subrange(i, i + p.len())[1] == c[i + 1]);
            assert(c.subrange(i, i + p.len())[3] == c[i + 3]);
            assert(c.subrange(i, i + p.len())[4] == c[i + 4]);
        }
    }
    lemma_count_zero(c, p);
    lemma_end_safe_last(a, p);
    lemma_end_safe_last(b, p);
}

/// A whole table holds exactly one `</th>` per header cell, and one `</td>`
/// per header cell in each data row: short rows are padded with empty cells
/// and longer ones cut.
pub proof fn lemma_whole_table_counts(header: Seq<char>, sep: Seq<char>, rows: Seq<Seq<char>>)
    ensures
        count_occ(table_html(header, sep, rows), "</th>"@) == split_cells(header).len(),
        count_occ(table_html(header, sep, rows), "</td>"@) == split_cells(header).len() * rows.len(),
{
    reveal_strlit("</th>");
    reveal_strlit("</td>");
    let hs = split_cells(header);
    let a = alignments(sep);
    let n = hs.len() as int;
    let h = header_html(hs, a, n);
    let r = rows_html(rows, a, n, rows.len() as int);
    let fa = "<table>\n<thead>\n<tr>\n"@;
    let fb = "</tr>\n</thead>\n<tbody>\n"@;
    let fc = "</tbody>\n</table>\n"@;
    assert(table_html(header, sep, rows) =~= fa + (h + (fb + (r + fc))));
    lemma_header_counts(hs, a, n);
    lemma_rows_counts(rows, a, n, rows.len() as int);
    lemma_frame_counts("</th>"@);
    lemma_frame_counts("</td>"@);
    lemma_end_safe_last(h, "</th>"@);
    lemma_end_safe_last(h, "</td>"@);
    lemma_end_safe_last(r, "</th>"@);
    lemma_end_safe_last(r, "</td>"@);
    lemma_count_concat(r, fc, "</th>"@);
    lemma_count_concat(r, fc, "</td>"@);
    lemma_count_concat(fb, r + fc, "</th>"@);
    lemma_count_concat(fb, r + fc, "</td>"@);
    lemma_count_concat(h, fb + (r + fc), "</th>"@);
    lemma_count_concat(h, fb + (r + fc), "</td>"@);
    lemma_count_concat(fa, h + (fb + (r + fc)), "</th>"@);
    lemma_count_concat(fa, h + (fb + (r + fc)), "</td>"@);
}

/// A table holds exactly one `</th>` per header cell, and in every data row
/// exactly one `</td>` per header cell: short rows are padded with empty
/// cells and longer ones cut.
pub proof fn lemma_table_cell_counts(header: Seq<char>, sep: Seq<char>, rows: Seq<Seq<char>>)
    ensures
        count_occ(header_html(split_cells(header), alignments(sep), split_cells(header).len() as int), "</th>"@)
            == split_cells(header).len(),
        count_occ(header_html(split_cells(header), alignments(sep), split_cells(header).len() as int), "</td>"@)
            == 0,
        count_occ(
            rows_html(rows, alignments(sep), split_cells(header).len() as int, rows.len() as int),
            "</td>"@,
        ) == split_cells(header).len() * rows.len(),
        count_occ(
            rows_html(rows, alignments(sep), split_cells(header).len() as int, rows.len() as int),
            "</th>"@,
        ) == 0,
{
    lemma_header_counts(split_cells(header), alignments(sep), split_cells(header).len() as int);
    lemma_rows_counts(rows, alignments(sep), split_cells(header).len() as int, rows.len() as int);
}

/// The trimmed cells of the line `s[lo..hi]`.
pub fn split_cells_exec(s: &Vec<char>, lo: usize, hi: usize) -> (cells: Vec<Vec<char>>)
    requires
        lo <= hi <= s.len(),
    ensures
        views(cells@) == split_cells(s@.subrange(lo as int, hi as int)),
{
    let (a0, b0) = trim_bounds(s, lo, hi);
    let mut a = a0;
    let mut b = b0;
    if a < b && s[a] == '|' {
        a = a + 1;
    }
    if a < b && s[b - 1] == '|' {
        b = b - 1;
    }
    let ghost t = s@.subrange(a0 as int, b0 as int);
    let ghost inner = s@.subrange(a as int, b as int);
    proof {
        let a1 = if t.len() > 0 && t[0] == '|' {
            t.skip(1)
        } else {
            t
        };
        assert(a1 =~= s@.subrange(a as int, b0 as int));
        if a1.len() > 0 && a1.last() == '|' {
            assert(a1.drop_last() =~= inner);
        } else {
            assert(a1 =~= inner);
        }
    }
    let mut cells: Vec<Vec<char>> = Vec::new();
    let mut start = a;
    let mut idx = a;
    let mut in_code = false;
    while idx < b
        invariant
            a <= start <= idx <= b <= s.len(),
            inner == s@.subrange(a as int, b as int),
            views(cells@) + cells_from(inner, start - a, idx - a, in_code) == cells_from(
                inner,
                0,
                0,
                false,
            ),
        decreases b - idx,
    {
        let ghost before = views(cells@);
        if s[idx] == '`' {
            in_code = !in_code;
        } else if s[idx] == '|' && !in_code {
            let (x, y) = trim_bounds(s, start, idx);
            let cell = slice(s, x, y);
            cells.push(cell);
            proof {
                assert(inner.subrange(start - a, idx - a) =~= s@.subrange(start as int, idx as int));
                assert(views(cells@) =~= before + seq![trim(inner.subrange(start - a, idx - a))]);
            }
            start = idx + 1;
        }
        idx = idx + 1;
    }
    let (x, y) = trim_bounds(s, start, b);
    let cell = slice(s, x, y);
    let ghost before = views(cells@);
    cells.push(cell);
    proof {
        assert(inner.subrange(start - a, inner.len() as int) =~= s@.subrange(start as int, b as int));
        assert(views(cells@) =~= before + seq![trim(inner.subrange(start - a, inner.len() as int))]);
    }
    cells
}

#[verifier::loop_isolation(false)]
fn separator_cell_exec(c: &Vec<char>) -> (r: bool)
    ensures
        r == separator_cell(trim(c@)),
{
    let (x, y) = trim_bounds(c, 0, c.len());
    let ghost t = c@.subrange(x as int, y as int);
    assert(c@.subrange(0, c@.len() as int) =~= c@);
    if x == y {
        return false;
    }
    let mut p = x;
    let mut q = y;
    if c[p] == ':' {
        p = p + 1;
    }
    if p < q && c[q - 1] == ':' {
        q = q - 1;
    }
    proof {
        let c1 = if t.len() > 0 && t[0] == ':' {
            t.skip(1)
        } else {
            t
        };
        assert(c1 =~= c@.subrange(p as int, y as int));
        assert(strip_colons(t) =~= c@.subrange(p as int, q as int));
    }
    if p == q {
        return false;
    }
    let mut k = p;
    while k < q
        invariant
            p <= k <= q <= c.len(),
            forall|j: int| p <= j < k ==> c@[j] == '-',
        decreases q - k,
    {
        if c[k] != '-' {
            assert(c@.subrange(p as int, q as int)[k - p] != '-');
            return false;
        }
        k = k + 1;
    }
    assert forall|j: int| 0 <= j < q - p implies #[trigger] c@.subrange(p as int, q as int)[j]
        == '-' by {
        assert(c@.subrange(p as int, q as int)[j] == c@[p + j]);
    }
    true
}

/// Whether the line `s[lo..hi]` is a separator row.
#[verifier::loop_isolation(false)]
pub fn is_separator_exec(s: &Vec<char>, lo: usize, hi: usize) -> (r: bool)
    requires
        lo <= hi <= s.len(),
    ensures
        r == is_separator(s@.subrange(lo as int, hi as int)),
{
    let (x, y) = trim_bounds(s, lo, hi);
    let cells = split_cells_exec(s, x, y);
    if cells.len() == 0 {
        return false;
    }
    let mut k: usize = 0;
    while k < cells.len()
        invariant
            k <= cells.len(),
            forall|j: int| 0 <= j < k ==> separator_cell(trim(#[trigger] views(cells@)[j])),
        decreases cells.len() - k,
    {
        assert(views(cells@)[k as int] == cells@[k as int]@);
        if !separator_cell_exec(&cells[k]) {
            return false;
        }
        k = k + 1;
    }
    true
}

fn cell_alignment_exec(c: &Vec<char>) -> (r: Alignment)
    ensures
        r == cell_alignment(c@),
{
    let (x, y) = trim_bounds(c, 0, c.len());
    assert(c@.subrange(0, c@.len() as int) =~= c@);
    let left = x < y && c[x] == ':';
    let right = x < y && c[y - 1] == ':';
    if left && right {
        Alignment::Center
    } else if !left && right {
        Alignment::Right
    } else {
        Alignment::Left
    }
}

/// The column alignments given by the separator row `s[lo..hi]`.
pub fn alignments_exec(s: &Vec<char>, lo: usize, hi: usize) -> (r: Vec<Alignment>)
    requires
        lo <= hi <= s.len(),
    ensures
        r@ == alignments(s@.subrange(lo as int, hi as int)),
{
    let cells = split_cells_exec(s, lo, hi);
    let mut r: Vec<Alignment> = Vec::new();
    let mut k: usize = 0;
    while k < cells.len()
        invariant
            k <= cells.len(),
            r@ == views(cells@).take(k as int).map_values(|c: Seq<char>| cell_alignment(c)),
        decreases cells.len() - k,
    {
        r.push(cell_alignment_exec(&cells[k]));
        k = k + 1;
        assert(r@ =~= views(cells@).take(k as int).map_values(|c: Seq<char>| cell_alignment(c)));
    }
    assert(views(cells@).take(cells.len() as int) =~= views(cells@));
    r
}

fn push_style(out: &mut Vec<char>, a: Alignment)
    ensures
        final(out)@ == old(out)@ + align_style(a),
{
    match a {
        Alignment::Left => {
            assert(out@ =~= out@ + align_style(a));
        },
        Alignment::Center => push_str(out, " style=\"text-align: center\""),
        Alignment::Right => push_str(out, " style=\"text-align: right\""),
    }
}

fn align_at_exec(a: &Vec<Alignment>, k: usize) -> (r: Alignment)
    ensures
        r == align_at(a@, k as int),
{
    if k < a.len() {
        a[k]
    } else {
        Alignment::Left
    }
}

/// Appends the cells `<tag ...>..</tag>` of one row, `n` of them.
fn push_cells(
    out: &mut Vec<char>,
    cells: &Vec<Vec<char>>,
    a: &Vec<Alignment>,
    n: usize,
    header: bool,
)
    ensures
        header ==> final(out)@ == old(out)@ + header_html(views(cells@), a@, n as int),
        !header ==> final(out)@ == old(out)@ + data_cells_html(views(cells@), a@, n as int),
{
    let ghost start = out@;
    let mut k: usize = 0;
    let empty: Vec<char> = Vec::new();
    while k < n
        invariant
            k <= n,
            empty@ == Seq::<char>::empty(),
            header ==> out@ == start + header_html(views(cells@), a@, k as int),
            !header ==> out@ == start + data_cells_html(views(cells@), a@, k as int),
        decreases n - k,
    {
        if header {
            push_str(out, "<th");
        } else {
            push_str(out, "<td");
        }
        push_style(out, align_at_exec(a, k));
        push_str(out, ">");
        let content: &Vec<char> = if k < cells.len() {
            &cells[k]
        } else {
            &empty
        };
        assert(content@ == cell_at(views(cells@), k as int));
        let r = render_inline_chars(content);
        push_all(out, &r);
        if header {
            push_str(out, "</th>\n");
        } else {
            push_str(out, "</td>\n");
        }
        k = k + 1;
        proof {
            if header {
                assert(out@ =~= start + header_html(views(cells@), a@, k as int));
            } else {
                assert(out@ =~= start + data_cells_html(views(cells@), a@, k as int));
            }
        }
    }
}

/// Appends the HTML of the table whose header, separator and data rows are
/// the lines `lines[h]`, `lines[h + 1]` and `lines[h + 2 .. end]`, each trimmed.
pub fn push_table(out: &mut Vec<char>, header: &Vec<char>, sep: &Vec<char>, rows: &Vec<Vec<char>>)
    ensures
        final(out)@ == old(out)@ + table_html(header@, sep@, views(rows@)),
{
    let ghost start = out@;
    let a = alignments_exec(sep, 0, sep.len());
    let hs = split_cells_exec(header, 0, header.len());
    assert(sep@.subrange(0, sep@.len() as int) =~= sep@);
    assert(header@.subrange(0, header@.len() as int) =~= header@);
    let cols = hs.len();
    push_str(out, "<table>\n<thead>\n<tr>\n");
    push_cells(out, &hs, &a, cols, true);
    push_str(out, "</tr>\n</thead>\n<tbody>\n");
    let ghost mid = out@;
    let mut r: usize = 0;
    while r < rows.len()
        invariant
            r <= rows.len(),
            cols == views(hs@).len(),
            a@ == alignments(sep@),
            out@ == mid + rows_html(views(rows@), a@, cols as int, r as int),
        decreases rows.len() - r,
    {
        push_str(out, "<tr>\n");
        let row = &rows[r];
        let cells = split_cells_exec(row, 0, row.len());
        assert(row@.subrange(0, row@.len() as int) =~= row@);
        assert(views(rows@)[r as int] == row@);
        push_cells(out, &cells, &a, cols, false);
        push_str(out, "</tr>\n");
        r = r + 1;
        assert(out@ =~= mid + rows_html(views(rows@), a@, cols as int, r as int));
    }
    push_str(out, "</tbody>\n</table>\n");
    assert(out@ =~= start + table_html(header@, sep@, views(rows@)));
}

} // verus!
