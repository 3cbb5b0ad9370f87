//! Recognisers for single Markdown lines: headings, rules, list items, and the
//! anchor slugs of headings.
use vstd::prelude::*;
use crate::text::{is_ws, utf8_len, is_whitespace};

verus! {

/// Length of the run of `#` that starts `s`.
pub open spec fn hash_run(s: Seq<char>, k: int) -> int
    decreases s.len() - k,
{
    if 0 <= k < s.len() && s[k] == '#' {
        1 + hash_run(s, k + 1)
    } else {
        0
    }
}

/// An ATX heading: its level and where its text starts.
pub open spec fn parse_heading(s: Seq<char>) -> Option<(int, int)> {
    let n = hash_run(s, 0);
    if n == 0 || n > 6 {
        None
    } else if n < s.len() && s[n] == ' ' {
        Some((n, n + 1))
    } else {
        None
    }
}

pub open spec fn is_ascii_alnum(c: char) -> bool {
    ('0' <= c && c <= '9') || ('a' <= c && c <= 'z') || ('A' <= c && c <= 'Z')
}

/// What one character of heading text contributes to its anchor slug.
pub open spec fn slug_char(c: char) -> Seq<char> {
    if is_ascii_alnum(c) || c == '_' {
        seq![crate::text::ascii_lower_char(c)]
    } else if c == ' ' || c == '-' {
        seq!['-']
    } else {
        seq![]
    }
}

/// The anchor slug of a heading: ASCII letters and digits lower-cased, `_`
/// kept, spaces and hyphens as `-`, everything else dropped.
pub open spec fn slug(s: Seq<char>) -> Seq<char>
    decreases s.len(),
{
    if s.len() == 0 {
        seq![]
    } else {
        slug(s.drop_last()) + slug_char(s.last())
    }
}

/// The characters an anchor slug is made of.
pub open spec fn slug_safe(c: char) -> bool {
    ('a' <= c && c <= 'z') || ('0' <= c && c <= '9') || c == '_' || c == '-'
}

/// A heading's anchor id holds only lower-case ASCII letters, digits, `_`
/// and `-`, whatever the heading says.
pub proof fn lemma_slug_safe(s: Seq<char>)
    ensures
        forall|i: int| 0 <= i < slug(s).len() ==> slug_safe(#[trigger] slug(s)[i]),
    decreases s.len(),
{
    if s.len() > 0 {
        lemma_slug_safe(s.drop_last());
        let a = slug(s.drop_last());
        let b = slug_char(s.last());
        assert forall|i: int| 0 <= i < b.len() implies slug_safe(#[trigger] b[i]) by {
            let c = s.last();
            if 'A' <= c && c <= 'Z' {
                assert(b[i] == ((c as u32) + 32) as char);
            }
        }
        assert forall|i: int| 0 <= i < slug(s).len() implies slug_safe(#[trigger] slug(s)[i]) by {
            if i < a.len() {
                assert(slug(s)[i] == a[i]);
            } else {
                assert(slug(s)[i] == b[i - a.len()]);
            }
        }
    }
}

/// The non-whitespace characters of `s`.
pub open spec fn non_ws(s: Seq<char>) -> Seq<char>
    decreases s.len(),
{
    if s.len() == 0 {
        seq![]
    } else if is_ws(s.last()) {
        non_ws(s.drop_last())
    } else {
        non_ws(s.drop_last()).push(s.last())
    }
}

/// A thematic break: at least three of one of `-`, `*`, `_`, and nothing
/// else but whitespace.
pub open spec fn is_rule(s: Seq<char>) -> bool {
    let t = non_ws(s);
    t.len() >= 3 && (t[0] == '-' || t[0] == '*' || t[0] == '_') && forall|k: int|
        0 <= k < t.len() ==> #[trigger] t[k] == t[0]
}

/// Number of leading whitespace characters of `s`.
pub open spec fn ws_run(s: Seq<char>, k: int) -> int
    decreases s.len() - k,
{
    if 0 <= k < s.len() && is_ws(s[k]) {
        1 + ws_run(s, k + 1)
    } else {
        0
    }
}

/// A bullet list item: its indentation in bytes and where its text starts.
pub open spec fn parse_bullet(s: Seq<char>) -> Option<(int, int)> {
    let k = ws_run(s, 0);
    let rest = s.skip(k);
    if rest.len() >= 2 && (rest[0] == '-' || rest[0] == '*' || rest[0] == '+') && rest[1] == ' ' {
        Some((utf8_len(s.take(k)) as int, k + 2))
    } else {
        None
    }
}

pub open spec fn is_digit(c: char) -> bool {
    '0' <= c && c <= '9'
}

pub open spec fn digit_run(s: Seq<char>, k: int) -> int
    decreases s.len() - k,
{
    if 0 <= k < s.len() && is_digit(s[k]) {
        1 + digit_run(s, k + 1)
    } else {
        0
    }
}

/// An ordered list item `N. text`: its indentation in bytes and where its text starts.
pub open spec fn parse_numbered(s: Seq<char>) -> Option<(int, int)> {
    let k = ws_run(s, 0);
    let d = digit_run(s, k);
    if d == 0 || k + d >= s.len() {
        None
    } else if s[k + d] == '.' && k + d + 1 < s.len() && s[k + d + 1] == ' ' {
        Some((utf8_len(s.take(k)) as int, k + d + 2))
    } else {
        None
    }
}

/// Slugs are made character by character: the slug of a concatenation is
/// the concatenation of the slugs.
pub proof fn lemma_slug_append(a: Seq<char>, b: Seq<char>)
    ensures
        slug(a + b) == slug(a) + slug(b),
    decreases b.len(),
{
    if b.len() == 0 {
        assert(a + b =~= a);
        assert(slug(a) + slug(b) =~= slug(a));
    } else {
        lemma_slug_append(a, b.drop_last());
        assert((a + b).drop_last() =~= a + b.drop_last());
        assert(slug(a + b) =~= slug(a) + slug(b));
    }
}

/// A heading's anchor keeps every ASCII letter and digit and `_` where it
/// stands, upper-case letters lowered, turns spaces and hyphens into `-`,
/// and drops every other character, whatever text surrounds it.
pub proof fn lemma_slug_keeps_letters_and_digits(a: Seq<char>, c: char, b: Seq<char>)
    ensures
        ('0' <= c && c <= '9') || ('a' <= c && c <= 'z') ==> slug(a + seq![c] + b) == slug(a) + seq![c] + slug(b),
        'A' <= c && c <= 'Z' ==> slug(a + seq![c] + b) == slug(a) + seq![((c as u32) + 32) as char] + slug(b),
        c == ' ' || c == '-' ==> slug(a + seq![c] + b) == slug(a) + seq!['-'] + slug(b),
        c == '_' ==> slug(a + seq![c] + b) == slug(a) + seq!['_'] + slug(b),
        !(('0' <= c && c <= '9') || ('a' <= c && c <= 'z') || ('A' <= c && c <= 'Z') || c == '_' || c == ' ' || c
            == '-') ==> slug(a + seq![c] + b) == slug(a) + slug(b),
{
    lemma_slug_append(a, seq![c]);
    lemma_slug_append(a + seq![c], b);
    assert(seq![c].drop_last() =~= Seq::<char>::empty());
    assert(slug(seq![c]) == slug(Seq::<char>::empty()) + slug_char(c));
}

/// Where the leading whitespace of `s` ends at `n`, the whitespace run from
/// any `k <= n` reaches `n`.
proof fn lemma_ws_run_to(s: Seq<char>, n: int, k: int)
    requires
        0 <= k <= n < s.len(),
        forall|j: int| 0 <= j < n ==> is_ws(#[trigger] s[j]),
        !is_ws(s[n]),
    ensures
        ws_run(s, k) == n - k,
    decreases n - k,
{
    if k < n {
        lemma_ws_run_to(s, n, k + 1);
    }
}

/// Where the digits of `s` from `m` end at `n`, the digit run from any
/// `m <= k <= n` reaches `n`.
proof fn lemma_digit_run_to(s: Seq<char>, m: int, n: int, k: int)
    requires
        0 <= m <= k <= n < s.len(),
        forall|j: int| m <= j < n ==> is_digit(#[trigger] s[j]),
        !is_digit(s[n]),
    ensures
        digit_run(s, k) == n - k,
    decreases n - k,
{
    if k < n {
        lemma_digit_run_to(s, m, n, k + 1);
    }
}

/// A line made of whitespace, then `-`, `*` or `+`, then a space, is a
/// bullet item whatever follows: indented by the whitespace's width in
/// bytes, with its text after the space.
pub proof fn lemma_bullet_markers(w: Seq<char>, m: char, t: Seq<char>)
    requires
        forall|k: int| 0 <= k < w.len() ==> is_ws(#[trigger] w[k]),
        m == '-' || m == '*' || m == '+',
    ensures
        parse_bullet(w + seq![m, ' '] + t) == Some((utf8_len(w) as int, (w.len() + 2) as int)),
{
    let s = w + seq![m, ' '] + t;
    let n = w.len() as int;
    assert forall|j: int| 0 <= j < n implies is_ws(#[trigger] s[j]) by {
        assert(s[j] == w[j]);
    }
    assert(s[n] == m);
    lemma_ws_run_to(s, n, 0);
    assert(s.take(n) =~= w);
    let rest = s.skip(n);
    assert(rest[0] == m && rest[1] == ' ');
}

/// A line made of whitespace, then one or more ASCII digits, then `. `, is
/// a numbered item whatever follows: indented by the whitespace's width in
/// bytes, with its text after the space.
pub proof fn lemma_numbered_digits(w: Seq<char>, d: Seq<char>, t: Seq<char>)
    requires
        forall|k: int| 0 <= k < w.len() ==> is_ws(#[trigger] w[k]),
        d.len() >= 1,
        forall|k: int| 0 <= k < d.len() ==> '0' <= #[trigger] d[k] && d[k] <= '9',
    ensures
        parse_numbered(w + d + seq!['.', ' '] + t) == Some((utf8_len(w) as int, (w.len() + d.len() + 2) as int)),
{
    let s = w + d + seq!['.', ' '] + t;
    let n = w.len() as int;
    let e = n + d.len();
    assert forall|j: int| 0 <= j < n implies is_ws(#[trigger] s[j]) by {
        assert(s[j] == w[j]);
    }
    assert(s[n] == d[0]);
    lemma_ws_run_to(s, n, 0);
    assert forall|j: int| n <= j < e implies is_digit(#[trigger] s[j]) by {
        assert(s[j] == d[j - n]);
    }
    assert(s[e] == '.');
    assert(s[e + 1] == ' ');
    lemma_digit_run_to(s, n, e, n);
    assert(s.take(n) =~= w);
}

/// What a bullet item looks like: where `parse_bullet` accepts a line with
/// `(indent, start)`, the line is whitespace, then `-`, `*` or `+`, then a
/// space, with the text from `start`; `indent` is the whitespace's width in
/// bytes.
pub proof fn lemma_bullet_shape(s: Seq<char>)
    ensures
        parse_bullet(s) matches Some((indent, start)) ==> {
            &&& 2 <= start <= s.len()
            &&& forall|k: int| 0 <= k < start - 2 ==> is_ws(#[trigger] s[k])
            &&& (s[start - 2] == '-' || s[start - 2] == '*' || s[start - 2] == '+')
            &&& s[start - 1] == ' '
            &&& indent == utf8_len(s.take(start - 2))
        },
{
    let k = ws_run(s, 0);
    lemma_run_bounds(s, 0);
    lemma_ws_run_all(s, 0);
    if parse_bullet(s) is Some {
        let rest = s.skip(k);
        assert(rest[0] == s[k] && rest[1] == s[k + 1]);
    }
}

/// What a numbered item looks like: where `parse_numbered` accepts a line
/// with `(indent, start)`, the line is whitespace, then one or more ASCII
/// digits, then `. `, with the text from `start`; `indent` is the
/// whitespace's width in bytes.
pub proof fn lemma_numbered_shape(s: Seq<char>)
    ensures
        parse_numbered(s) matches Some((indent, start)) ==> exists|n: int|
            {
                &&& 0 <= n < start - 2
                &&& start <= s.len()
                &&& forall|k: int| 0 <= k < n ==> is_ws(#[trigger] s[k])
                &&& forall|k: int| n <= k < start - 2 ==> '0' <= #[trigger] s[k] && s[k] <= '9'
                &&& s[start - 2] == '.'
                &&& s[start - 1] == ' '
                &&& indent == utf8_len(#[trigger] s.take(n))
            },
{
    let k = ws_run(s, 0);
    lemma_run_bounds(s, 0);
    lemma_ws_run_all(s, 0);
    if 0 <= k <= s.len() {
        lemma_run_bounds(s, k);
        lemma_digit_run_all(s, k);
    }
    if parse_numbered(s) is Some {
        assert(s.take(k) == s.take(k));
    }
}

/// The whitespace run from `k` is all whitespace.
proof fn lemma_ws_run_all(s: Seq<char>, k: int)
    requires
        0 <= k,
    ensures
        forall|j: int| k <= j < k + ws_run(s, k) ==> is_ws(#[trigger] s[j]),
    decreases s.len() - k,
{
    if 0 <= k < s.len() && is_ws(s[k]) {
        lemma_ws_run_all(s, k + 1);
    }
}

/// The digit run from `k` is all digits.
proof fn lemma_digit_run_all(s: Seq<char>, k: int)
    requires
        0 <= k,
    ensures
        forall|j: int| k <= j < k + digit_run(s, k) ==> is_digit(#[trigger] s[j]),
    decreases s.len() - k,
{
    if 0 <= k < s.len() && is_digit(s[k]) {
        lemma_digit_run_all(s, k + 1);
    }
}

proof fn lemma_run_bounds(s: Seq<char>, k: int)
    requires
        0 <= k <= s.len(),
    ensures
        0 <= hash_run(s, k) <= s.len() - k,
        0 <= ws_run(s, k) <= s.len() - k,
        0 <= digit_run(s, k) <= s.len() - k,
    decreases s.len() - k,
{
    if k < s.len() {
        lemma_run_bounds(s, k + 1);
    }
}

/// Number of leading `#` of `s`.
pub fn hash_run_exec(s: &Vec<char>) -> (n: usize)
    ensures
        n == hash_run(s@, 0),
{
    let mut k: usize = 0;
    while k < s.len() && s[k] == '#'
        invariant
            k <= s.len(),
            hash_run(s@, 0) == k + hash_run(s@, k as int),
        decreases s.len() - k,
    {
        k = k + 1;
    }
    k
}

/// The level and the start of the text of an ATX heading line.
pub fn parse_heading_exec(s: &Vec<char>) -> (r: Option<(usize, usize)>)
    ensures
        match r {
            Some((l, t)) => parse_heading(s@) == Some((l as int, t as int)) && t <= s.len(),
            None => parse_heading(s@) is None,
        },
{
    let n = hash_run_exec(s);
    if n == 0 || n > 6 {
        None
    } else if n < s.len() && s[n] == ' ' {
        Some((n, n + 1))
    } else {
        None
    }
}

/// Appends the anchor slug of `s[lo..hi]`.
pub fn slug_exec(s: &Vec<char>, lo: usize, hi: usize, out: &mut Vec<char>)
    requires
        lo <= hi <= s.len(),
    ensures
        final(out)@ == old(out)@ + slug(s@.subrange(lo as int, hi as int)),
{
    let ghost start = out@;
    let mut i = lo;
    while i < hi
        invariant
            lo <= i <= hi <= s.len(),
            out@ == start + slug(s@.subrange(lo as int, i as int)),
        decreases hi - i,
    {
        let c = s[i];
        if ('0' <= c && c <= '9') || ('a' <= c && c <= 'z') || ('A' <= c && c <= 'Z') || c == '_' {
            out.push(crate::text::lower_char(c));
        } else if c == ' ' || c == '-' {
            out.push('-');
        }
        proof {
            let sub = s@.subrange(lo as int, i + 1);
            assert(sub.drop_last() =~= s@.subrange(lo as int, i as int));
        }
        i = i + 1;
        assert(out@ =~= start + slug(s@.subrange(lo as int, i as int)));
    }
}

/// Whether a line is a horizontal rule.
pub fn is_rule_exec(s: &Vec<char>) -> (b: bool)
    ensures
        b == is_rule(s@),
{
    let mut t: Vec<char> = Vec::new();
    let mut i: usize = 0;
    while i < s.len()
        invariant
            i <= s.len(),
            t@ == non_ws(s@.take(i as int)),
        decreases s.len() - i,
    {
        if !is_whitespace(s[i]) {
            t.push(s[i]);
        }
        assert(s@.take(i + 1).drop_last() =~= s@.take(i as int));
        i = i + 1;
    }
    assert(s@.take(s.len() as int) =~= s@);
    if t.len() < 3 {
        return false;
    }
    let first = t[0];
    if !(first == '-' || first == '*' || first == '_') {
        return false;
    }
    let mut k: usize = 0;
    while k < t.len()
        invariant
            k <= t.len(),
            t.len() >= 3,
            first == t@[0],
            first == '-' || first == '*' || first == '_',
            t@ == non_ws(s@),
            forall|j: int| 0 <= j < k ==> #[trigger] t@[j] == first,
        decreases t.len() - k,
    {
        if t[k] != first {
            assert(t@[k as int] != t@[0]);
            return false;
        }
        k = k + 1;
    }
    true
}

/// The number of whitespace characters from `k0` on.
pub fn ws_run_exec(s: &Vec<char>, k0: usize) -> (n: usize)
    requires
        k0 <= s.len(),
    ensures
        n == ws_run(s@, k0 as int),
        k0 + n <= s.len(),
{
    let mut k = k0;
    while k < s.len() && is_whitespace(s[k])
        invariant
            k0 <= k <= s.len(),
            ws_run(s@, k0 as int) == (k - k0) + ws_run(s@, k as int),
        decreases s.len() - k,
    {
        k = k + 1;
    }
    k - k0
}

/// Bytes of `s[..k]` in UTF-8, when they fit in a `usize`.
pub fn utf8_prefix_len(s: &Vec<char>, k: usize) -> (n: usize)
    requires
        k <= s.len(),
        utf8_len(s@) <= usize::MAX,
    ensures
        n == utf8_len(s@.take(k as int)),
{
    let mut i: usize = 0;
    let mut acc: usize = 0;
    while i < k
        invariant
            i <= k <= s.len(),
            utf8_len(s@) <= usize::MAX,
            acc == utf8_len(s@.take(i as int)),
        decreases k - i,
    {
        proof {
            crate::text::lemma_utf8_len_subrange(s@, 0, i + 1);
            assert(s@.subrange(0, i + 1) =~= s@.take(i + 1));
            assert(s@.take(i + 1).drop_last() =~= s@.take(i as int));
        }
        let c = s[i];
        let w: usize = if (c as u32) < 0x80 {
            1
        } else if (c as u32) < 0x800 {
            2
        } else if (c as u32) < 0x10000 {
            3
        } else {
            4
        };
        acc = acc + w;
        i = i + 1;
    }
    acc
}

/// The indent and the start of the text of a bullet list item.
pub fn parse_bullet_exec(s: &Vec<char>) -> (r: Option<(usize, usize)>)
    requires
        utf8_len(s@) <= usize::MAX,
    ensures
        match r {
            Some((ind, t)) => parse_bullet(s@) == Some((ind as int, t as int)) && t <= s.len(),
            None => parse_bullet(s@) is None,
        },
{
    let k = ws_run_exec(s, 0);
    if s.len() - k >= 2 && (s[k] == '-' || s[k] == '*' || s[k] == '+') && s[k + 1] == ' ' {
        let ind = utf8_prefix_len(s, k);
        Some((ind, k + 2))
    } else {
        None
    }
}

/// The indent and the start of the text of a numbered list item.
pub fn parse_numbered_exec(s: &Vec<char>) -> (r: Option<(usize, usize)>)
    requires
        utf8_len(s@) <= usize::MAX,
    ensures
        match r {
            Some((ind, t)) => parse_numbered(s@) == Some((ind as int, t as int)) && t <= s.len(),
            None => parse_numbered(s@) is None,
        },
{
    let k = ws_run_exec(s, 0);
    let mut d: usize = 0;
    while k + d < s.len() && '0' <= s[k + d] && s[k + d] <= '9'
        invariant
            k + d <= s.len(),
            digit_run(s@, k as int) == d + digit_run(s@, (k + d) as int),
        decreases s.len() - k - d,
    {
        d = d + 1;
    }
    if d == 0 || k + d >= s.len() {
        None
    } else if s[k + d] == '.' && s.len() - (k + d) > 1 && s[k + d + 1] == ' ' {
        let ind = utf8_prefix_len(s, k);
        Some((ind, k + d + 2))
    } else {
        None
    }
}

} // verus!
