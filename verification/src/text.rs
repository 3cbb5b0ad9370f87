//! Text as sequences of characters: the predicates and transformations that
//! the renderers are specified with, and their executable counterparts.
use vstd::prelude::*;

verus! {

/// Unicode `White_Space`, the property that `char::is_whitespace` tests.
pub open spec fn is_ws(c: char) -> bool {
    ||| ('\t' <= c && c <= '\r')
    ||| c == ' '
    ||| c == '\u{85}'
    ||| c == '\u{a0}'
    ||| c == '\u{1680}'
    ||| ('\u{2000}' <= c && c <= '\u{200a}')
    ||| c == '\u{2028}'
    ||| c == '\u{2029}'
    ||| c == '\u{202f}'
    ||| c == '\u{205f}'
    ||| c == '\u{3000}'
}

/// `s` with its leading whitespace removed.
pub open spec fn trim_start(s: Seq<char>) -> Seq<char>
    decreases s.len(),
{
    if s.len() > 0 && is_ws(s[0]) {
        trim_start(s.drop_first())
    } else {
        s
    }
}

/// `s` with its trailing whitespace removed.
pub open spec fn trim_end(s: Seq<char>) -> Seq<char>
    decreases s.len(),
{
    if s.len() > 0 && is_ws(s.last()) {
        trim_end(s.drop_last())
    } else {
        s
    }
}

/// `s` with whitespace removed at both ends.
pub open spec fn trim(s: Seq<char>) -> Seq<char> {
    trim_end(trim_start(s))
}

pub open spec fn starts_with(s: Seq<char>, p: Seq<char>) -> bool {
    p.len() <= s.len() && s.take(p.len() as int) == p
}

pub open spec fn ends_with(s: Seq<char>, p: Seq<char>) -> bool {
    p.len() <= s.len() && s.skip(s.len() - p.len()) == p
}

pub open spec fn ascii_lower_char(c: char) -> char {
    if 'A' <= c && c <= 'Z' {
        ((c as u32) + 32) as char
    } else {
        c
    }
}

/// ASCII lower-casing; other characters are unchanged.
pub open spec fn ascii_lower(s: Seq<char>) -> Seq<char> {
    s.map_values(|c: char| ascii_lower_char(c))
}

/// Number of bytes of `c` in UTF-8.
pub open spec fn char_width(c: char) -> nat {
    if (c as u32) < 0x80 {
        1
    } else if (c as u32) < 0x800 {
        2
    } else if (c as u32) < 0x10000 {
        3
    } else {
        4
    }
}

/// Number of bytes of `s` in UTF-8.
pub open spec fn utf8_len(s: Seq<char>) -> nat
    decreases s.len(),
{
    if s.len() == 0 {
        0
    } else {
        utf8_len(s.drop_last()) + char_width(s.last())
    }
}

/// The pieces of `s[start..]` between occurrences of `sep`, scanning from `k`.
pub open spec fn split_from(s: Seq<char>, sep: char, start: int, k: int) -> Seq<Seq<char>>
    decreases s.len() - k,
{
    if k < 0 || k >= s.len() {
        seq![s.subrange(start, s.len() as int)]
    } else if s[k] == sep {
        seq![s.subrange(start, k)] + split_from(s, sep, k + 1, k + 1)
    } else {
        split_from(s, sep, start, k + 1)
    }
}

/// The pieces of `s` between occurrences of `sep`; there is always at least one.
pub open spec fn split_on(s: Seq<char>, sep: char) -> Seq<Seq<char>> {
    split_from(s, sep, 0, 0)
}

/// `s` with every `\r\n` replaced by `\n`, scanning left to right.
pub open spec fn norm_crlf(s: Seq<char>) -> Seq<char>
    decreases s.len(),
{
    if s.len() == 0 {
        seq![]
    } else if s.len() >= 2 && s[0] == '\r' && s[1] == '\n' {
        seq!['\n'] + norm_crlf(s.skip(2))
    } else {
        seq![s[0]] + norm_crlf(s.skip(1))
    }
}

/// `s` with every `\n` written as `\r\n`.
pub open spec fn lf_to_crlf(s: Seq<char>) -> Seq<char>
    decreases s.len(),
{
    if s.len() == 0 {
        seq![]
    } else if s[0] == '\n' {
        seq!['\r', '\n'] + lf_to_crlf(s.skip(1))
    } else {
        seq![s[0]] + lf_to_crlf(s.skip(1))
    }
}

proof fn lemma_no_cr_tail(s: Seq<char>)
    requires
        s.len() > 0,
        !s.contains('\r'),
    ensures
        !s.skip(1).contains('\r'),
        s[0] != '\r',
{
    if s.skip(1).contains('\r') {
        let i = choose|i: int| 0 <= i < s.skip(1).len() && s.skip(1)[i] == '\r';
        assert(s[i + 1] == '\r');
    }
}

/// Text without `\r` is left as it is by newline normalisation.
pub proof fn lemma_norm_crlf_plain(s: Seq<char>)
    requires
        !s.contains('\r'),
    ensures
        norm_crlf(s) == s,
    decreases s.len(),
{
    if s.len() > 0 {
        lemma_no_cr_tail(s);
        lemma_norm_crlf_plain(s.skip(1));
        assert(s =~= seq![s[0]] + s.skip(1));
    }
}

/// Newline normalisation undoes writing `\n` as `\r\n`.
pub proof fn lemma_norm_crlf_undoes(s: Seq<char>)
    requires
        !s.contains('\r'),
    ensures
        norm_crlf(lf_to_crlf(s)) == s,
    decreases s.len(),
{
    if s.len() > 0 {
        lemma_no_cr_tail(s);
        let rest = s.skip(1);
        lemma_norm_crlf_undoes(rest);
        let t = lf_to_crlf(s);
        if s[0] == '\n' {
            assert(t.skip(2) =~= lf_to_crlf(rest));
        } else {
            assert(t.skip(1) =~= lf_to_crlf(rest));
        }
        assert(s =~= seq![s[0]] + rest);
    }
}

proof fn lemma_split_shift(c: char, r: Seq<char>, sep: char, start: int, k: int)
    requires
        0 <= start <= k <= r.len(),
    ensures
        split_from(seq![c] + r, sep, start + 1, k + 1) == split_from(r, sep, start, k),
    decreases r.len() - k,
{
    let x = seq![c] + r;
    if k >= r.len() {
        assert(x.subrange(start + 1, x.len() as int) =~= r.subrange(start, r.len() as int));
    } else {
        assert(x[k + 1] == r[k]);
        if r[k] == sep {
            assert(x.subrange(start + 1, k + 1) =~= r.subrange(start, k));
            lemma_split_shift(c, r, sep, k + 1, k + 1);
        } else {
            lemma_split_shift(c, r, sep, start, k + 1);
        }
    }
}

proof fn lemma_split_prepend(c: char, r: Seq<char>, sep: char, k: int)
    requires
        0 <= k <= r.len(),
        c != sep,
    ensures
        split_from(seq![c] + r, sep, 0, k + 1) == split_from(r, sep, 0, k).update(
            0,
            seq![c] + split_from(r, sep, 0, k)[0],
        ),
        split_from(r, sep, 0, k).len() > 0,
    decreases r.len() - k,
{
    let x = seq![c] + r;
    if k >= r.len() {
        assert(x.subrange(0, x.len() as int) =~= seq![c] + r.subrange(0, r.len() as int));
        assert(seq![x.subrange(0, x.len() as int)] =~= seq![r.subrange(0, r.len() as int)].update(
            0,
            seq![c] + r.subrange(0, r.len() as int),
        ));
    } else {
        assert(x[k + 1] == r[k]);
        if r[k] == sep {
            lemma_split_shift(c, r, sep, k + 1, k + 1);
            assert(x.subrange(0, k + 1) =~= seq![c] + r.subrange(0, k));
            let tail = split_from(r, sep, k + 1, k + 1);
            assert(seq![x.subrange(0, k + 1)] + tail =~= (seq![r.subrange(0, k)] + tail).update(
                0,
                seq![c] + r.subrange(0, k),
            ));
        } else {
            lemma_split_prepend(c, r, sep, k + 1);
        }
    }
}

/// The pieces of `[c] + r`: when `c` is the separator, an empty piece and
/// then the pieces of `r`; otherwise those of `r` with `c` before the first.
proof fn lemma_split_cons(c: char, r: Seq<char>, sep: char)
    ensures
        split_on(r, sep).len() > 0,
        c == sep ==> split_on(seq![c] + r, sep) == seq![Seq::<char>::empty()] + split_on(r, sep),
        c != sep ==> split_on(seq![c] + r, sep) == split_on(r, sep).update(
            0,
            seq![c] + split_on(r, sep)[0],
        ),
{
    let x = seq![c] + r;
    if c == sep {
        lemma_split_shift(c, r, sep, 0, 0);
        assert(x.subrange(0, 0) =~= Seq::<char>::empty());
    } else {
        lemma_split_prepend(c, r, sep, 0);
    }
    if r.len() == 0 {
    } else if r[0] == sep {
    }
    assert(split_on(r, sep).len() > 0) by {
        lemma_split_nonempty(r, sep, 0, 0);
    }
}

proof fn lemma_split_nonempty(s: Seq<char>, sep: char, start: int, k: int)
    ensures
        split_from(s, sep, start, k).len() > 0,
    decreases s.len() - k,
{
    if !(k < 0 || k >= s.len()) {
        if s[k] != sep {
            lemma_split_nonempty(s, sep, start, k + 1);
        }
    }
}

/// The lines of a text written with `\r\n` line endings are those of the
/// text with `\n` endings, each but the last followed by `\r`.
pub proof fn lemma_split_crlf(s: Seq<char>)
    requires
        !s.contains('\r'),
    ensures
        split_on(lf_to_crlf(s), '\n').len() == split_on(s, '\n').len(),
        forall|i: int|
            0 <= i < split_on(s, '\n').len() - 1 ==> #[trigger] split_on(lf_to_crlf(s), '\n')[i]
                == split_on(s, '\n')[i].push('\r'),
        split_on(lf_to_crlf(s), '\n').last() == split_on(s, '\n').last(),
    decreases s.len(),
{
    if s.len() == 0 {
        assert(lf_to_crlf(s) =~= Seq::<char>::empty());
    } else {
        lemma_no_cr_tail(s);
        let c = s[0];
        let r = s.skip(1);
        assert(s =~= seq![c] + r);
        lemma_split_crlf(r);
        let lr = split_on(r, '\n');
        let mr = split_on(lf_to_crlf(r), '\n');
        lemma_split_cons(c, r, '\n');
        if c == '\n' {
            let t = seq!['\n'] + lf_to_crlf(r);
            assert(lf_to_crlf(s) =~= seq!['\r'] + t);
            lemma_split_cons('\n', lf_to_crlf(r), '\n');
            lemma_split_cons('\r', t, '\n');
            let m = split_on(lf_to_crlf(s), '\n');
            let l = split_on(s, '\n');
            assert(split_on(t, '\n') == seq![Seq::<char>::empty()] + mr);
            assert(m == (seq![Seq::<char>::empty()] + mr).update(0, seq!['\r'] + Seq::<char>::empty()));
            assert(l == seq![Seq::<char>::empty()] + lr);
            assert forall|i: int| 0 <= i < l.len() - 1 implies #[trigger] m[i] == l[i].push('\r') by {
                if i == 0 {
                    assert(m[0] =~= seq!['\r']);
                    assert(l[0].push('\r') =~= seq!['\r']);
                } else {
                    assert(m[i] == mr[i - 1]);
                    assert(l[i] == lr[i - 1]);
                }
            }
        } else {
            assert(lf_to_crlf(s) =~= seq![c] + lf_to_crlf(r));
            lemma_split_cons(c, lf_to_crlf(r), '\n');
            let m = split_on(lf_to_crlf(s), '\n');
            let l = split_on(s, '\n');
            assert(m == mr.update(0, seq![c] + mr[0]));
            assert(l == lr.update(0, seq![c] + lr[0]));
            assert forall|i: int| 0 <= i < l.len() - 1 implies #[trigger] m[i] == l[i].push('\r') by {
                if i == 0 {
                    assert(mr[0] == lr[0].push('\r'));
                    assert(seq![c] + lr[0].push('\r') =~= (seq![c] + lr[0]).push('\r'));
                } else {
                    assert(m[i] == mr[i]);
                    assert(l[i] == lr[i]);
                }
            }
            if lr.len() == 1 {
                assert(m.last() == seq![c] + mr[0]);
            }
        }
    }
}

proof fn lemma_trim_start_push(l: Seq<char>, c: char)
    requires
        is_ws(c),
    ensures
        trim_start(l.push(c)) == if trim_start(l).len() == 0 {
            Seq::<char>::empty()
        } else {
            trim_start(l).push(c)
        },
    decreases l.len(),
{
    if l.len() == 0 {
        assert(l.push(c) =~= seq![c]);
        assert(seq![c].drop_first() =~= Seq::<char>::empty());
        assert(trim_start(Seq::<char>::empty()) =~= Seq::<char>::empty());
        assert(trim_start(seq![c]) == trim_start(seq![c].drop_first()));
        assert(trim_start(l) =~= Seq::<char>::empty());
    } else {
        assert(l.push(c)[0] == l[0]);
        if is_ws(l[0]) {
            assert(l.push(c).drop_first() =~= l.drop_first().push(c));
            lemma_trim_start_push(l.drop_first(), c);
            assert(trim_start(l.push(c)) == trim_start(l.push(c).drop_first()));
            assert(trim_start(l) == trim_start(l.drop_first()));
        } else {
            assert(trim_start(l.push(c)) == l.push(c));
            assert(trim_start(l) == l);
        }
    }
}

/// Trimming does not see one more trailing whitespace character.
pub proof fn lemma_trim_push_ws(l: Seq<char>, c: char)
    requires
        is_ws(c),
    ensures
        trim(l.push(c)) == trim(l),
{
    lemma_trim_start_push(l, c);
    let t = trim_start(l);
    if t.len() > 0 {
        assert(t.push(c).drop_last() =~= t);
    }
}

pub open spec fn views(v: Seq<Vec<char>>) -> Seq<Seq<char>> {
    v.map_values(|x: Vec<char>| x@)
}

/// UTF-8 length is additive.
pub proof fn lemma_utf8_len_append(a: Seq<char>, b: Seq<char>)
    ensures
        utf8_len(a + b) == utf8_len(a) + utf8_len(b),
    decreases b.len(),
{
    if b.len() == 0 {
        assert(a + b =~= a);
    } else {
        lemma_utf8_len_append(a, b.drop_last());
        assert((a + b).drop_last() =~= a + b.drop_last());
    }
}

/// The UTF-8 length of one character is its width.
pub proof fn lemma_utf8_len_single(c: char)
    ensures
        utf8_len(seq![c]) == char_width(c),
{
    assert(seq![c].drop_last() =~= Seq::<char>::empty());
    assert(utf8_len(Seq::<char>::empty()) == 0);
    assert(seq![c].last() == c);
}

/// `utf8_len` is the length of the UTF-8 encoding.
pub proof fn lemma_utf8_len_encoding(s: Seq<char>)
    ensures
        vstd::utf8::encode_utf8(s).len() == utf8_len(s),
    decreases s.len(),
{
    if s.len() > 0 {
        lemma_utf8_len_encoding(s.drop_first());
        lemma_utf8_len_append(seq![s[0]], s.drop_first());
        lemma_utf8_len_single(s[0]);
        assert(s =~= seq![s[0]] + s.drop_first());
        vstd::utf8::char_is_scalar(s[0]);
    }
}

/// A piece of a text is no longer in UTF-8 than the text.
pub proof fn lemma_utf8_len_subrange(s: Seq<char>, lo: int, hi: int)
    requires
        0 <= lo <= hi <= s.len(),
    ensures
        utf8_len(s.subrange(lo, hi)) <= utf8_len(s),
        hi - lo <= utf8_len(s.subrange(lo, hi)),
{
    lemma_utf8_len_append(s.take(lo), s.subrange(lo, hi));
    assert(s.take(hi) =~= s.take(lo) + s.subrange(lo, hi));
    lemma_utf8_len_append(s.take(hi), s.skip(hi));
    assert(s =~= s.take(hi) + s.skip(hi));
    lemma_utf8_len_at_least_len(s.subrange(lo, hi));
}

/// A text takes at least one byte per character.
pub proof fn lemma_utf8_len_at_least_len(s: Seq<char>)
    ensures
        s.len() <= utf8_len(s),
    decreases s.len(),
{
    if s.len() > 0 {
        lemma_utf8_len_at_least_len(s.drop_last());
    }
}

/// First position at or after `start` that holds `c`.
pub open spec fn find_char(s: Seq<char>, c: char, start: int) -> Option<int>
    decreases s.len() - start,
{
    if start < 0 || start >= s.len() {
        None
    } else if s[start] == c {
        Some(start)
    } else {
        find_char(s, c, start + 1)
    }
}

/// What `find_char` finds is an occurrence of `c` at or after `start`.
pub proof fn lemma_find_char(s: Seq<char>, c: char, start: int)
    ensures
        find_char(s, c, start) matches Some(k) ==> start <= k < s.len() && s[k] == c,
    decreases s.len() - start,
{
    if 0 <= start < s.len() && s[start] != c {
        lemma_find_char(s, c, start + 1);
    }
}

/// First position at or after `start` that holds `c`.
pub fn find_char_exec(s: &Vec<char>, c: char, start: usize) -> (r: Option<usize>)
    ensures
        match r {
            Some(k) => find_char(s@, c, start as int) == Some(k as int),
            None => find_char(s@, c, start as int) is None,
        },
{
    let mut k = start;
    while k < s.len()
        invariant
            start <= k,
            find_char(s@, c, start as int) == find_char(s@, c, k as int),
        decreases s.len() - k,
    {
        if s[k] == c {
            return Some(k);
        }
        k = k + 1;
    }
    None
}

/// The characters of a string slice, as a vector.
pub fn chars_of(s: &str) -> (v: Vec<char>)
    ensures
        v@ == s@,
{
    let mut v: Vec<char> = Vec::new();
    for c in it: s.chars()
        invariant
            v@ == it.seq().take(it.index() as int),
            it.seq() == s@,
    {
        v.push(c);
    }
    v
}

/// Appends one character to a `String`.
#[verifier::external_body]
fn string_push(s: &mut String, c: char)
    ensures
        final(s)@ == old(s)@.push(c),
{
    s.push(c);
}

/// `String::from_utf8`: the string whose UTF-8 bytes are `bytes`, or `None`
/// when `bytes` is not valid UTF-8. The standard library documents that it
/// fails exactly on invalid UTF-8 and otherwise keeps the bytes as they are.
#[verifier::external_body]
pub fn string_from_utf8(bytes: Vec<u8>) -> (r: Option<String>)
    ensures
        r is Some <==> vstd::utf8::valid_utf8(bytes@),
        r matches Some(s) ==> vstd::utf8::encode_utf8(s@) == bytes@,
{
    match String::from_utf8(bytes) {
        Ok(s) => Some(s),
        Err(_) => None,
    }
}

/// The string made of the characters of `v`.
pub fn string_of(v: &Vec<char>) -> (s: String)
    ensures
        s@ == v@,
{
    let mut s = String::new();
    let mut i: usize = 0;
    while i < v.len()
        invariant
            i <= v.len(),
            s@ == v@.take(i as int),
        decreases v.len() - i,
    {
        string_push(&mut s, v[i]);
        i = i + 1;
        assert(s@ =~= v@.take(i as int));
    }
    assert(v@.take(v.len() as int) =~= v@);
    s
}

/// Appends the characters of `s` to `out`.
pub fn push_str(out: &mut Vec<char>, s: &str)
    ensures
        final(out)@ == old(out)@ + s@,
{
    let ghost start = out@;
    for c in it: s.chars()
        invariant
            out@ == start + it.seq().take(it.index() as int),
            it.seq() == s@,
    {
        out.push(c);
        assert(out@ =~= start + it.seq().take(it.index() + 1));
    }
    assert(s@.take(s@.len() as int) =~= s@);
}

/// Appends `src[lo..hi]` to `out`.
pub fn push_range(out: &mut Vec<char>, src: &Vec<char>, lo: usize, hi: usize)
    requires
        lo <= hi <= src.len(),
    ensures
        final(out)@ == old(out)@ + src@.subrange(lo as int, hi as int),
{
    let ghost start = out@;
    let mut i = lo;
    while i < hi
        invariant
            lo <= i <= hi <= src.len(),
            out@ == start + src@.subrange(lo as int, i as int),
        decreases hi - i,
    {
        out.push(src[i]);
        i = i + 1;
        assert(out@ =~= start + src@.subrange(lo as int, i as int));
    }
}

/// Appends all of `src` to `out`.
pub fn push_all(out: &mut Vec<char>, src: &Vec<char>)
    ensures
        final(out)@ == old(out)@ + src@,
{
    push_range(out, src, 0, src.len());
    assert(src@.subrange(0, src@.len() as int) =~= src@);
}

/// The characters `src[lo..hi]`, as a new vector.
pub fn slice(src: &Vec<char>, lo: usize, hi: usize) -> (v: Vec<char>)
    requires
        lo <= hi <= src.len(),
    ensures
        v@ == src@.subrange(lo as int, hi as int),
{
    let mut v = Vec::new();
    push_range(&mut v, src, lo, hi);
    assert(v@ =~= src@.subrange(lo as int, hi as int));
    v
}

/// Whether `c` is Unicode whitespace.
pub fn is_whitespace(c: char) -> (b: bool)
    ensures
        b == is_ws(c),
{
    ('\t' <= c && c <= '\r') || c == ' ' || c == '\u{85}' || c == '\u{a0}' || c == '\u{1680}'
        || ('\u{2000}' <= c && c <= '\u{200a}') || c == '\u{2028}' || c == '\u{2029}' || c
        == '\u{202f}' || c == '\u{205f}' || c == '\u{3000}'
}

proof fn lemma_trim_start_skip(s: Seq<char>, k: int)
    requires
        0 <= k <= s.len(),
        forall|j: int| 0 <= j < k ==> is_ws(#[trigger] s[j]),
    ensures
        trim_start(s) == trim_start(s.skip(k)),
    decreases k,
{
    if k > 0 {
        assert(s.skip(1) =~= s.drop_first());
        lemma_trim_start_skip(s.drop_first(), k - 1);
        assert(s.drop_first().skip(k - 1) =~= s.skip(k));
    } else {
        assert(s.skip(0) =~= s);
    }
}

proof fn lemma_trim_end_take(s: Seq<char>, k: int)
    requires
        0 <= k <= s.len(),
        forall|j: int| k <= j < s.len() ==> is_ws(#[trigger] s[j]),
    ensures
        trim_end(s) == trim_end(s.take(k)),
    decreases s.len() - k,
{
    if k < s.len() {
        assert(s.take(s.len() - 1) =~= s.drop_last());
        lemma_trim_end_take(s.drop_last(), k);
        assert(s.drop_last().take(k) =~= s.take(k));
    } else {
        assert(s.take(k) =~= s);
    }
}

/// Index of the first character of `s[lo..hi]` that is not whitespace (`hi` if none).
pub fn skip_ws_forward(s: &Vec<char>, lo: usize, hi: usize) -> (k: usize)
    requires
        lo <= hi <= s.len(),
    ensures
        lo <= k <= hi,
        trim_start(s@.subrange(lo as int, hi as int)) == s@.subrange(k as int, hi as int),
{
    let mut k = lo;
    while k < hi && is_whitespace(s[k])
        invariant
            lo <= k <= hi <= s.len(),
            forall|j: int| lo <= j < k ==> is_ws(#[trigger] s@[j]),
        decreases hi - k,
    {
        k = k + 1;
    }
    let ghost sub = s@.subrange(lo as int, hi as int);
    proof {
        assert forall|j: int| 0 <= j < k - lo implies is_ws(#[trigger] sub[j]) by {
            assert(sub[j] == s@[lo + j]);
        }
        lemma_trim_start_skip(sub, k - lo);
        assert(sub.skip(k - lo) =~= s@.subrange(k as int, hi as int));
        let rest = s@.subrange(k as int, hi as int);
        if rest.len() > 0 {
            assert(rest[0] == s@[k as int]);
        }
    }
    k
}

/// One past the last character of `s[lo..hi]` that is not whitespace (`lo` if none).
pub fn skip_ws_backward(s: &Vec<char>, lo: usize, hi: usize) -> (k: usize)
    requires
        lo <= hi <= s.len(),
    ensures
        lo <= k <= hi,
        trim_end(s@.subrange(lo as int, hi as int)) == s@.subrange(lo as int, k as int),
{
    let mut k = hi;
    while k > lo && is_whitespace(s[k - 1])
        invariant
            lo <= k <= hi <= s.len(),
            forall|j: int| k <= j < hi ==> is_ws(#[trigger] s@[j]),
        decreases k - lo,
    {
        k = k - 1;
    }
    let ghost sub = s@.subrange(lo as int, hi as int);
    proof {
        assert forall|j: int| k - lo <= j < sub.len() implies is_ws(#[trigger] sub[j]) by {
            assert(sub[j] == s@[lo + j]);
        }
        lemma_trim_end_take(sub, k - lo);
        assert(sub.take(k - lo) =~= s@.subrange(lo as int, k as int));
        let rest = s@.subrange(lo as int, k as int);
        if rest.len() > 0 {
            assert(rest.last() == s@[k - 1]);
        }
    }
    k
}

/// Bounds of the trimmed part of `s[lo..hi]`.
pub fn trim_bounds(s: &Vec<char>, lo: usize, hi: usize) -> (r: (usize, usize))
    requires
        lo <= hi <= s.len(),
    ensures
        lo <= r.0 <= r.1 <= hi,
        trim(s@.subrange(lo as int, hi as int)) == s@.subrange(r.0 as int, r.1 as int),
{
    let a = skip_ws_forward(s, lo, hi);
    let b = skip_ws_backward(s, a, hi);
    (a, b)
}

/// Whether `s[at..]` begins with the characters of `p`.
pub fn starts_with_at(s: &Vec<char>, at: usize, p: &str) -> (b: bool)
    requires
        at <= s.len(),
    ensures
        b == starts_with(s@.skip(at as int), p@),
{
    let pv = chars_of(p);
    if pv.len() > s.len() - at {
        return false;
    }
    let mut j: usize = 0;
    while j < pv.len()
        invariant
            pv@ == p@,
            at + pv.len() <= s.len(),
            j <= pv.len(),
            forall|k: int| 0 <= k < j ==> s@[at + k] == #[trigger] pv@[k],
        decreases pv.len() - j,
    {
        if s[at + j] != pv[j] {
            assert(s@.skip(at as int).take(pv.len() as int)[j as int] != p@[j as int]);
            return false;
        }
        j = j + 1;
    }
    assert(s@.skip(at as int).take(pv.len() as int) =~= p@);
    true
}

/// Whether the whole of `s` equals the characters of `p`.
pub fn equals_str(s: &Vec<char>, p: &str) -> (b: bool)
    ensures
        b == (s@ == p@),
{
    let r = starts_with_at(s, 0, p);
    let pl = p.unicode_len();
    assert(s@.skip(0) =~= s@);
    if r && pl == s.len() {
        assert(s@.take(pl as int) =~= s@);
        true
    } else {
        proof {
            if s@ == p@ {
                assert(s@.take(p@.len() as int) =~= s@);
            }
        }
        false
    }
}

/// Whether `s[lo..hi]` contains `c`.
pub fn contains_char(s: &Vec<char>, lo: usize, hi: usize, c: char) -> (b: bool)
    requires
        lo <= hi <= s.len(),
    ensures
        b == s@.subrange(lo as int, hi as int).contains(c),
{
    let mut k = lo;
    while k < hi
        invariant
            lo <= k <= hi <= s.len(),
            forall|j: int| lo <= j < k ==> s@[j] != c,
        decreases hi - k,
    {
        if s[k] == c {
            assert(s@.subrange(lo as int, hi as int)[k - lo] == c);
            return true;
        }
        k = k + 1;
    }
    assert forall|j: int| 0 <= j < hi - lo implies s@.subrange(lo as int, hi as int)[j] != c by {
        assert(s@.subrange(lo as int, hi as int)[j] == s@[lo + j]);
    }
    false
}

/// ASCII lower-casing of one character.
pub fn lower_char(c: char) -> (r: char)
    ensures
        r == ascii_lower_char(c),
{
    if 'A' <= c && c <= 'Z' {
        let u = ((c as u32) + 32) as u8;
        u as char
    } else {
        c
    }
}

/// The characters of `s` with every `\r\n` replaced by `\n`.
pub fn normalize_newlines(s: &Vec<char>) -> (r: Vec<char>)
    ensures
        r@ == norm_crlf(s@),
        utf8_len(r@) <= utf8_len(s@),
{
    let mut r: Vec<char> = Vec::new();
    let mut i: usize = 0;
    proof {
        assert(s@.skip(0) =~= s@);
    }
    while i < s.len()
        invariant
            i <= s.len(),
            r@ + norm_crlf(s@.skip(i as int)) == norm_crlf(s@),
            utf8_len(r@) + utf8_len(s@.skip(i as int)) <= utf8_len(s@),
        decreases s.len() - i,
    {
        let ghost rest = s@.skip(i as int);
        let ghost old_r = r@;
        proof {
            assert(rest =~= seq![rest[0]] + rest.skip(1));
            lemma_utf8_len_append(seq![rest[0]], rest.skip(1));
            lemma_utf8_len_single(rest[0]);
        }
        if s.len() - i >= 2 && s[i] == '\r' && s[i + 1] == '\n' {
            r.push('\n');
            proof {
                assert(rest.skip(2) =~= s@.skip(i + 2));
                assert(rest.skip(1) =~= seq![rest[1]] + rest.skip(2));
                lemma_utf8_len_append(seq![rest[1]], rest.skip(2));
                lemma_utf8_len_single(rest[1]);
                lemma_utf8_len_single('\n');
                lemma_utf8_len_append(old_r, seq!['\n']);
                assert(old_r + seq!['\n'] =~= r@);
                assert(r@ + norm_crlf(s@.skip(i + 2)) =~= old_r + norm_crlf(rest));
                assert(utf8_len(r@) == utf8_len(old_r) + char_width('\n'));
                assert(utf8_len(rest) == char_width(rest[0]) + char_width(rest[1]) + utf8_len(
                    s@.skip(i + 2),
                ));
            }
            i = i + 2;
        } else {
            r.push(s[i]);
            proof {
                assert(rest.skip(1) =~= s@.skip(i + 1));
                lemma_utf8_len_append(old_r, seq![rest[0]]);
                assert(old_r + seq![rest[0]] =~= r@);
                assert(r@ + norm_crlf(s@.skip(i + 1)) =~= old_r + norm_crlf(rest));
            }
            i = i + 1;
        }
    }
    proof {
        assert(s@.skip(i as int) =~= Seq::<char>::empty());
        assert(r@ + Seq::<char>::empty() =~= r@);
    }
    r
}

/// The pieces of `s` between occurrences of `sep`.
pub fn split_at_char(s: &Vec<char>, sep: char) -> (pieces: Vec<Vec<char>>)
    ensures
        views(pieces@) == split_on(s@, sep),
        forall|k: int| 0 <= k < pieces.len() ==> utf8_len(#[trigger] pieces@[k]@) <= utf8_len(s@),
{
    let mut pieces: Vec<Vec<char>> = Vec::new();
    let mut start: usize = 0;
    let mut k: usize = 0;
    while k < s.len()
        invariant
            start <= k <= s.len(),
            views(pieces@) + split_from(s@, sep, start as int, k as int) == split_on(s@, sep),
            forall|j: int| 0 <= j < pieces.len() ==> utf8_len(#[trigger] pieces@[j]@) <= utf8_len(s@),
        decreases s.len() - k,
    {
        if s[k] == sep {
            let piece = slice(s, start, k);
            let ghost before = views(pieces@);
            proof {
                lemma_utf8_len_subrange(s@, start as int, k as int);
            }
            pieces.push(piece);
            assert(views(pieces@) =~= before + seq![s@.subrange(start as int, k as int)]);
            start = k + 1;
        }
        k = k + 1;
    }
    let piece = slice(s, start, s.len());
    let ghost before = views(pieces@);
    proof {
        lemma_utf8_len_subrange(s@, start as int, s@.len() as int);
    }
    pieces.push(piece);
    assert(views(pieces@) =~= before + seq![s@.subrange(start as int, s@.len() as int)]);
    pieces
}

/// The lines of `s`: the pieces between `\n` characters.
pub fn split_lines(s: &Vec<char>) -> (lines: Vec<Vec<char>>)
    ensures
        views(lines@) == split_on(s@, '\n'),
        forall|k: int| 0 <= k < lines.len() ==> utf8_len(#[trigger] lines@[k]@) <= utf8_len(s@),
{
    split_at_char(s, '\n')
}

/// Whether two character vectors are equal.
pub fn chars_eq(a: &Vec<char>, b: &Vec<char>) -> (r: bool)
    ensures
        r == (a@ == b@),
{
    if a.len() != b.len() {
        return false;
    }
    let mut k: usize = 0;
    while k < a.len()
        invariant
            a.len() == b.len(),
            k <= a.len(),
            forall|j: int| 0 <= j < k ==> a@[j] == b@[j],
        decreases a.len() - k,
    {
        if a[k] != b[k] {
            return false;
        }
        k = k + 1;
    }
    assert(a@ =~= b@);
    true
}

/// ASCII lower-casing of `s`.
pub fn to_lower(s: &Vec<char>) -> (r: Vec<char>)
    ensures
        r@ == ascii_lower(s@),
{
    let mut r: Vec<char> = Vec::new();
    let mut i: usize = 0;
    while i < s.len()
        invariant
            i <= s.len(),
            r@ == ascii_lower(s@.take(i as int)),
        decreases s.len() - i,
    {
        r.push(lower_char(s[i]));
        i = i + 1;
        assert(r@ =~= ascii_lower(s@.take(i as int)));
    }
    assert(s@.take(s.len() as int) =~= s@);
    r
}

} // verus!
