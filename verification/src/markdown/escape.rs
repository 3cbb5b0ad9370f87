//! Escaping of text for HTML content and attribute values.
use vstd::prelude::*;
use crate::text::push_str;

verus! {

/// What one character becomes in escaped text.
pub open spec fn escape_char(c: char) -> Seq<char> {
    if c == '<' {
        "&lt;"@
    } else if c == '>' {
        "&gt;"@
    } else if c == '&' {
        "&amp;"@
    } else if c == '"' {
        "&quot;"@
    } else {
        seq![c]
    }
}

/// `s` with `<`, `>`, `&` and `"` replaced by their character references.
pub open spec fn escape(s: Seq<char>) -> Seq<char>
    decreases s.len(),
{
    if s.len() == 0 {
        seq![]
    } else {
        escape(s.drop_last()) + escape_char(s.last())
    }
}

/// Escaping distributes over concatenation.
pub proof fn lemma_escape_append(a: Seq<char>, b: Seq<char>)
    ensures
        escape(a + b) == escape(a) + escape(b),
    decreases b.len(),
{
    if b.len() == 0 {
        assert(a + b =~= a);
        assert(escape(a) + escape(b) =~= escape(a));
    } else {
        lemma_escape_append(a, b.drop_last());
        assert((a + b).drop_last() =~= a + b.drop_last());
        assert(escape(a + b) =~= escape(a) + escape(b));
    }
}

/// Escaped text holds no `<`, `>` or `"`: it can neither open nor close a
/// tag, nor end a quoted attribute value.
pub proof fn lemma_escape_no_markup(s: Seq<char>)
    ensures
        !escape(s).contains('<'),
        !escape(s).contains('>'),
        !escape(s).contains('"'),
    decreases s.len(),
{
    reveal_strlit("&lt;");
    reveal_strlit("&gt;");
    reveal_strlit("&amp;");
    reveal_strlit("&quot;");
    if s.len() > 0 {
        lemma_escape_no_markup(s.drop_last());
        let a = escape(s.drop_last());
        let b = escape_char(s.last());
        assert forall|c: char| c == '<' || c == '>' || c == '"' implies !(a + b).contains(c) by {
            if (a + b).contains(c) {
                let k = choose|k: int| 0 <= k < (a + b).len() && (a + b)[k] == c;
                if k < a.len() {
                    assert(a[k] == c);
                } else {
                    assert(b[k - a.len()] == c);
                }
            }
        }
    }
}

/// Appends the escaped form of `s[lo..hi]` to `out`.
pub fn push_escaped(out: &mut Vec<char>, s: &Vec<char>, lo: usize, hi: usize)
    requires
        lo <= hi <= s.len(),
    ensures
        final(out)@ == old(out)@ + escape(s@.subrange(lo as int, hi as int)),
{
    let ghost start = out@;
    let mut i = lo;
    while i < hi
        invariant
            lo <= i <= hi <= s.len(),
            out@ == start + escape(s@.subrange(lo as int, i as int)),
        decreases hi - i,
    {
        let c = s[i];
        if c == '<' {
            push_str(out, "&lt;");
        } else if c == '>' {
            push_str(out, "&gt;");
        } else if c == '&' {
            push_str(out, "&amp;");
        } else if c == '"' {
            push_str(out, "&quot;");
        } else {
            out.push(c);
        }
        proof {
            let sub = s@.subrange(lo as int, i + 1);
            assert(sub.drop_last() =~= s@.subrange(lo as int, i as int));
            assert(sub.last() == c);
        }
        i = i + 1;
        assert(out@ =~= start + escape(s@.subrange(lo as int, i as int)));
    }
}

/// Appends the escaped form of all of `s` to `out`.
pub fn push_escaped_all(out: &mut Vec<char>, s: &Vec<char>)
    ensures
        final(out)@ == old(out)@ + escape(s@),
{
    push_escaped(out, s, 0, s.len());
    assert(s@.subrange(0, s@.len() as int) =~= s@);
}

/// A character that escaping neither replaces nor writes into a character
/// reference.
pub open spec fn plain_char(c: char) -> bool {
    c != '<' && c != '>' && c != '&' && c != '"' && c != ';' && c != 'l' && c != 't' && c != 'g' && c != 'a'
        && c != 'm' && c != 'p' && c != 'q' && c != 'u' && c != 'o'
}

proof fn lemma_escape_char_plain(c: char, k: int)
    requires
        0 <= k < escape_char(c).len(),
        plain_char(escape_char(c)[k]),
    ensures
        escape_char(c) == seq![c],
{
    reveal_strlit("&lt;");
    reveal_strlit("&gt;");
    reveal_strlit("&amp;");
    reveal_strlit("&quot;");
}

/// Escaped text that ends with plain characters comes from text that ends
/// with them.
proof fn lemma_escape_suffix(d: Seq<char>, q: Seq<char>)
    requires
        forall|k: int| 0 <= k < q.len() ==> plain_char(#[trigger] q[k]),
        q.len() <= escape(d).len(),
        escape(d).skip(escape(d).len() - q.len()) == q,
    ensures
        q.len() <= d.len(),
        d.skip(d.len() - q.len()) == q,
    decreases q.len(),
{
    if q.len() == 0 {
        assert(d.skip(d.len() as int) =~= q);
    } else {
        let e = escape(d);
        assert(d.len() > 0);
        let d1 = d.drop_last();
        let c = escape_char(d.last());
        assert(e == escape(d1) + c);
        reveal_strlit("&lt;");
        reveal_strlit("&gt;");
        reveal_strlit("&amp;");
        reveal_strlit("&quot;");
        assert(c.len() > 0);
        assert(e.skip(e.len() - q.len())[q.len() - 1] == e[e.len() - 1]);
        assert(e[e.len() - 1] == c[c.len() - 1]);
        lemma_escape_char_plain(d.last(), c.len() - 1);
        let q1 = q.drop_last();
        assert(forall|k: int| 0 <= k < q1.len() ==> q1[k] == q[k]);
        assert(escape(d1).skip(escape(d1).len() - q1.len()) =~= q1) by {
            assert forall|k: int| 0 <= k < q1.len() implies escape(d1).skip(escape(d1).len() - q1.len())[k] == q1[k] by {
                assert(e.skip(e.len() - q.len())[k] == e[e.len() - q.len() + k]);
            }
        }
        lemma_escape_suffix(d1, q1);
        assert(d.skip(d.len() - q.len()) =~= q) by {
            assert forall|k: int| 0 <= k < q.len() implies d.skip(d.len() - q.len())[k] == q[k] by {
                if k < q.len() - 1 {
                    assert(d1.skip(d1.len() - q1.len())[k] == d1[d1.len() - q1.len() + k]);
                }
            }
        }
    }
}

/// Escaping creates no run of plain characters: one found in escaped text
/// is in the text.
pub proof fn lemma_escape_occurs(s: Seq<char>, p: Seq<char>, i: int)
    requires
        p.len() > 0,
        forall|k: int| 0 <= k < p.len() ==> plain_char(#[trigger] p[k]),
        0 <= i,
        i + p.len() <= escape(s).len(),
        escape(s).subrange(i, i + p.len()) == p,
    ensures
        exists|j: int| 0 <= j && j + p.len() <= s.len() && #[trigger] s.subrange(j, j + p.len()) == p,
    decreases s.len(),
{
    let e = escape(s);
    assert(s.len() > 0);
    let d = s.drop_last();
    let ed = escape(d);
    let c = escape_char(s.last());
    assert(e == ed + c);
    if i + p.len() <= ed.len() {
        assert(ed.subrange(i, i + p.len()) =~= p) by {
            assert forall|k: int| 0 <= k < p.len() implies ed.subrange(i, i + p.len())[k] == p[k] by {
                assert(e.subrange(i, i + p.len())[k] == e[i + k]);
            }
        }
        lemma_escape_occurs(d, p, i);
        let j = choose|j: int| 0 <= j && j + p.len() <= d.len() && #[trigger] d.subrange(j, j + p.len()) == p;
        assert(s.subrange(j, j + p.len()) =~= d.subrange(j, j + p.len()));
    } else {
        let k = i + p.len() - 1 - ed.len();
        assert(e.subrange(i, i + p.len())[p.len() - 1] == e[i + p.len() - 1]);
        assert(e[i + p.len() - 1] == c[k]);
        lemma_escape_char_plain(s.last(), k);
        assert(i + p.len() == e.len());
        assert(e.skip(e.len() - p.len()) =~= p) by {
            assert forall|m: int| 0 <= m < p.len() implies e.skip(e.len() - p.len())[m] == p[m] by {
                assert(e.subrange(i, i + p.len())[m] == e[i + m]);
            }
        }
        lemma_escape_suffix(s, p);
        let j = s.len() - p.len();
        assert(s.subrange(j, j + p.len()) =~= s.skip(j));
    }
}

} // verus!
