//! Mapping request paths onto the served directory: percent-decoding, and
//! the check that a resolved path stays inside the root.
//!
//! File-system paths are Unix paths: `/` is the only separator and an
//! absolute path starts with `/`. Windows paths (`\` separators, drive and
//! verbatim prefixes) are not modelled, and the library does not decide
//! containment for them.
use vstd::prelude::*;
use vstd::utf8::{encode_utf8, encode_scalar, valid_utf8, decode_utf8};
use crate::text::{split_on, views, chars_of, string_of, string_from_utf8, split_at_char, chars_eq};

verus! {

/// The value of a hexadecimal digit.
pub open spec fn hex_value(b: u8) -> Option<u8> {
    if 48 <= b <= 57 {
        Some((b - 48) as u8)
    } else if 97 <= b <= 102 {
        Some((b - 97 + 10) as u8)
    } else if 65 <= b <= 70 {
        Some((b - 65 + 10) as u8)
    } else {
        None
    }
}

/// Percent-decoding of bytes: `%XY` with two hex digits becomes the byte
/// `0xXY`; a `%` not followed by two hex digits is dropped together with the
/// (at most two) bytes after it; every other byte stays.
pub open spec fn decode_bytes(b: Seq<u8>) -> Seq<u8>
    decreases b.len(),
{
    if b.len() == 0 {
        seq![]
    } else if b[0] == 37 {
        let hi = if b.len() > 1 {
            hex_value(b[1])
        } else {
            None
        };
        let lo = if b.len() > 2 {
            hex_value(b[2])
        } else {
            None
        };
        let n: int = if b.len() >= 3 {
            3
        } else {
            b.len() as int
        };
        let out = match (hi, lo) {
            (Some(h), Some(l)) => seq![(h * 16 + l) as u8],
            _ => seq![],
        };
        out + decode_bytes(b.skip(n))
    } else {
        seq![b[0]] + decode_bytes(b.skip(1))
    }
}

/// The percent-decoded text of `s`: its UTF-8 bytes decoded, then read as
/// UTF-8; `None` when the decoded bytes are not valid UTF-8.
pub open spec fn percent_decoded(s: Seq<char>) -> Option<Seq<char>> {
    let b = decode_bytes(encode_utf8(s));
    if valid_utf8(b) {
        Some(decode_utf8(b))
    } else {
        None
    }
}

proof fn lemma_scalar_bytes_not_percent(v: u32)
    requires
        v != 37,
    ensures
        forall|k: int| 0 <= k < encode_scalar(v).len() ==> #[trigger] encode_scalar(v)[k] != 37,
{
    assert(v <= 0x7F ==> ((v & 0x7F) as u8) != 37) by (bit_vector)
        requires
            v != 37,
    ;
    assert((0xC0 | ((v >> 6) & 0x1F) as u8) != 37u8) by (bit_vector);
    assert((0xE0 | ((v >> 12) & 0x0F) as u8) != 37u8) by (bit_vector);
    assert((0xF0 | ((v >> 18) & 0x7) as u8) != 37u8) by (bit_vector);
    assert((0x80 | (v & 0x3F) as u8) != 37u8) by (bit_vector);
    assert((0x80 | ((v >> 6) & 0x3F) as u8) != 37u8) by (bit_vector);
    assert((0x80 | ((v >> 12) & 0x3F) as u8) != 37u8) by (bit_vector);
}

proof fn lemma_encoding_has_no_percent(s: Seq<char>)
    requires
        !s.contains('%'),
    ensures
        forall|k: int| 0 <= k < encode_utf8(s).len() ==> #[trigger] encode_utf8(s)[k] != 37,
    decreases s.len(),
{
    if s.len() > 0 {
        let c = s[0];
        let u = c as u32;
        let rest = s.drop_first();
        assert(!rest.contains('%')) by {
            if rest.contains('%') {
                let i = choose|i: int| 0 <= i < rest.len() && rest[i] == '%';
                assert(s[i + 1] == '%');
            }
        }
        assert(c != '%') by {
            assert(s[0] == c);
        }
        vstd::utf8::char_u32_cast(c, u);
        if u == 37 {
            assert((37u32 as char) == '%');
        }
        lemma_scalar_bytes_not_percent(u);
        lemma_encoding_has_no_percent(rest);
        let e = encode_scalar(u);
        assert forall|k: int| 0 <= k < encode_utf8(s).len() implies #[trigger] encode_utf8(s)[k] != 37 by {
            if k < e.len() {
                assert(encode_utf8(s)[k] == e[k]);
            } else {
                assert(encode_utf8(s)[k] == encode_utf8(rest)[k - e.len()]);
            }
        }
    }
}

proof fn lemma_decode_bytes_plain(b: Seq<u8>)
    requires
        forall|k: int| 0 <= k < b.len() ==> #[trigger] b[k] != 37,
    ensures
        decode_bytes(b) == b,
    decreases b.len(),
{
    if b.len() > 0 {
        assert(b[0] != 37);
        let rest = b.skip(1);
        assert forall|k: int| 0 <= k < rest.len() implies #[trigger] rest[k] != 37 by {
            assert(rest[k] == b[k + 1]);
        }
        lemma_decode_bytes_plain(rest);
        assert(b =~= seq![b[0]] + rest);
    }
}

/// A request path without `%` decodes to itself.
pub proof fn lemma_path_without_percent_decodes_to_itself(s: Seq<char>)
    requires
        !s.contains('%'),
    ensures
        percent_decoded(s) == Some(s),
{
    lemma_encoding_has_no_percent(s);
    lemma_decode_bytes_plain(encode_utf8(s));
    vstd::utf8::encode_utf8_valid_utf8(s);
    vstd::utf8::encode_utf8_decode_utf8(s);
}

/// `s` without its leading `/` characters.
pub open spec fn strip_slashes(s: Seq<char>) -> Seq<char>
    decreases s.len(),
{
    if s.len() > 0 && s[0] == '/' {
        strip_slashes(s.drop_first())
    } else {
        s
    }
}

/// The path below the root that a request path names: percent-decoded,
/// without leading slashes; `None` when the decoded bytes are not UTF-8.
pub open spec fn relative_of(url_path: Seq<char>) -> Option<Seq<char>> {
    match percent_decoded(url_path) {
        Some(d) => Some(strip_slashes(d)),
        None => None,
    }
}

/// The non-empty pieces of `ps`.
pub open spec fn non_empty(ps: Seq<Seq<char>>) -> Seq<Seq<char>>
    decreases ps.len(),
{
    if ps.len() == 0 {
        seq![]
    } else if ps.last().len() == 0 {
        non_empty(ps.drop_last())
    } else {
        non_empty(ps.drop_last()).push(ps.last())
    }
}

/// The names in a `/`-separated (Unix) path.
pub open spec fn components(p: Seq<char>) -> Seq<Seq<char>> {
    non_empty(split_on(p, '/'))
}

pub open spec fn is_absolute(p: Seq<char>) -> bool {
    p.len() > 0 && p[0] == '/'
}

/// Whether the Unix path `p` lies at or under `base`, compared name by name
/// as `Path::starts_with` compares normalised Unix paths.
pub open spec fn path_starts_with(p: Seq<char>, base: Seq<char>) -> bool {
    &&& is_absolute(p) == is_absolute(base)
    &&& components(base).len() <= components(p).len()
    &&& components(p).take(components(base).len() as int) == components(base)
}

/// What the file system holds at a path.
#[derive(PartialEq, Eq, Structural, Clone, Copy)]
pub enum EntryKind {
    File,
    Directory,
    Other,
}

/// Result of resolving a URL path against the root directory.
pub enum ResolvedPath {
    File(String),
    Directory(String),
}

pub open spec fn resolved_view(r: ResolvedPath) -> (bool, Seq<char>) {
    match r {
        ResolvedPath::File(p) => (false, p@),
        ResolvedPath::Directory(p) => (true, p@),
    }
}

/// The value of a hexadecimal digit byte.
pub fn hex_val(b: u8) -> (r: Option<u8>)
    ensures
        r == hex_value(b),
{
    if 48 <= b && b <= 57 {
        Some(b - 48)
    } else if 97 <= b && b <= 102 {
        Some(b - 97 + 10)
    } else if 65 <= b && b <= 70 {
        Some(b - 65 + 10)
    } else {
        None
    }
}

/// Percent-decodes a request path; `None` when the decoded bytes are not
/// valid UTF-8.
pub fn percent_decode(input: &str) -> (r: Option<String>)
    ensures
        opt_string_view(r) == percent_decoded(input@),
{
    let bytes = input.as_bytes();
    let ghost b = bytes@;
    let mut out: Vec<u8> = Vec::new();
    let mut i: usize = 0;
    assert(b.skip(0) =~= b);
    while i < bytes.len()
        invariant
            b == bytes@,
            b == encode_utf8(input@),
            i <= bytes.len(),
            out@ + decode_bytes(b.skip(i as int)) == decode_bytes(b),
        decreases bytes.len() - i,
    {
        let ghost rest = b.skip(i as int);
        let ghost before = out@;
        let c = bytes[i];
        if c == 37 {
            let hi = if bytes.len() - i > 1 {
                hex_val(bytes[i + 1])
            } else {
                None
            };
            let lo = if bytes.len() - i > 2 {
                hex_val(bytes[i + 2])
            } else {
                None
            };
            let n: usize = if bytes.len() - i >= 3 {
                3
            } else {
                bytes.len() - i
            };
            match (hi, lo) {
                (Some(h), Some(l)) => {
                    let v: u8 = h * 16 + l;
                    out.push(v);
                },
                _ => {},
            }
            assert(rest.skip(n as int) =~= b.skip(i + n));
            assert(out@ + decode_bytes(b.skip(i + n)) =~= before + decode_bytes(rest));
            i = i + n;
        } else {
            out.push(c);
            assert(rest.skip(1) =~= b.skip(i + 1));
            assert(out@ + decode_bytes(b.skip(i + 1)) =~= before + decode_bytes(rest));
            i = i + 1;
        }
    }
    assert(b.skip(i as int) =~= Seq::<u8>::empty());
    assert(out@ + Seq::<u8>::empty() =~= out@);
    let r = string_from_utf8(out);
    let ghost rv = opt_string_view(r);
    proof {
        if rv is Some {
            vstd::utf8::encode_utf8_valid_utf8(rv->0);
            vstd::utf8::encode_utf8_decode_utf8(rv->0);
        }
    }
    r
}

pub open spec fn opt_string_view(o: Option<String>) -> Option<Seq<char>> {
    match o {
        Some(s) => Some(s@),
        None => None,
    }
}

/// The path below the root that a request path names: percent-decoded, with
/// its leading slashes removed; `None` when the decoded bytes are not UTF-8.
pub fn request_relative_path(url_path: &str) -> (r: Option<String>)
    ensures
        opt_string_view(r) == relative_of(url_path@),
{
    let decoded = match percent_decode(url_path) {
        Some(d) => d,
        None => return None,
    };
    let d = chars_of(decoded.as_str());
    let mut k: usize = 0;
    assert(d@.skip(0) =~= d@);
    while k < d.len() && d[k] == '/'
        invariant
            k <= d.len(),
            strip_slashes(d@) == strip_slashes(d@.skip(k as int)),
        decreases d.len() - k,
    {
        assert(d@.skip(k as int).drop_first() =~= d@.skip(k + 1));
        k = k + 1;
    }
    let rest = crate::text::slice(&d, k, d.len());
    assert(rest@ =~= d@.skip(k as int));
    Some(string_of(&rest))
}

fn components_exec(p: &Vec<char>) -> (r: Vec<Vec<char>>)
    ensures
        views(r@) == components(p@),
{
    let pieces = split_at_char(p, '/');
    let mut r: Vec<Vec<char>> = Vec::new();
    let mut k: usize = 0;
    while k < pieces.len()
        invariant
            k <= pieces.len(),
            views(r@) == non_empty(views(pieces@).take(k as int)),
        decreases pieces.len() - k,
    {
        let ghost before = views(r@);
        assert(views(pieces@).take(k + 1).drop_last() =~= views(pieces@).take(k as int));
        assert(views(pieces@)[k as int] == pieces@[k as int]@);
        if pieces[k].len() > 0 {
            r.push(crate::text::slice(&pieces[k], 0, pieces[k].len()));
            assert(pieces@[k as int]@.subrange(0, pieces@[k as int]@.len() as int) =~= pieces@[k as int]@);
            assert(views(r@) =~= before.push(pieces@[k as int]@));
        }
        k = k + 1;
    }
    assert(views(pieces@).take(pieces.len() as int) =~= views(pieces@));
    r
}

/// Whether the path `p` lies at or under `base`.
#[verifier::loop_isolation(false)]
pub fn starts_with_path(p: &str, base: &str) -> (r: bool)
    ensures
        r == path_starts_with(p@, base@),
{
    let pv = chars_of(p);
    let bv = chars_of(base);
    let pa = pv.len() > 0 && pv[0] == '/';
    let ba = bv.len() > 0 && bv[0] == '/';
    if pa != ba {
        return false;
    }
    let pc = components_exec(&pv);
    let bc = components_exec(&bv);
    if bc.len() > pc.len() {
        return false;
    }
    let mut k: usize = 0;
    while k < bc.len()
        invariant
            bc.len() <= pc.len(),
            k <= bc.len(),
            forall|j: int| 0 <= j < k ==> views(pc@)[j] == views(bc@)[j],
        decreases bc.len() - k,
    {
        assert(views(pc@)[k as int] == pc@[k as int]@);
        assert(views(bc@)[k as int] == bc@[k as int]@);
        if !chars_eq(&pc[k], &bc[k]) {
            assert(views(pc@).take(bc.len() as int)[k as int] != views(bc@)[k as int]);
            return false;
        }
        k = k + 1;
    }
    assert(views(pc@).take(bc.len() as int) =~= views(bc@));
    true
}

/// Decides what a request resolves to, given the canonical root, the
/// relative path the request names (see `request_relative_path`), and, when
/// that path is not empty, its canonical form with what the file system
/// holds there (`None` when it does not exist). A path outside the root is
/// refused.
pub fn resolve_path(root_canonical: &str, relative: &str, found: Option<(&str, EntryKind)>) -> (r: Option<
    ResolvedPath,
>)
    ensures
        relative@.len() == 0 ==> (r matches Some(rp) && resolved_view(rp) == (true, root_canonical@)),
        relative@.len() > 0 ==> match found {
            None => r is None,
            Some((c, kind)) => if !path_starts_with(c@, root_canonical@) {
                r is None
            } else {
                match kind {
                    EntryKind::File => (r matches Some(rp) && resolved_view(rp) == (false, c@)),
                    EntryKind::Directory => (r matches Some(rp) && resolved_view(rp) == (true, c@)),
                    EntryKind::Other => r is None,
                }
            },
        },
        r matches Some(rp) ==> path_starts_with(resolved_view(rp).1, root_canonical@),
{
    if relative.unicode_len() == 0 {
        proof {
            lemma_starts_with_self(root_canonical@);
        }
        return Some(ResolvedPath::Directory(string_of(&chars_of(root_canonical))));
    }
    match found {
        None => None,
        Some((c, kind)) => {
            if !starts_with_path(c, root_canonical) {
                return None;
            }
            match kind {
                EntryKind::File => Some(ResolvedPath::File(string_of(&chars_of(c)))),
                EntryKind::Directory => Some(ResolvedPath::Directory(string_of(&chars_of(c)))),
                EntryKind::Other => None,
            }
        },
    }
}

/// Every path lies at or under itself.
pub proof fn lemma_starts_with_self(p: Seq<char>)
    ensures
        path_starts_with(p, p),
{
    assert(components(p).take(components(p).len() as int) =~= components(p));
}

} // verus!
