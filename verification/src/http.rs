//! HTTP/1.1 request lines and responses.
use vstd::prelude::*;
use vstd::utf8::encode_utf8;
use crate::text::{trim, find_char, find_char_exec, lemma_find_char, chars_of, string_of, push_str, slice, trim_bounds};

verus! {

/// A parsed request: its method, its path, and the query after `?`, if any.
pub struct HttpRequest {
    pub method: String,
    pub path: String,
    pub query: Option<String>,
}

/// The first two space-separated words of a trimmed request line: the
/// method and the request target.
pub open spec fn request_line_parts(line: Seq<char>) -> Option<(Seq<char>, Seq<char>)> {
    let t = trim(line);
    match find_char(t, ' ', 0) {
        None => None,
        Some(k) => {
            let rest = t.skip(k + 1);
            match find_char(rest, ' ', 0) {
                Some(m) => Some((t.take(k), rest.take(m))),
                None => Some((t.take(k), rest)),
            }
        },
    }
}

/// A request target split at its first `?` into path and query.
pub open spec fn target_parts(target: Seq<char>) -> (Seq<char>, Option<Seq<char>>) {
    match find_char(target, '?', 0) {
        Some(q) => (target.take(q), Some(target.skip(q + 1))),
        None => (target, None),
    }
}

pub open spec fn opt_view(o: Option<String>) -> Option<Seq<char>> {
    match o {
        Some(s) => Some(s@),
        None => None,
    }
}

impl HttpRequest {
    /// Parses the request line (`GET /path?query HTTP/1.1`); `None` when it
    /// has no request target.
    pub fn parse(request_line: &str) -> (r: Option<HttpRequest>)
        ensures
            match request_line_parts(request_line@) {
                None => r is None,
                Some((m, target)) => r matches Some(req) && req.method@ == m && req.path@
                    == target_parts(target).0 && opt_view(req.query) == target_parts(target).1,
            },
    {
        let s = chars_of(request_line);
        let (a, b) = trim_bounds(&s, 0, s.len());
        let t = slice(&s, a, b);
        assert(s@.subrange(0, s@.len() as int) =~= s@);
        let k = match find_char_exec(&t, ' ', 0) {
            None => return None,
            Some(k) => k,
        };
        proof {
            lemma_find_char(t@, ' ', 0);
        }
        let method = slice(&t, 0, k);
        let rest = slice(&t, k + 1, t.len());
        let ghost rs = t@.skip(k + 1);
        assert(rest@ =~= rs);
        let target = match find_char_exec(&rest, ' ', 0) {
            Some(m) => {
                proof {
                    lemma_find_char(rest@, ' ', 0);
                }
                slice(&rest, 0, m)
            },
            None => rest,
        };
        assert(method@ =~= t@.take(k as int));
        let (path, query) = match find_char_exec(&target, '?', 0) {
            Some(q) => {
                proof {
                    lemma_find_char(target@, '?', 0);
                }
                let p = slice(&target, 0, q);
                let qs = slice(&target, q + 1, target.len());
                assert(p@ =~= target@.take(q as int));
                assert(qs@ =~= target@.skip(q + 1));
                (string_of(&p), Some(string_of(&qs)))
            },
            None => (string_of(&target), None),
        };
        proof {
            if let Some((m2, tg)) = request_line_parts(request_line@) {
                if let Some(mm) = find_char(rs, ' ', 0) {
                    assert(tg =~= rs.take(mm));
                }
            }
        }
        Some(HttpRequest { method: string_of(&method), path, query })
    }
}

/// A response: status line, headers, and body.
pub struct HttpResponse {
    pub status_code: u16,
    pub status_text: &'static str,
    pub content_type: &'static str,
    pub content_encoding: Option<&'static str>,
    /// The target of a redirect.
    pub location: Option<String>,
    pub body: Vec<u8>,
}

/// A response as plain values: status code and text, content type, content
/// encoding, redirect target, and body.
pub open spec fn response_view(r: HttpResponse) -> (u16, Seq<char>, Seq<char>, Option<Seq<char>>, Option<Seq<char>>, Seq<u8>) {
    (
        r.status_code,
        r.status_text@,
        r.content_type@,
        match r.content_encoding {
            Some(e) => Some(e@),
            None => None,
        },
        opt_view(r.location),
        r.body@,
    )
}

pub open spec fn digit_char(d: nat) -> char {
    ((d + 48) as u8) as char
}

/// The decimal digits of `n`.
pub open spec fn dec(n: nat) -> Seq<char>
    decreases n,
{
    if n < 10 {
        seq![digit_char(n)]
    } else {
        dec(n / 10).push(digit_char(n % 10))
    }
}

/// The number that a string of decimal digits stands for.
pub open spec fn digits_value(s: Seq<char>) -> int
    decreases s.len(),
{
    if s.len() == 0 {
        0
    } else {
        digits_value(s.drop_last()) * 10 + (s.last() as int - 48)
    }
}

/// `dec(n)` is the decimal numeral of `n`: digits only, no leading zero,
/// standing for `n`. So `Content-Length` gives the body's length in bytes.
pub proof fn lemma_dec_numeral(n: nat)
    ensures
        dec(n).len() > 0,
        forall|k: int| 0 <= k < dec(n).len() ==> '0' <= #[trigger] dec(n)[k] <= '9',
        dec(n).len() > 1 ==> dec(n)[0] != '0',
        digits_value(dec(n)) == n,
    decreases n,
{
    if n < 10 {
        lemma_digit_char(n);
        assert(dec(n).drop_last() =~= Seq::<char>::empty());
        assert(dec(n).last() == digit_char(n));
        assert(digits_value(Seq::<char>::empty()) == 0);
        assert(digits_value(dec(n)) == digits_value(dec(n).drop_last()) * 10 + (dec(n).last() as int - 48));
    } else {
        lemma_dec_numeral(n / 10);
        lemma_digit_char(n % 10);
        let d = dec(n / 10);
        assert(dec(n).drop_last() =~= d);
        assert(dec(n).last() == digit_char(n % 10));
        assert forall|k: int| 0 <= k < dec(n).len() implies '0' <= #[trigger] dec(n)[k] <= '9' by {
            if k < d.len() {
                assert(dec(n)[k] == d[k]);
            }
        }
        if n / 10 >= 10 {
            lemma_dec_longer(n / 10);
        } else {
            lemma_digit_char(n / 10);
            assert(d[0] == digit_char(n / 10));
        }
        assert(dec(n)[0] == d[0]);
        assert(digits_value(dec(n)) == digits_value(d) * 10 + (n % 10));
        assert((n / 10) * 10 + n % 10 == n) by (nonlinear_arith);
    }
}

proof fn lemma_digit_char(d: nat)
    requires
        d < 10,
    ensures
        digit_char(d) as int == d + 48,
{
}

proof fn lemma_dec_longer(n: nat)
    requires
        n >= 10,
    ensures
        dec(n).len() > 1,
    decreases n,
{
    lemma_dec_nonempty(n / 10);
}

proof fn lemma_dec_nonempty(n: nat)
    ensures
        dec(n).len() > 0,
    decreases n,
{
    if n >= 10 {
        lemma_dec_nonempty(n / 10);
    }
}

/// The status line and headers of a response, with the blank line that ends them.
pub open spec fn header_text(r: HttpResponse) -> Seq<char> {
    "HTTP/1.1 "@ + dec(r.status_code as nat) + " "@ + r.status_text@ + "\r\nContent-Type: "@
        + r.content_type@ + "\r\nContent-Length: "@ + dec(r.body@.len()) + "\r\n"@ + (
    match r.location {
        Some(l) => "Location: "@ + l@ + "\r\n"@,
        None => seq![],
    }) + (match r.content_encoding {
        Some(e) => "Content-Encoding: "@ + e@ + "\r\n"@,
        None => seq![],
    }) + "\r\n"@
}

/// Appends the decimal digits of `n`.
fn push_dec(out: &mut Vec<char>, n: usize)
    ensures
        final(out)@ == old(out)@ + dec(n as nat),
    decreases n,
{
    if n >= 10 {
        push_dec(out, n / 10);
    }
    let d = (n % 10) as u8;
    out.push((d + 48) as char);
    assert(out@ =~= old(out)@ + dec(n as nat));
}

impl HttpResponse {
    /// A `200 OK` response with the given content type and body.
    pub fn ok(content_type: &'static str, body: Vec<u8>) -> (r: Self)
        ensures
            r.status_code == 200,
            r.status_text@ == "OK"@,
            r.content_type == content_type,
            r.content_encoding is None,
            r.location is None,
            r.body@ == body@,
    {
        HttpResponse {
            status_code: 200,
            status_text: "OK",
            content_type,
            content_encoding: None,
            location: None,
            body,
        }
    }

    /// A `200 OK` response whose body is gzip-encoded.
    pub fn ok_gzip(content_type: &'static str, body: Vec<u8>) -> (r: Self)
        ensures
            r.status_code == 200,
            r.status_text@ == "OK"@,
            r.content_type == content_type,
            r.content_encoding matches Some(e) && e@ == "gzip"@,
            r.location is None,
            r.body@ == body@,
    {
        HttpResponse {
            status_code: 200,
            status_text: "OK",
            content_type,
            content_encoding: Some("gzip"),
            location: None,
            body,
        }
    }

    /// The `404 Not Found` response.
    pub fn not_found() -> (r: Self)
        ensures
            r.status_code == 404,
            r.status_text@ == "Not Found"@,
            r.content_type@ == "text/html"@,
            r.content_encoding is None,
            r.location is None,
            r.body@ == encode_utf8("<h1>404 Not Found</h1>"@),
    {
        HttpResponse {
            status_code: 404,
            status_text: "Not Found",
            content_type: "text/html",
            content_encoding: None,
            location: None,
            body: "<h1>404 Not Found</h1>".as_bytes_vec(),
        }
    }

    /// The `405 Method Not Allowed` response.
    pub fn method_not_allowed() -> (r: Self)
        ensures
            r.status_code == 405,
            r.status_text@ == "Method Not Allowed"@,
            r.content_type@ == "text/html"@,
            r.content_encoding is None,
            r.location is None,
            r.body@ == encode_utf8("<h1>405 Method Not Allowed</h1>"@),
    {
        HttpResponse {
            status_code: 405,
            status_text: "Method Not Allowed",
            content_type: "text/html",
            content_encoding: None,
            location: None,
            body: "<h1>405 Method Not Allowed</h1>".as_bytes_vec(),
        }
    }

    /// A `302 Found` redirect to `target`, with an empty body.
    pub fn redirect(target: &str) -> (r: Self)
        ensures
            r.status_code == 302,
            r.status_text@ == "Found"@,
            r.content_type@ == "text/html"@,
            r.content_encoding is None,
            r.location matches Some(l) && l@ == target@,
            r.body@ == Seq::<u8>::empty(),
    {
        HttpResponse {
            status_code: 302,
            status_text: "Found",
            content_type: "text/html",
            content_encoding: None,
            location: Some(string_of(&chars_of(target))),
            body: Vec::new(),
        }
    }

    /// The response as sent: the UTF-8 status line and headers, then the body.
    pub fn to_bytes(&self) -> (r: Vec<u8>)
        ensures
            r@ == encode_utf8(header_text(*self)) + self.body@,
    {
        let mut h: Vec<char> = Vec::new();
        push_str(&mut h, "HTTP/1.1 ");
        push_dec(&mut h, self.status_code as usize);
        push_str(&mut h, " ");
        push_str(&mut h, self.status_text);
        push_str(&mut h, "\r\nContent-Type: ");
        push_str(&mut h, self.content_type);
        push_str(&mut h, "\r\nContent-Length: ");
        push_dec(&mut h, self.body.len());
        push_str(&mut h, "\r\n");
        match &self.location {
            Some(l) => {
                push_str(&mut h, "Location: ");
                push_str(&mut h, l.as_str());
                push_str(&mut h, "\r\n");
            },
            None => {},
        }
        match self.content_encoding {
            Some(e) => {
                push_str(&mut h, "Content-Encoding: ");
                push_str(&mut h, e);
                push_str(&mut h, "\r\n");
            },
            None => {},
        }
        push_str(&mut h, "\r\n");
        assert(h@ =~= header_text(*self));
        let hs = string_of(&h);
        let mut bytes = hs.as_str().as_bytes_vec();
        let mut k: usize = 0;
        let ghost head = bytes@;
        while k < self.body.len()
            invariant
                k <= self.body.len(),
                bytes@ == head + self.body@.take(k as int),
            decreases self.body.len() - k,
        {
            bytes.push(self.body[k]);
            k = k + 1;
            assert(bytes@ =~= head + self.body@.take(k as int));
        }
        assert(self.body@.take(self.body.len() as int) =~= self.body@);
        bytes
    }
}

} // verus!
