//! HTTP request model and the wire parser.
//!
//! A request always owns its data: parsing copies the method, target,
//! headers and body out of the input buffer, so no lifetime ties a parsed
//! request to the bytes it came from.

use vstd::prelude::*;
use vstd::slice::{slice_subrange, slice_to_vec};
use vstd::utf8::valid_utf8;

use crate::bytes::{contains2, contains_seq};
use crate::component::{Header, Method};
use crate::encoding::{decode, decode_seq};
use crate::headers::Headers;
use crate::uri::{uri_of, Uri, UriView};

verus! {

/// Byte classes of the request grammar: a token byte of a method or
/// header name.
pub open spec fn is_tchar(b: u8) -> bool {
    ||| '0' as u8 <= b <= '9' as u8
    ||| 'A' as u8 <= b <= 'Z' as u8
    ||| 'a' as u8 <= b <= 'z' as u8
    ||| b == '!' as u8
    ||| b == '#' as u8
    ||| b == '$' as u8
    ||| b == '%' as u8
    ||| b == '&' as u8
    ||| b == '\'' as u8
    ||| b == '*' as u8
    ||| b == '+' as u8
    ||| b == '-' as u8
    ||| b == '.' as u8
    ||| b == '^' as u8
    ||| b == '_' as u8
    ||| b == '`' as u8
    ||| b == '|' as u8
    ||| b == '~' as u8
}

/// A byte legal inside a request target: anything above space, DEL
/// excepted; bytes outside ASCII are passed through.
pub open spec fn is_pathchar(b: u8) -> bool {
    b > 0x20 && b != 0x7f
}

/// A byte legal inside a header value: anything but CR and LF.
pub open spec fn is_valchar(b: u8) -> bool {
    b != 13 && b != 10
}

/// Optional whitespace around header values.
pub open spec fn is_ows(b: u8) -> bool {
    b == ' ' as u8 || b == 9
}

/// First position at or after `i` that is not a token byte, capped at the
/// end of the buffer.
pub open spec fn scan_token(s: Seq<u8>, i: int) -> int
    decreases s.len() - i,
    when 0 <= i
{
    if i >= s.len() {
        i
    } else if is_tchar(s[i]) {
        scan_token(s, i + 1)
    } else {
        i
    }
}

/// First position at or after `i` that is not a path byte, capped at the
/// end of the buffer.
pub open spec fn scan_path(s: Seq<u8>, i: int) -> int
    decreases s.len() - i,
    when 0 <= i
{
    if i >= s.len() {
        i
    } else if is_pathchar(s[i]) {
        scan_path(s, i + 1)
    } else {
        i
    }
}

/// First position at or after `i` that is not a value byte, capped at the
/// end of the buffer.
pub open spec fn scan_value(s: Seq<u8>, i: int) -> int
    decreases s.len() - i,
    when 0 <= i
{
    if i >= s.len() {
        i
    } else if is_valchar(s[i]) {
        scan_value(s, i + 1)
    } else {
        i
    }
}

/// First position at or after `i` that is not optional whitespace, capped
/// at the end of the buffer.
pub open spec fn scan_ows(s: Seq<u8>, i: int) -> int
    decreases s.len() - i,
    when 0 <= i
{
    if i >= s.len() {
        i
    } else if is_ows(s[i]) {
        scan_ows(s, i + 1)
    } else {
        i
    }
}

/// How a literal compares against the buffer at a position.
#[derive(Clone, Copy, PartialEq, Eq, Structural, Debug)]
pub enum LitMatch {
    /// The whole literal is present.
    Matched,
    /// The buffer ended while still agreeing with the literal.
    Short,
    /// A byte disagrees with the literal.
    Mismatch,
}

/// Compares `lit` against `s` starting at `i`.
pub open spec fn match_lit(s: Seq<u8>, i: int, lit: Seq<u8>) -> LitMatch
    decreases lit.len(),
{
    if lit.len() == 0 {
        LitMatch::Matched
    } else if i < 0 || i >= s.len() {
        LitMatch::Short
    } else if s[i] != lit[0] {
        LitMatch::Mismatch
    } else {
        match_lit(s, i + 1, lit.drop_first())
    }
}

/// The version-and-line-end literal every request line must carry.
pub open spec fn http_version() -> Seq<u8> {
    seq![
        'H' as u8,
        'T' as u8,
        'T' as u8,
        'P' as u8,
        '/' as u8,
        '1' as u8,
        '.' as u8,
        '1' as u8,
        13,
        10,
    ]
}

/// The literal whose presence in a raw path is rejected as traversal.
pub open spec fn dotdot() -> Seq<u8> {
    seq!['.' as u8, '.' as u8]
}

/// Trailing optional whitespace stripped from a header value.
pub open spec fn rtrim(v: Seq<u8>) -> Seq<u8>
    decreases v.len(),
{
    if v.len() > 0 && is_ows(v.last()) {
        rtrim(v.drop_last())
    } else {
        v
    }
}

/// Outcome of scanning the header section.
pub enum HeadView {
    /// The buffer ended inside the header section.
    Incomplete,
    /// A header line violates the grammar.
    Malformed,
    /// All header lines with the position of the first body byte.
    Done(Seq<(Seq<u8>, Seq<u8>)>, int),
}

/// Scans header lines `name: value CRLF` from position `i` up to the blank
/// line; lenient about what a value holds, strict about the line shape.
pub open spec fn hdrs(s: Seq<u8>, i: int) -> HeadView
    decreases s.len() - i,
    when 0 <= i
{
    if i >= s.len() {
        HeadView::Incomplete
    } else if s[i] == 13 {
        if i + 1 >= s.len() {
            HeadView::Incomplete
        } else if s[i + 1] == 10 {
            HeadView::Done(seq![], i + 2)
        } else {
            HeadView::Malformed
        }
    } else {
        let ne = scan_token(s, i);
        if ne >= s.len() {
            HeadView::Incomplete
        } else if ne <= i || s[ne] != ':' as u8 {
            HeadView::Malformed
        } else {
            let w = scan_ows(s, ne + 1);
            let ve = scan_value(s, w);
            if ve >= s.len() {
                HeadView::Incomplete
            } else if s[ve] != 13 {
                HeadView::Malformed
            } else if ve + 1 >= s.len() {
                HeadView::Incomplete
            } else if s[ve + 1] != 10 {
                HeadView::Malformed
            } else if w < ne + 1 || ve < w {
                HeadView::Malformed
            } else {
                match hdrs(s, ve + 2) {
                    HeadView::Done(rest, b) => HeadView::Done(
                        seq![(s.subrange(i, ne), rtrim(s.subrange(w, ve)))] + rest,
                        b,
                    ),
                    HeadView::Incomplete => HeadView::Incomplete,
                    HeadView::Malformed => HeadView::Malformed,
                }
            }
        }
    }
}

/// The recognized headers kept out of the raw header lines: names must map
/// into the closed catalog and values must be valid UTF-8; all other lines
/// are silently dropped.
pub open spec fn keep_headers(ps: Seq<(Seq<u8>, Seq<u8>)>) -> Seq<(Header, Seq<u8>)>
    decreases ps.len(),
{
    if ps.len() == 0 {
        seq![]
    } else {
        let rest = keep_headers(ps.drop_first());
        if Header::spec_of(ps[0].0) is Some && valid_utf8(ps[0].1) {
            seq![(Header::spec_of(ps[0].0)->Some_0, ps[0].1)] + rest
        } else {
            rest
        }
    }
}

/// Ghost outcome of parsing a raw buffer.
pub enum ParseView {
    /// A complete, validated request.
    Complete(RequestView),
    /// The buffer holds a truncated but so-far-valid request: read more.
    Incomplete,
    /// The request line or a header line violates the grammar.
    Parser,
    /// The method token is outside the closed catalog.
    Component,
    /// The decoded path is over 4096 bytes, or the raw path holds `..`.
    Security,
}

/// What parsing a raw buffer yields: the grammar is checked first, then
/// the method token, then the security bounds on the path.
pub open spec fn parse_spec(s: Seq<u8>) -> ParseView {
    let me = scan_token(s, 0);
    if me >= s.len() {
        ParseView::Incomplete
    } else if me <= 0 || s[me] != ' ' as u8 {
        ParseView::Parser
    } else {
        let ps = me + 1;
        let pe = scan_path(s, ps);
        if pe >= s.len() {
            ParseView::Incomplete
        } else if pe <= ps || s[pe] != ' ' as u8 {
            ParseView::Parser
        } else {
            match match_lit(s, pe + 1, http_version()) {
                LitMatch::Short => ParseView::Incomplete,
                LitMatch::Mismatch => ParseView::Parser,
                LitMatch::Matched => match hdrs(s, pe + 11) {
                    HeadView::Incomplete => ParseView::Incomplete,
                    HeadView::Malformed => ParseView::Parser,
                    HeadView::Done(pairs, bstart) => match Method::spec_of(s.subrange(0, me)) {
                        None => ParseView::Component,
                        Some(method) => {
                            let uri = uri_of(s.subrange(ps, pe));
                            if decode_seq(uri.path).len() > 4096 {
                                ParseView::Security
                            } else if contains_seq(uri.path, dotdot()) {
                                ParseView::Security
                            } else {
                                ParseView::Complete(
                                    RequestView {
                                        method,
                                        uri,
                                        headers: keep_headers(pairs),
                                        body: s.subrange(bstart, s.len() as int),
                                    },
                                )
                            }
                        },
                    },
                },
            }
        }
    }
}

/// Why a buffer failed to parse into a request.
#[derive(Debug)]
pub enum Error {
    /// The buffer held a syntactically valid but truncated request;
    /// read more and retry rather than give up.
    Incomplete,
    /// Malformed request line or header syntax.
    Parser(&'static str),
    /// The method token fails to map into its closed enumeration.
    Component(&'static str),
    /// The decoded path is over 4096 bytes, or the raw path holds `..`.
    Security(&'static str),
}

impl View for Error {
    type V = ParseView;

    open spec fn view(&self) -> ParseView {
        match self {
            Error::Incomplete => ParseView::Incomplete,
            Error::Parser(_) => ParseView::Parser,
            Error::Component(_) => ParseView::Component,
            Error::Security(_) => ParseView::Security,
        }
    }
}

impl Error {
    /// Human-readable reason.
    pub fn reason(&self) -> &'static str {
        match self {
            Error::Incomplete => "incomplete request, read more",
            Error::Parser(reason) => reason,
            Error::Component(reason) => reason,
            Error::Security(reason) => reason,
        }
    }
}

/// Ghost shape of a [`Request`].
#[verifier::ext_equal]
pub struct RequestView {
    /// Request method.
    pub method: Method,
    /// Request URI.
    pub uri: UriView,
    /// Request headers in stored order.
    pub headers: Seq<(Header, Seq<u8>)>,
    /// Request body bytes.
    pub body: Seq<u8>,
}

/// Decides `is_tchar`.
fn tchar(b: u8) -> (r: bool)
    ensures
        r == is_tchar(b),
{
    ('0' as u8 <= b && b <= '9' as u8) || ('A' as u8 <= b && b <= 'Z' as u8) || ('a' as u8 <= b
        && b <= 'z' as u8) || b == '!' as u8 || b == '#' as u8 || b == '$' as u8 || b == '%' as u8
        || b == '&' as u8 || b == '\'' as u8 || b == '*' as u8 || b == '+' as u8 || b == '-' as u8
        || b == '.' as u8 || b == '^' as u8 || b == '_' as u8 || b == '`' as u8 || b == '|' as u8
        || b == '~' as u8
}

/// Runs `scan_token` over the buffer.
fn scan_token_x(s: &[u8], from: usize) -> (r: usize)
    requires
        from <= s@.len(),
    ensures
        r == scan_token(s@, from as int),
        from <= r <= s@.len(),
{
    let mut i = from;
    while i < s.len()
        invariant
            from <= i <= s@.len(),
            scan_token(s@, from as int) == scan_token(s@, i as int),
        decreases s@.len() - i,
    {
        if !tchar(s[i]) {
            return i;
        }
        i += 1;
    }
    i
}

/// Runs `scan_path` over the buffer.
fn scan_path_x(s: &[u8], from: usize) -> (r: usize)
    requires
        from <= s@.len(),
    ensures
        r == scan_path(s@, from as int),
        from <= r <= s@.len(),
{
    let mut i = from;
    while i < s.len()
        invariant
            from <= i <= s@.len(),
            scan_path(s@, from as int) == scan_path(s@, i as int),
        decreases s@.len() - i,
    {
        let b = s[i];
        if !(b > 0x20 && b != 0x7f) {
            return i;
        }
        i += 1;
    }
    i
}

/// Runs `scan_value` over the buffer.
fn scan_value_x(s: &[u8], from: usize) -> (r: usize)
    requires
        from <= s@.len(),
    ensures
        r == scan_value(s@, from as int),
        from <= r <= s@.len(),
{
    let mut i = from;
    while i < s.len()
        invariant
            from <= i <= s@.len(),
            scan_value(s@, from as int) == scan_value(s@, i as int),
        decreases s@.len() - i,
    {
        let b = s[i];
        if b == 13 || b == 10 {
            return i;
        }
        i += 1;
    }
    i
}

/// Runs `scan_ows` over the buffer.
fn scan_ows_x(s: &[u8], from: usize) -> (r: usize)
    requires
        from <= s@.len(),
    ensures
        r == scan_ows(s@, from as int),
        from <= r <= s@.len(),
{
    let mut i = from;
    while i < s.len()
        invariant
            from <= i <= s@.len(),
            scan_ows(s@, from as int) == scan_ows(s@, i as int),
        decreases s@.len() - i,
    {
        let b = s[i];
        if !(b == ' ' as u8 || b == 9) {
            return i;
        }
        i += 1;
    }
    i
}

/// Compares a literal against the buffer at a position.
fn match_lit_x(s: &[u8], at: usize, lit: &[u8]) -> (r: LitMatch)
    requires
        at <= s@.len(),
    ensures
        r == match_lit(s@, at as int, lit@),
{
    let mut k: usize = 0;
    proof {
        assert(lit@.skip(0) =~= lit@);
    }
    while k < lit.len()
        invariant
            k <= lit@.len(),
            at <= s@.len(),
            match_lit(s@, at as int, lit@) == match_lit(s@, at + k, lit@.skip(k as int)),
        decreases lit@.len() - k,
    {
        let ghost rest = lit@.skip(k as int);
        proof {
            assert(rest[0] == lit@[k as int]);
            assert(rest.drop_first() =~= lit@.skip(k + 1));
        }
        if s.len() - at <= k {
            return LitMatch::Short;
        }
        if s[at + k] != lit[k] {
            return LitMatch::Mismatch;
        }
        k += 1;
    }
    proof {
        assert(lit@.skip(lit@.len() as int) =~= Seq::<u8>::empty());
    }
    LitMatch::Matched
}

/// A matched literal lies entirely within the buffer.
proof fn lemma_match_lit_matched(s: Seq<u8>, i: int, lit: Seq<u8>)
    requires
        match_lit(s, i, lit) == LitMatch::Matched,
        lit.len() > 0,
    ensures
        0 <= i,
        i + lit.len() <= s.len(),
    decreases lit.len(),
{
    if lit.len() > 1 {
        lemma_match_lit_matched(s, i + 1, lit.drop_first());
    }
}

/// The version-and-line-end literal, as owned bytes.
fn version_bytes() -> (r: Vec<u8>)
    ensures
        r@ == http_version(),
{
    let mut v: Vec<u8> = Vec::new();
    v.push('H' as u8);
    v.push('T' as u8);
    v.push('T' as u8);
    v.push('P' as u8);
    v.push('/' as u8);
    v.push('1' as u8);
    v.push('.' as u8);
    v.push('1' as u8);
    v.push(13);
    v.push(10);
    proof {
        assert(v@ =~= http_version());
    }
    v
}

/// Strips trailing optional whitespace.
fn rtrim_x(v: &[u8]) -> (r: Vec<u8>)
    ensures
        r@ == rtrim(v@),
{
    let mut e = v.len();
    proof {
        assert(v@.take(v@.len() as int) =~= v@);
    }
    while e > 0 && (v[e - 1] == ' ' as u8 || v[e - 1] == 9)
        invariant
            e <= v@.len(),
            rtrim(v@) == rtrim(v@.take(e as int)),
        decreases e,
    {
        proof {
            assert(v@.take(e as int).last() == v@[e - 1]);
            assert(v@.take(e as int).drop_last() =~= v@.take(e - 1));
        }
        e -= 1;
    }
    proof {
        assert(v@.take(v@.len() as int) =~= v@);
        assert(rtrim(v@.take(e as int)) == v@.take(e as int));
    }
    slice_to_vec(slice_subrange(v, 0, e))
}

/// Relies on `core::str::from_utf8`: it accepts exactly the valid UTF-8
/// byte sequences, the notion vstd's `valid_utf8` captures.
#[verifier::external_body]
fn utf8_ok(v: &[u8]) -> (r: bool)
    ensures
        r == valid_utf8(v@),
{
    core::str::from_utf8(v).is_ok()
}

/// Filtering raw header lines distributes over concatenation.
proof fn lemma_keep_headers_concat(a: Seq<(Seq<u8>, Seq<u8>)>, b: Seq<(Seq<u8>, Seq<u8>)>)
    ensures
        keep_headers(a + b) == keep_headers(a) + keep_headers(b),
    decreases a.len(),
{
    if a.len() == 0 {
        assert(a + b =~= b);
        assert(keep_headers(a) + keep_headers(b) =~= keep_headers(b));
    } else {
        lemma_keep_headers_concat(a.drop_first(), b);
        assert((a + b).drop_first() =~= a.drop_first() + b);
        assert((a + b)[0] == a[0]);
        if Header::spec_of(a[0].0) is Some && valid_utf8(a[0].1) {
            assert(keep_headers(a + b) =~= keep_headers(a) + keep_headers(b));
        }
    }
}

/// HTTP request: method, URI, ordered headers, body bytes.
///
/// Once parsed, method and path are always present: parsing never yields a
/// partially populated request.
#[derive(Clone, Debug)]
pub struct Request {
    /// Request method.
    pub method: Method,
    /// Request URI.
    pub uri: Uri,
    /// Request headers.
    pub headers: Headers,
    /// Request body.
    pub body: Vec<u8>,
}

impl View for Request {
    type V = RequestView;

    open spec fn view(&self) -> RequestView {
        RequestView {
            method: self.method,
            uri: self.uri@,
            headers: self.headers@,
            body: self.body@,
        }
    }
}

impl Request {
    /// A `GET /` request without headers or body.
    pub fn new() -> (r: Request)
        ensures
            r@.method == Method::Get,
            r@.uri.path == seq!['/' as u8],
            r@.uri.query is None,
            r@.headers == Seq::<(Header, Seq<u8>)>::empty(),
            r@.body == Seq::<u8>::empty(),
    {
        Request { method: Method::Get, uri: Uri::root(), headers: Headers::new(), body: Vec::new() }
    }

    /// Creates a request from the given bytes.
    ///
    /// Parses a request line `METHOD SP PATH SP HTTP/1.1 CRLF`, header
    /// lines `Name: value CRLF`, the blank-line terminator and the body,
    /// copying everything out of the buffer. Header parsing is lenient:
    /// unrecognized names and non-UTF-8 values are silently dropped. After
    /// parsing, the request path must decode to at most 4096 bytes and the
    /// raw path must not hold the literal `..`.
    ///
    /// # Errors
    ///
    /// [`Error::Incomplete`] when the buffer holds a truncated but
    /// so-far-valid request, [`Error::Parser`] when it violates the
    /// grammar, [`Error::Component`] when the method token is outside the
    /// closed catalog, and [`Error::Security`] when a path bound fails.
    #[verifier::loop_isolation(false)]
    pub fn from_bytes(bytes: &[u8]) -> (r: Result<Request, Error>)
        ensures
            match r {
                Ok(req) => parse_spec(bytes@) == ParseView::Complete(req@),
                Err(e) => parse_spec(bytes@) == e@,
            },
    {
        let n = bytes.len();
        let me = scan_token_x(bytes, 0);
        if me >= n {
            return Err(Error::Incomplete);
        }
        if me == 0 || bytes[me] != ' ' as u8 {
            return Err(Error::Parser("malformed request line"));
        }
        let ps = me + 1;
        let pe = scan_path_x(bytes, ps);
        if pe >= n {
            return Err(Error::Incomplete);
        }
        if pe == ps || bytes[pe] != ' ' as u8 {
            return Err(Error::Parser("malformed request line"));
        }
        let version = version_bytes();
        match match_lit_x(bytes, pe + 1, version.as_slice()) {
            LitMatch::Short => {
                return Err(Error::Incomplete);
            },
            LitMatch::Mismatch => {
                return Err(Error::Parser("expected HTTP/1.1"));
            },
            LitMatch::Matched => {},
        }
        proof {
            lemma_match_lit_matched(bytes@, pe + 1, http_version());
        }
        let h0 = pe + 11;
        let mut headers = Headers::new();
        let ghost mut raw: Seq<(Seq<u8>, Seq<u8>)> = Seq::empty();
        let mut hp: usize = h0;
        proof {
            assert(raw + Seq::<(Seq<u8>, Seq<u8>)>::empty() =~= raw);
            assert(keep_headers(raw) =~= Seq::<(Header, Seq<u8>)>::empty());
        }
        while hp < n
            invariant
                h0 <= hp <= n,
                hdrs(bytes@, h0 as int) == (match hdrs(bytes@, hp as int) {
                    HeadView::Done(rest, b) => HeadView::Done(raw + rest, b),
                    HeadView::Incomplete => HeadView::Incomplete,
                    HeadView::Malformed => HeadView::Malformed,
                }),
                headers@ == keep_headers(raw),
            decreases n - hp,
        {
            if bytes[hp] == 13 {
                if hp + 1 >= n {
                    return Err(Error::Incomplete);
                }
                if bytes[hp + 1] != 10 {
                    return Err(Error::Parser("malformed header line"));
                }
                proof {
                    assert(hdrs(bytes@, hp as int) == HeadView::Done(
                        Seq::<(Seq<u8>, Seq<u8>)>::empty(),
                        hp + 2,
                    ));
                    assert(raw + Seq::<(Seq<u8>, Seq<u8>)>::empty() =~= raw);
                    assert(hdrs(bytes@, h0 as int) == HeadView::Done(raw, hp + 2));
                }
                let body = slice_to_vec(slice_subrange(bytes, hp + 2, n));
                let target = slice_subrange(bytes, ps, pe);
                let method = match Method::parse(slice_subrange(bytes, 0, me)) {
                    None => {
                        return Err(Error::Component("unrecognized request method"));
                    },
                    Some(method) => method,
                };
                let uri = Uri::parse(target);
                let decoded = decode(uri.path.as_slice());
                if decoded.len() > 4096 {
                    return Err(Error::Security("path exceeds size of 4kb"));
                }
                if contains2(uri.path.as_slice(), '.' as u8, '.' as u8) {
                    return Err(Error::Security("path traversal"));
                }
                let req = Request { method, uri, headers, body };
                proof {
                    let uv = uri_of(bytes@.subrange(ps as int, pe as int));
                    assert(req@.uri =~~= uv);
                    assert(req@ =~~= (RequestView {
                        method,
                        uri: uv,
                        headers: keep_headers(raw),
                        body: bytes@.subrange(hp + 2, n as int),
                    }));
                }
                return Ok(req);
            }
            let ne = scan_token_x(bytes, hp);
            if ne >= n {
                return Err(Error::Incomplete);
            }
            if ne == hp || bytes[ne] != ':' as u8 {
                return Err(Error::Parser("malformed header line"));
            }
            let w = scan_ows_x(bytes, ne + 1);
            let ve = scan_value_x(bytes, w);
            if ve >= n {
                return Err(Error::Incomplete);
            }
            if bytes[ve] != 13 {
                return Err(Error::Parser("malformed header line"));
            }
            if ve + 1 >= n {
                return Err(Error::Incomplete);
            }
            if bytes[ve + 1] != 10 {
                return Err(Error::Parser("malformed header line"));
            }
            let name = slice_subrange(bytes, hp, ne);
            let value = rtrim_x(slice_subrange(bytes, w, ve));
            let ghost pair = (bytes@.subrange(hp as int, ne as int), rtrim(
                bytes@.subrange(w as int, ve as int),
            ));
            let ghost rawpre = raw;
            proof {
                raw = raw + seq![pair];
            }
            match Header::parse(name) {
                Some(h) => {
                    if utf8_ok(value.as_slice()) {
                        headers.put(h, value);
                    }
                },
                None => {},
            }
            proof {
                lemma_keep_headers_concat(rawpre, seq![pair]);
                assert(seq![pair].drop_first() =~= Seq::<(Seq<u8>, Seq<u8>)>::empty());
                assert(headers@ =~= keep_headers(raw));
                assert forall|rest: Seq<(Seq<u8>, Seq<u8>)>|
                    true implies rawpre + (seq![pair] + rest) =~= raw + rest by {}
            }
            hp = ve + 2;
        }
        Err(Error::Incomplete)
    }

    /// Sets the method of the request.
    pub fn method(self, method: Method) -> (r: Request)
        ensures
            r@ == (RequestView { method, ..self@ }),
    {
        Request { method, ..self }
    }

    /// Sets the URI of the request.
    pub fn uri(self, uri: Uri) -> (r: Request)
        ensures
            r@ == (RequestView { uri: uri@, ..self@ }),
    {
        Request { uri, ..self }
    }

    /// Adds a header to the request.
    pub fn header(self, header: Header, value: Vec<u8>) -> (r: Request)
        ensures
            r@ == (RequestView { headers: self@.headers.push((header, value@)), ..self@ }),
    {
        let mut headers = self.headers;
        headers.put(header, value);
        Request { headers, ..self }
    }

    /// Sets the body of the request.
    pub fn body(self, body: Vec<u8>) -> (r: Request)
        ensures
            r@ == (RequestView { body: body@, ..self@ }),
    {
        Request { body, ..self }
    }
}

/// `scan_token` stops exactly at the first non-token byte.
proof fn lemma_scan_token_exact(s: Seq<u8>, i: int, k: int)
    requires
        0 <= i <= k <= s.len(),
        forall|j: int| i <= j < k ==> is_tchar(#[trigger] s[j]),
        k == s.len() || !is_tchar(s[k]),
    ensures
        scan_token(s, i) == k,
    decreases k - i,
{
    if i < k {
        lemma_scan_token_exact(s, i + 1, k);
    }
}

/// `scan_path` stops exactly at the first non-path byte.
proof fn lemma_scan_path_exact(s: Seq<u8>, i: int, k: int)
    requires
        0 <= i <= k <= s.len(),
        forall|j: int| i <= j < k ==> is_pathchar(#[trigger] s[j]),
        k == s.len() || !is_pathchar(s[k]),
    ensures
        scan_path(s, i) == k,
    decreases k - i,
{
    if i < k {
        lemma_scan_path_exact(s, i + 1, k);
    }
}

/// A literal present in full at a position matches.
proof fn lemma_match_lit_at(s: Seq<u8>, i: int, lit: Seq<u8>)
    requires
        0 <= i,
        i + lit.len() <= s.len(),
        s.subrange(i, i + lit.len()) == lit,
    ensures
        match_lit(s, i, lit) == LitMatch::Matched,
    decreases lit.len(),
{
    if lit.len() > 0 {
        assert(s.subrange(i, i + lit.len())[0] == s[i]);
        assert(s.subrange(i + 1, i + lit.len()) =~= lit.drop_first());
        lemma_match_lit_at(s, i + 1, lit.drop_first());
    }
}

/// A literal that agrees with the buffer up to its end, but does not fit,
/// compares as short.
proof fn lemma_match_lit_short(s: Seq<u8>, i: int, lit: Seq<u8>)
    requires
        0 <= i <= s.len(),
        s.len() - i < lit.len(),
        s.subrange(i, s.len() as int) == lit.take(s.len() - i),
    ensures
        match_lit(s, i, lit) == LitMatch::Short,
    decreases lit.len(),
{
    if i < s.len() {
        assert(s.subrange(i, s.len() as int)[0] == s[i]);
        assert(lit.take(s.len() - i)[0] == lit[0]);
        assert forall|t: int| 0 <= t < s.len() - i - 1 implies #[trigger] s.subrange(
            i + 1,
            s.len() as int,
        )[t] == lit.drop_first().take(s.len() - i - 1)[t] by {
            assert(s.subrange(i, s.len() as int)[t + 1] == s[i + 1 + t]);
            assert(lit.take(s.len() - i)[t + 1] == lit[t + 1]);
        }
        assert(s.subrange(i + 1, s.len() as int) =~= lit.drop_first().take(s.len() - i - 1));
        lemma_match_lit_short(s, i + 1, lit.drop_first());
    }
}

/// The well-formed request line `GET SP <path> SP HTTP/1.1 CRLF` followed
/// by the empty header section.
pub open spec fn get_request(p: Seq<u8>) -> Seq<u8> {
    Method::Get.spec_token() + seq![' ' as u8] + p + seq![' ' as u8] + http_version() + seq![
        13u8,
        10u8,
    ]
}

/// Law: a well-formed request line carrying a path of legal bytes, at
/// most 4096 bytes long, free of `..` and of `?`, parses completely, and
/// the parsed path is exactly the one on the wire.
pub proof fn lemma_parse_well_formed(p: Seq<u8>)
    requires
        0 < p.len() <= 4096,
        forall|i: int| 0 <= i < p.len() ==> is_pathchar(#[trigger] p[i]),
        forall|i: int| 0 <= i < p.len() ==> p[i] != '?' as u8,
        !contains_seq(p, dotdot()),
    ensures
        parse_spec(get_request(p)) matches ParseView::Complete(req) && req.method == Method::Get
            && req.uri.path == p && req.uri.query is None && req.headers == Seq::<(
            Header,
            Seq<u8>,
        )>::empty() && req.body == Seq::<u8>::empty(),
{
    let s = get_request(p);
    let c = 4 + p.len() as int;
    assert(s.len() == c + 13);
    assert(s.subrange(0, 3) =~= Method::Get.spec_token());
    assert(s[0] == 'G' as u8 && s[1] == 'E' as u8 && s[2] == 'T' as u8);
    assert(s[3] == ' ' as u8);
    assert(s.subrange(4, c) =~= p);
    assert(s[c] == ' ' as u8);
    assert(s.subrange(c + 1, c + 11) =~= http_version());
    assert(s[c + 11] == 13 && s[c + 12] == 10);
    assert forall|j: int| 0 <= j < 3 implies is_tchar(#[trigger] s[j]) by {}
    lemma_scan_token_exact(s, 0, 3);
    assert forall|j: int| 4 <= j < c implies is_pathchar(#[trigger] s[j]) by {
        assert(s.subrange(4, c)[j - 4] == s[j]);
    }
    assert(!is_pathchar(s[c]));
    lemma_scan_path_exact(s, 4, c);
    lemma_match_lit_at(s, c + 1, http_version());
    assert(hdrs(s, c + 11) == HeadView::Done(Seq::<(Seq<u8>, Seq<u8>)>::empty(), c + 13));
    assert(Method::spec_of(s.subrange(0, 3)) == Some(Method::Get));
    assert forall|j: int| 0 <= j < p.len() implies p[j] != '?' as u8 by {}
    crate::bytes::lemma_first_index_none(p, '?' as u8);
    assert(uri_of(s.subrange(4, c)).path == p);
    assert(uri_of(s.subrange(4, c)).query is None);
    crate::encoding::lemma_decode_len(p);
    assert(keep_headers(Seq::<(Seq<u8>, Seq<u8>)>::empty()) =~= Seq::<(Header, Seq<u8>)>::empty());
    assert(s.subrange(c + 13, s.len() as int) =~= Seq::<u8>::empty());
}

/// Law: a buffer that is a proper prefix of a well-formed request line —
/// any method token, any path of legal bytes, the mandatory version —
/// parses as `Incomplete`, never as a grammar error: truncation always
/// reads as "read more, retry".
pub proof fn lemma_parse_prefix_incomplete(m: Seq<u8>, p: Seq<u8>, buf: Seq<u8>)
    requires
        0 < m.len(),
        forall|i: int| 0 <= i < m.len() ==> is_tchar(#[trigger] m[i]),
        0 < p.len(),
        forall|i: int| 0 <= i < p.len() ==> is_pathchar(#[trigger] p[i]),
        buf.len() < m.len() + 1 + p.len() + 1 + http_version().len(),
        buf == (m + seq![' ' as u8] + p + seq![' ' as u8] + http_version()).take(
            buf.len() as int,
        ),
    ensures
        parse_spec(buf) == ParseView::Incomplete,
{
    let line = m + seq![' ' as u8] + p + seq![' ' as u8] + http_version();
    let a = m.len() as int;
    let b = a + 1;
    let c = b + p.len() as int;
    let d = c + 1;
    assert(line.len() == d + 10);
    assert forall|j: int| 0 <= j < buf.len() implies buf[j] == line[j] by {
        assert(line.take(buf.len() as int)[j] == line[j]);
    }
    assert forall|j: int| 0 <= j < a implies line[j] == m[j] by {}
    assert(line[a] == ' ' as u8);
    assert forall|j: int| b <= j < c implies line[j] == p[j - b] by {}
    assert(line[c] == ' ' as u8);
    assert forall|j: int| d <= j < d + 10 implies line[j] == http_version()[j - d] by {}
    if buf.len() <= a {
        assert forall|j: int| 0 <= j < buf.len() implies is_tchar(#[trigger] buf[j]) by {}
        lemma_scan_token_exact(buf, 0, buf.len() as int);
    } else {
        assert forall|j: int| 0 <= j < a implies is_tchar(#[trigger] buf[j]) by {}
        assert(buf[a] == ' ' as u8);
        assert(!is_tchar(buf[a]));
        lemma_scan_token_exact(buf, 0, a);
        if buf.len() <= c {
            assert forall|j: int| b <= j < buf.len() implies is_pathchar(#[trigger] buf[j]) by {}
            lemma_scan_path_exact(buf, b, buf.len() as int);
        } else {
            assert forall|j: int| b <= j < c implies is_pathchar(#[trigger] buf[j]) by {}
            assert(buf[c] == ' ' as u8);
            assert(!is_pathchar(buf[c]));
            lemma_scan_path_exact(buf, b, c);
            if buf.len() <= d {
                assert(match_lit(buf, d, http_version()) == LitMatch::Short);
            } else {
                assert(buf.len() - d < 10);
                assert(buf.subrange(d, buf.len() as int) =~= http_version().take(buf.len() - d));
                lemma_match_lit_short(buf, d, http_version());
            }
        }
    }
}

impl Default for Request {
    /// A `GET /` request without headers or body.
    fn default() -> (r: Request)
        ensures
            r@.method == Method::Get,
            r@.uri.path == seq!['/' as u8],
            r@.uri.query is None,
            r@.headers == Seq::<(Header, Seq<u8>)>::empty(),
            r@.body == Seq::<u8>::empty(),
    {
        Request::new()
    }
}

} // verus!
