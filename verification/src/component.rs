//! Closed catalogs of request methods and recognized header names.

use vstd::prelude::*;
use vstd::utf8::encode_utf8;

use crate::bytes::bytes_eq;

verus! {

/// Request method.
///
/// A closed enumeration parsed from the (case-sensitive) token on the wire.
#[derive(Clone, Copy, PartialEq, Eq, Structural, Debug)]
pub enum Method {
    /// `GET`.
    Get,
    /// `HEAD`.
    Head,
    /// `POST`.
    Post,
    /// `PUT`.
    Put,
    /// `DELETE`.
    Delete,
    /// `CONNECT`.
    Connect,
    /// `OPTIONS`.
    Options,
    /// `TRACE`.
    Trace,
    /// `PATCH`.
    Patch,
}

impl Method {
    /// The wire token of the method.
    pub open spec fn spec_token(self) -> Seq<u8> {
        match self {
            Method::Get => seq!['G' as u8, 'E' as u8, 'T' as u8],
            Method::Head => seq!['H' as u8, 'E' as u8, 'A' as u8, 'D' as u8],
            Method::Post => seq!['P' as u8, 'O' as u8, 'S' as u8, 'T' as u8],
            Method::Put => seq!['P' as u8, 'U' as u8, 'T' as u8],
            Method::Delete => seq!['D' as u8, 'E' as u8, 'L' as u8, 'E' as u8, 'T' as u8, 'E' as u8],
            Method::Connect => seq!['C' as u8, 'O' as u8, 'N' as u8, 'N' as u8, 'E' as u8, 'C' as u8, 'T' as u8],
            Method::Options => seq!['O' as u8, 'P' as u8, 'T' as u8, 'I' as u8, 'O' as u8, 'N' as u8, 'S' as u8],
            Method::Trace => seq!['T' as u8, 'R' as u8, 'A' as u8, 'C' as u8, 'E' as u8],
            Method::Patch => seq!['P' as u8, 'A' as u8, 'T' as u8, 'C' as u8, 'H' as u8],
        }
    }

    /// The method a wire token maps to, if any.
    pub open spec fn spec_of(s: Seq<u8>) -> Option<Method> {
        if s == Method::Get.spec_token() {
            Some(Method::Get)
        } else if s == Method::Head.spec_token() {
            Some(Method::Head)
        } else if s == Method::Post.spec_token() {
            Some(Method::Post)
        } else if s == Method::Put.spec_token() {
            Some(Method::Put)
        } else if s == Method::Delete.spec_token() {
            Some(Method::Delete)
        } else if s == Method::Connect.spec_token() {
            Some(Method::Connect)
        } else if s == Method::Options.spec_token() {
            Some(Method::Options)
        } else if s == Method::Trace.spec_token() {
            Some(Method::Trace)
        } else if s == Method::Patch.spec_token() {
            Some(Method::Patch)
        } else {
            None
        }
    }

    /// Maps a wire token into the closed catalog; `None` for foreign tokens.
    pub fn parse(s: &[u8]) -> (r: Option<Method>)
        ensures
            r == Method::spec_of(s@),
    {
        let candidates = [
            Method::Get,
            Method::Head,
            Method::Post,
            Method::Put,
            Method::Delete,
            Method::Connect,
            Method::Options,
            Method::Trace,
            Method::Patch,
        ];
        let mut k: usize = 0;
        while k < 9
            invariant
                k <= 9,
                candidates@.len() == 9,
                candidates@ =~= seq![
                    Method::Get,
                    Method::Head,
                    Method::Post,
                    Method::Put,
                    Method::Delete,
                    Method::Connect,
                    Method::Options,
                    Method::Trace,
                    Method::Patch,
                ],
                forall|j: int| 0 <= j < k ==> s@ != candidates@[j].spec_token(),
            decreases 9 - k,
        {
            let m = candidates[k];
            let tok = m.token();
            if bytes_eq(s, tok.as_slice()) {
                return Some(m);
            }
            k += 1;
        }
        None
    }

    /// The wire token of the method, as owned bytes.
    pub fn token(self) -> (r: Vec<u8>)
        ensures
            r@ == self.spec_token(),
    {
        let mut v: Vec<u8> = Vec::new();
        match self {
            Method::Get => {
                v.push('G' as u8);
                v.push('E' as u8);
                v.push('T' as u8);
            },
            Method::Head => {
                v.push('H' as u8);
                v.push('E' as u8);
                v.push('A' as u8);
                v.push('D' as u8);
            },
            Method::Post => {
                v.push('P' as u8);
                v.push('O' as u8);
                v.push('S' as u8);
                v.push('T' as u8);
            },
            Method::Put => {
                v.push('P' as u8);
                v.push('U' as u8);
                v.push('T' as u8);
            },
            Method::Delete => {
                v.push('D' as u8);
                v.push('E' as u8);
                v.push('L' as u8);
                v.push('E' as u8);
                v.push('T' as u8);
                v.push('E' as u8);
            },
            Method::Connect => {
                v.push('C' as u8);
                v.push('O' as u8);
                v.push('N' as u8);
                v.push('N' as u8);
                v.push('E' as u8);
                v.push('C' as u8);
                v.push('T' as u8);
            },
            Method::Options => {
                v.push('O' as u8);
                v.push('P' as u8);
                v.push('T' as u8);
                v.push('I' as u8);
                v.push('O' as u8);
                v.push('N' as u8);
                v.push('S' as u8);
            },
            Method::Trace => {
                v.push('T' as u8);
                v.push('R' as u8);
                v.push('A' as u8);
                v.push('C' as u8);
                v.push('E' as u8);
            },
            Method::Patch => {
                v.push('P' as u8);
                v.push('A' as u8);
                v.push('T' as u8);
                v.push('C' as u8);
                v.push('H' as u8);
            },
        }
        proof {
            assert(v@ =~= self.spec_token());
        }
        v
    }
}

/// ASCII lowercasing of one byte.
pub open spec fn lower_byte(b: u8) -> u8 {
    if 'A' as u8 <= b <= 'Z' as u8 {
        (b + 32) as u8
    } else {
        b
    }
}

/// ASCII lowercasing of a byte sequence.
pub open spec fn lower_seq(s: Seq<u8>) -> Seq<u8> {
    s.map_values(|b: u8| lower_byte(b))
}

/// ASCII lowercasing of a byte slice.
pub fn to_lower(s: &[u8]) -> (r: Vec<u8>)
    ensures
        r@ == lower_seq(s@),
{
    let mut v: Vec<u8> = Vec::new();
    let mut i: usize = 0;
    while i < s.len()
        invariant
            i <= s.len(),
            v@.len() == i,
            forall|j: int| 0 <= j < i ==> v@[j] == lower_byte(s@[j]),
        decreases s.len() - i,
    {
        let b = s[i];
        if 'A' as u8 <= b && b <= 'Z' as u8 {
            v.push(b + 32);
        } else {
            v.push(b);
        }
        i += 1;
    }
    proof {
        assert(v@ =~= lower_seq(s@));
    }
    v
}

/// Recognized request header.
///
/// A closed enumeration parsed case-insensitively from the header name on
/// the wire; names outside the catalog are dropped by the parser.
#[derive(Clone, Copy, PartialEq, Eq, Structural, Debug)]
pub enum Header {
    /// `accept`.
    Accept,
    /// `authorization`.
    Authorization,
    /// `connection`.
    Connection,
    /// `content-length`.
    ContentLength,
    /// `content-type`.
    ContentType,
    /// `cookie`.
    Cookie,
    /// `host`.
    Host,
    /// `user-agent`.
    UserAgent,
}

impl Header {
    /// The canonical (lower-case) name of the header.
    pub open spec fn spec_canonical(self) -> Seq<u8> {
        match self {
            Header::Accept => encode_utf8("accept"@),
            Header::Authorization => encode_utf8("authorization"@),
            Header::Connection => encode_utf8("connection"@),
            Header::ContentLength => encode_utf8("content-length"@),
            Header::ContentType => encode_utf8("content-type"@),
            Header::Cookie => encode_utf8("cookie"@),
            Header::Host => encode_utf8("host"@),
            Header::UserAgent => encode_utf8("user-agent"@),
        }
    }

    /// The header a wire name maps to, if any; matching is case-insensitive.
    pub open spec fn spec_of(s: Seq<u8>) -> Option<Header> {
        if lower_seq(s) == Header::Accept.spec_canonical() {
            Some(Header::Accept)
        } else if lower_seq(s) == Header::Authorization.spec_canonical() {
            Some(Header::Authorization)
        } else if lower_seq(s) == Header::Connection.spec_canonical() {
            Some(Header::Connection)
        } else if lower_seq(s) == Header::ContentLength.spec_canonical() {
            Some(Header::ContentLength)
        } else if lower_seq(s) == Header::ContentType.spec_canonical() {
            Some(Header::ContentType)
        } else if lower_seq(s) == Header::Cookie.spec_canonical() {
            Some(Header::Cookie)
        } else if lower_seq(s) == Header::Host.spec_canonical() {
            Some(Header::Host)
        } else if lower_seq(s) == Header::UserAgent.spec_canonical() {
            Some(Header::UserAgent)
        } else {
            None
        }
    }

    /// The canonical (lower-case) name of the header.
    pub fn canonical(self) -> (r: &'static str)
        ensures
            encode_utf8(r@) == self.spec_canonical(),
    {
        match self {
            Header::Accept => "accept",
            Header::Authorization => "authorization",
            Header::Connection => "connection",
            Header::ContentLength => "content-length",
            Header::ContentType => "content-type",
            Header::Cookie => "cookie",
            Header::Host => "host",
            Header::UserAgent => "user-agent",
        }
    }

    /// Maps a wire name into the closed catalog, case-insensitively;
    /// `None` for unrecognized names.
    pub fn parse(s: &[u8]) -> (r: Option<Header>)
        ensures
            r == Header::spec_of(s@),
    {
        let low = to_lower(s);
        let candidates = [
            Header::Accept,
            Header::Authorization,
            Header::Connection,
            Header::ContentLength,
            Header::ContentType,
            Header::Cookie,
            Header::Host,
            Header::UserAgent,
        ];
        let mut k: usize = 0;
        while k < 8
            invariant
                k <= 8,
                low@ == lower_seq(s@),
                candidates@ =~= seq![
                    Header::Accept,
                    Header::Authorization,
                    Header::Connection,
                    Header::ContentLength,
                    Header::ContentType,
                    Header::Cookie,
                    Header::Host,
                    Header::UserAgent,
                ],
                forall|j: int| 0 <= j < k ==> lower_seq(s@) != candidates@[j].spec_canonical(),
            decreases 8 - k,
        {
            let h = candidates[k];
            if bytes_eq(low.as_slice(), h.canonical().as_bytes()) {
                return Some(h);
            }
            k += 1;
        }
        None
    }
}

} // verus!
