//! HTTP response model and conversions into it.

use vstd::prelude::*;
use vstd::slice::slice_to_vec;
use vstd::utf8::encode_utf8;

use crate::bytes::{append_bytes, dec_digits, format_usize};
use crate::component::Header;
use crate::headers::Headers;
use crate::status::Status;

verus! {

/// Ghost shape of a [`Response`].
#[verifier::ext_equal]
pub struct ResponseView {
    /// Response status.
    pub status: Status,
    /// Response headers in stored order.
    pub headers: Seq<(Header, Seq<u8>)>,
    /// Response body bytes.
    pub body: Seq<u8>,
}

/// HTTP response: status, ordered headers, body bytes.
#[derive(Clone, Debug)]
pub struct Response {
    /// Response status.
    pub status: Status,
    /// Response headers in stored order.
    pub headers: Headers,
    /// Response body bytes.
    pub body: Vec<u8>,
}

impl View for Response {
    type V = ResponseView;

    open spec fn view(&self) -> ResponseView {
        ResponseView { status: self.status, headers: self.headers@, body: self.body@ }
    }
}

impl Response {
    /// An empty `200 OK` response.
    pub fn new() -> (r: Response)
        ensures
            r@.status == Status::Okay,
            r@.headers == Seq::<(Header, Seq<u8>)>::empty(),
            r@.body == Seq::<u8>::empty(),
    {
        Response { status: Status::Okay, headers: Headers::new(), body: Vec::new() }
    }

    /// Sets the status of the response.
    pub fn status(self, status: Status) -> (r: Response)
        ensures
            r@ == (ResponseView { status, ..self@ }),
    {
        Response { status, ..self }
    }

    /// Adds a header to the response.
    pub fn header(self, header: Header, value: Vec<u8>) -> (r: Response)
        ensures
            r@ == (ResponseView { headers: self@.headers.push((header, value@)), ..self@ }),
    {
        let mut headers = self.headers;
        headers.put(header, value);
        Response { headers, ..self }
    }

    /// Sets the body of the response.
    pub fn body(self, body: Vec<u8>) -> (r: Response)
        ensures
            r@ == (ResponseView { body: body@, ..self@ }),
    {
        Response { body, ..self }
    }
}

/// One formatted header line on the wire: canonical name, colon and
/// space, value, CRLF.
pub open spec fn header_line(h: Header, v: Seq<u8>) -> Seq<u8> {
    h.spec_canonical() + seq![':' as u8, ' ' as u8] + v + seq![13u8, 10u8]
}

/// The formatted header section, in stored order.
pub open spec fn headers_wire(hs: Seq<(Header, Seq<u8>)>) -> Seq<u8>
    decreases hs.len(),
{
    if hs.len() == 0 {
        seq![]
    } else {
        header_line(hs[0].0, hs[0].1) + headers_wire(hs.drop_first())
    }
}

/// The exact wire layout of a response: status line, formatted headers in
/// stored order, blank line, raw body bytes.
pub open spec fn wire_of(r: ResponseView) -> Seq<u8> {
    encode_utf8("HTTP/1.1 "@) + dec_digits(r.status.spec_code() as nat) + seq![' ' as u8]
        + r.status.spec_name_bytes() + seq![13u8, 10u8] + headers_wire(r.headers) + seq![
        13u8,
        10u8,
    ] + r.body
}

impl Response {
    /// Formats the response for the wire: status line, headers in stored
    /// order, blank line, body bytes — exactly the layout of `wire_of`.
    #[verifier::loop_isolation(false)]
    pub fn to_wire(&self) -> (r: Vec<u8>)
        ensures
            r@ == wire_of(self@),
    {
        let mut out = slice_to_vec("HTTP/1.1 ".as_bytes());
        let code = format_usize(self.status.code() as usize);
        append_bytes(&mut out, code.as_slice());
        out.push(' ' as u8);
        let name = self.status.name_bytes();
        append_bytes(&mut out, name.as_slice());
        out.push(13);
        out.push(10);
        let ghost hs = self@.headers;
        let mut i: usize = 0;
        proof {
            assert(hs.skip(0) =~= hs);
        }
        while i < self.headers.pairs.len()
            invariant
                i <= hs.len(),
                wire_of(self@) == out@ + headers_wire(hs.skip(i as int)) + seq![13u8, 10u8]
                    + self@.body,
            decreases self.headers.pairs.len() - i,
        {
            let ghost rest = hs.skip(i as int);
            let ghost outpre = out@;
            proof {
                assert(rest[0] == hs[i as int]);
                assert(rest.drop_first() =~= hs.skip(i + 1));
            }
            let header = self.headers.pairs[i].0;
            append_bytes(&mut out, header.canonical().as_bytes());
            out.push(':' as u8);
            out.push(' ' as u8);
            append_bytes(&mut out, self.headers.pairs[i].1.as_slice());
            out.push(13);
            out.push(10);
            proof {
                assert(hs[i as int].0 == header);
                assert(hs[i as int].1 == self.headers.pairs@[i as int].1@);
                assert(out@ =~= outpre + header_line(hs[i as int].0, hs[i as int].1));
                assert(headers_wire(rest) == header_line(hs[i as int].0, hs[i as int].1)
                    + headers_wire(hs.skip(i + 1)));
                assert((outpre + header_line(hs[i as int].0, hs[i as int].1)) + headers_wire(
                    hs.skip(i + 1),
                ) + seq![13u8, 10u8] + self@.body =~= outpre + headers_wire(rest) + seq![
                    13u8,
                    10u8,
                ] + self@.body);
            }
            i += 1;
        }
        let ghost outpre = out@;
        out.push(13);
        out.push(10);
        append_bytes(&mut out, self.body.as_slice());
        proof {
            assert(hs.skip(hs.len() as int).len() == 0);
            assert(headers_wire(hs.skip(hs.len() as int)) == Seq::<u8>::empty());
            assert(out@ =~= outpre + headers_wire(hs.skip(hs.len() as int)) + seq![13u8, 10u8]
                + self@.body);
        }
        out
    }
}

impl Default for Response {
    /// An empty `200 OK` response.
    fn default() -> (r: Response)
        ensures
            r@.status == Status::Okay,
            r@.headers == Seq::<(Header, Seq<u8>)>::empty(),
            r@.body == Seq::<u8>::empty(),
    {
        Response::new()
    }
}

/// The response [`ResponseExt::from_status`] builds: the status itself, a
/// plain-text content type, the content length, and the status's canonical
/// reason phrase as the body.
pub open spec fn spec_from_status(status: Status) -> ResponseView {
    ResponseView {
        status,
        headers: seq![
            (Header::ContentType, encode_utf8("text/plain; charset=utf-8"@)),
            (Header::ContentLength, dec_digits(status.spec_name_bytes().len())),
        ],
        body: status.spec_name_bytes(),
    }
}

/// Extension trait for the [`Response`] type.
pub trait ResponseExt: Sized {
    /// Creates a response from a status code: a plain-text body holding the
    /// status's canonical reason phrase, with matching content headers.
    fn from_status(status: Status) -> (r: Response)
        ensures
            r@ == spec_from_status(status),
    {
        let content = status.name_bytes();
        let clen = format_usize(content.len());
        let r = Response::new().status(status).header(
            Header::ContentType,
            slice_to_vec("text/plain; charset=utf-8".as_bytes()),
        ).header(Header::ContentLength, clen).body(content);
        proof {
            assert(r@.headers =~= spec_from_status(status).headers);
            assert(r@ =~~= spec_from_status(status));
        }
        r
    }
}

impl ResponseExt for Response {

}

/// Conversion into [`Response`].
pub trait IntoResponse: Sized {
    /// The response the value converts into.
    /// Verified implementations override this; for foreign ones the
    /// default leaves the response unspecified.
    open spec fn spec_into_response(&self) -> ResponseView {
        arbitrary()
    }

    /// Converts the implementor into a response.
    fn into_response(self) -> (r: Response)
        ensures
            r@ == self.spec_into_response(),
    ;
}

impl IntoResponse for Response {
    /// A response converts into itself.
    open spec fn spec_into_response(&self) -> ResponseView {
        self@
    }

    fn into_response(self) -> (r: Response) {
        self
    }
}

impl<E> IntoResponse for Result<Response, E> {
    /// A success converts into its response; any error maps to a generic
    /// `500 Internal Server Error` response.
    open spec fn spec_into_response(&self) -> ResponseView {
        match self {
            Ok(res) => res@,
            Err(_) => spec_from_status(Status::InternalServerError),
        }
    }

    fn into_response(self) -> (r: Response) {
        match self {
            Ok(res) => res,
            Err(_) => Response::from_status(Status::InternalServerError),
        }
    }
}

} // verus!
