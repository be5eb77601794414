//! Closed catalog of response status codes.

use vstd::prelude::*;
use vstd::slice::slice_to_vec;
use vstd::utf8::encode_utf8;

verus! {

/// Response status code.
///
/// A closed enumeration of the status codes the dispatch core and its
/// embedders answer with; each carries a numeric wire code and a canonical
/// reason phrase.
#[derive(Clone, Copy, PartialEq, Eq, Structural, Debug)]
pub enum Status {
    /// 200 OK.
    Okay,
    /// 201 Created.
    Created,
    /// 204 No Content.
    NoContent,
    /// 400 Bad Request.
    BadRequest,
    /// 403 Forbidden.
    Forbidden,
    /// 404 Not Found.
    NotFound,
    /// 405 Method Not Allowed.
    MethodNotAllowed,
    /// 418 I'm a Teapot.
    ImATeapot,
    /// 500 Internal Server Error.
    InternalServerError,
    /// 501 Not Implemented.
    NotImplemented,
}

impl Status {
    /// Numeric code of the status on the wire.
    pub open spec fn spec_code(self) -> u16 {
        match self {
            Status::Okay => 200,
            Status::Created => 201,
            Status::NoContent => 204,
            Status::BadRequest => 400,
            Status::Forbidden => 403,
            Status::NotFound => 404,
            Status::MethodNotAllowed => 405,
            Status::ImATeapot => 418,
            Status::InternalServerError => 500,
            Status::NotImplemented => 501,
        }
    }

    /// Numeric code of the status on the wire.
    pub fn code(self) -> (r: u16)
        ensures
            r == self.spec_code(),
    {
        match self {
            Status::Okay => 200,
            Status::Created => 201,
            Status::NoContent => 204,
            Status::BadRequest => 400,
            Status::Forbidden => 403,
            Status::NotFound => 404,
            Status::MethodNotAllowed => 405,
            Status::ImATeapot => 418,
            Status::InternalServerError => 500,
            Status::NotImplemented => 501,
        }
    }

    /// Canonical reason phrase of the status.
    pub open spec fn spec_name(self) -> Seq<char> {
        match self {
            Status::Okay => "OK"@,
            Status::Created => "Created"@,
            Status::NoContent => "No Content"@,
            Status::BadRequest => "Bad Request"@,
            Status::Forbidden => "Forbidden"@,
            Status::NotFound => "Not Found"@,
            Status::MethodNotAllowed => "Method Not Allowed"@,
            Status::ImATeapot => "I'm a Teapot"@,
            Status::InternalServerError => "Internal Server Error"@,
            Status::NotImplemented => "Not Implemented"@,
        }
    }

    /// Canonical reason phrase of the status, as bytes.
    pub open spec fn spec_name_bytes(self) -> Seq<u8> {
        encode_utf8(self.spec_name())
    }

    /// Canonical reason phrase of the status.
    pub fn name(self) -> (r: &'static str)
        ensures
            r@ == self.spec_name(),
    {
        match self {
            Status::Okay => "OK",
            Status::Created => "Created",
            Status::NoContent => "No Content",
            Status::BadRequest => "Bad Request",
            Status::Forbidden => "Forbidden",
            Status::NotFound => "Not Found",
            Status::MethodNotAllowed => "Method Not Allowed",
            Status::ImATeapot => "I'm a Teapot",
            Status::InternalServerError => "Internal Server Error",
            Status::NotImplemented => "Not Implemented",
        }
    }

    /// Canonical reason phrase of the status, as owned bytes.
    pub fn name_bytes(self) -> (r: Vec<u8>)
        ensures
            r@ == self.spec_name_bytes(),
    {
        slice_to_vec(self.name().as_bytes())
    }
}

} // verus!
