//! Handler capability: the terminal stage of a request processing chain.

use vstd::prelude::*;

use crate::matcher::RouteError;
use crate::request::{Request, RequestView};
use crate::response::{spec_from_status, Response, ResponseExt, ResponseView};
use crate::status::Status;

verus! {

/// Construction-time error: either the scope matcher failed to compile, or
/// a wrapped middleware's own conversion failed.
#[derive(Debug)]
pub enum Error {
    /// Matcher compilation failed.
    Matcher(RouteError),
    /// A middleware conversion failed, with its reason.
    Middleware(&'static str),
}

impl Error {
    /// Human-readable reason.
    pub fn reason(&self) -> &'static str {
        match self {
            Error::Matcher(e) => e.reason(),
            Error::Middleware(reason) => reason,
        }
    }
}

/// Handler.
///
/// Handlers are the executable form of a request processing chain: a
/// handler always answers, returning one [`Response`] for every given
/// [`Request`]. A handler ends every chain, with no next stage to defer to.
pub trait Handler {
    /// The response the handler answers the given request with.
    /// Verified implementations override this; for foreign ones the
    /// default leaves the response unspecified.
    open spec fn response(&self, req: RequestView) -> ResponseView {
        arbitrary()
    }

    /// Handles the given request.
    ///
    /// Must be total: every request gets a response, and malformed input is
    /// application data to branch on, never a crash condition.
    fn handle(&self, req: Request) -> (r: Response)
        ensures
            r@ == self.response(req@),
    ;
}

/// Attempt conversion into [`Handler`].
pub trait TryIntoHandler {
    /// Output type of conversion.
    type Output: Handler;

    /// The result the conversion produces.
    /// Verified implementations override this; for foreign ones the
    /// default leaves the result unspecified.
    open spec fn handler_conversion(&self) -> Result<Self::Output, Error> {
        arbitrary()
    }

    /// Attempts to convert the implementor into a handler.
    fn try_into_handler(self) -> (r: Result<Self::Output, Error>)
        ensures
            r == self.handler_conversion(),
    ;
}

/// Fallback handler answering every request with `404 Not Found`.
pub struct NotFound;

impl Handler for NotFound {
    /// Always the canonical `404 Not Found` response, with the status's
    /// canonical name as a plain-text body.
    open spec fn response(&self, req: RequestView) -> ResponseView {
        spec_from_status(Status::NotFound)
    }

    fn handle(&self, req: Request) -> (r: Response) {
        Response::from_status(Status::NotFound)
    }
}

impl<H: Handler> TryIntoHandler for H {
    type Output = H;

    /// A handler converts into itself, and conversion never fails.
    open spec fn handler_conversion(&self) -> Result<H, Error> {
        Ok(*self)
    }

    fn try_into_handler(self) -> (r: Result<H, Error>) {
        Ok(self)
    }
}

} // verus!
