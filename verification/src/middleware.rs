//! Middleware capability: one composable layer of request processing.

use vstd::prelude::*;

use crate::handler::Error;
use crate::request::{Request, RequestView};
use crate::response::{Response, ResponseView};
use crate::scope::Scope;

verus! {

/// Ghost shape of an [`Outcome`].
pub enum OutcomeView {
    /// The middleware answered the request itself.
    Answer(ResponseView),
    /// The middleware forwards the (possibly rewritten) request.
    Forward(RequestView),
}

/// What one middleware did with a request: answered it, or handed it on to
/// the next stage of the chain. Forwarding happens at most once per call,
/// and the forwarded request may differ from the received one.
#[derive(Debug)]
pub enum Outcome {
    /// The middleware answered the request itself.
    Answer(Response),
    /// The middleware forwards the (possibly rewritten) request.
    Forward(Request),
}

impl View for Outcome {
    type V = OutcomeView;

    open spec fn view(&self) -> OutcomeView {
        match self {
            Outcome::Answer(res) => OutcomeView::Answer(res@),
            Outcome::Forward(req) => OutcomeView::Forward(req@),
        }
    }
}

/// Middleware.
///
/// Middlewares are the building blocks of a composable request processing
/// pipeline: each either answers a given [`Request`] with a [`Response`],
/// or forwards it — optionally after inspection or rewriting — to the next
/// stage, which is another middleware or the final [`Handler`][]. A
/// middleware owns the forward-or-answer decision and consumes the request,
/// matching the picture of a request moving through a pipeline.
///
/// [`Handler`]: crate::handler::Handler
pub trait Middleware {
    /// The outcome the middleware produces for the given request.
    /// Verified implementations override this; for foreign ones the
    /// default leaves the outcome unspecified.
    open spec fn step(&self, req: RequestView) -> OutcomeView {
        arbitrary()
    }

    /// Processes the given request.
    ///
    /// Processing is infallible: an internal fault must be mapped to a
    /// response, conventionally a 500-class one, never propagated.
    fn process(&self, req: Request) -> (r: Outcome)
        ensures
            r@ == self.step(req@),
    ;
}

/// Attempt conversion into [`Middleware`].
pub trait TryIntoMiddleware {
    /// Output type of conversion.
    type Output: Middleware;

    /// The result the conversion produces for the given scope.
    /// Verified implementations override this; for foreign ones the
    /// default leaves the result unspecified.
    open spec fn conversion(&self, scope: &Scope) -> Result<Self::Output, Error> {
        arbitrary()
    }

    /// Attempts to convert the implementor into a middleware.
    ///
    /// Conversion may validate against the mount [`Scope`] and fail; moving
    /// validation here keeps request processing itself infallible.
    fn try_into_middleware(self, scope: &Scope) -> (r: Result<Self::Output, Error>)
        ensures
            r == self.conversion(scope),
    ;
}

/// A middleware that is one of two middleware types.
///
/// A stack owns middlewares of a single type; a pipeline mixing different
/// middleware types nests sums of this type instead of boxing a trait
/// object.
#[derive(Debug)]
pub enum Either<A, B> {
    /// The first kind.
    First(A),
    /// The second kind.
    Second(B),
}

impl<A: Middleware, B: Middleware> Middleware for Either<A, B> {
    /// The outcome of whichever middleware the sum holds.
    open spec fn step(&self, req: RequestView) -> OutcomeView {
        match self {
            Either::First(a) => a.step(req),
            Either::Second(b) => b.step(req),
        }
    }

    fn process(&self, req: Request) -> (r: Outcome) {
        match self {
            Either::First(a) => a.process(req),
            Either::Second(b) => b.process(req),
        }
    }
}

impl<M: Middleware> TryIntoMiddleware for M {
    type Output = M;

    /// A middleware converts into itself, and conversion never fails.
    open spec fn conversion(&self, scope: &Scope) -> Result<M, Error> {
        Ok(*self)
    }

    fn try_into_middleware(self, scope: &Scope) -> (r: Result<M, Error>) {
        Ok(self)
    }
}

} // verus!
