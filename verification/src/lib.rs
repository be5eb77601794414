//! Request-processing core of an embeddable HTTP service toolkit.
//!
//! The crate provides an HTTP/1.1 request parser over raw bytes, a URI model
//! with percent-encoding, a path-pattern matcher with deterministic
//! most-specific-match resolution, and a middleware/handler composition
//! engine that assembles ordered processing pipelines.
//!
//! All URI components, header values and bodies are modelled as owned byte
//! vectors: the crate always copies out of the input buffer, trading the
//! zero-copy optimisation for a lifetime-free API.

pub mod bytes;
pub mod component;
pub mod encoding;
pub mod handler;
pub mod headers;
pub mod matcher;
pub mod middleware;
pub mod request;
pub mod response;
pub mod scope;
pub mod stack;
pub mod status;
pub mod uri;

pub use component::{Header, Method};
pub use encoding::{decode, decode_text, encode, Kind};
pub use handler::{Error, Handler, NotFound, TryIntoHandler};
pub use headers::Headers;
pub use matcher::{Matcher, Route, RouteError, Segment};
pub use middleware::{Either, Middleware, Outcome, TryIntoMiddleware};
pub use request::Request;
pub use response::{IntoResponse, Response, ResponseExt};
pub use scope::Scope;
pub use stack::{Builder, Stack};
pub use status::Status;
pub use uri::{Query, Uri};
