//! Mount context for middleware construction.

use vstd::prelude::*;

use crate::matcher::Route;

verus! {

/// Immutable mount context: optionally a base route. Created once before
/// resolution so middleware construction can validate or compute values
/// that depend on the mount location; the default is the root mount.
#[derive(Debug)]
pub struct Scope {
    /// The base route of the mount, or nothing for the root mount.
    pub route: Option<Route>,
}

impl Scope {
    /// A scope mounted at the given base route.
    pub fn new(route: Option<Route>) -> (r: Scope)
        ensures
            r.route == route,
    {
        Scope { route }
    }

    /// The root mount.
    pub fn root() -> (r: Scope)
        ensures
            r.route is None,
    {
        Scope { route: None }
    }
}

impl Default for Scope {
    /// The root mount.
    fn default() -> (r: Scope)
        ensures
            r.route is None,
    {
        Scope::root()
    }
}

} // verus!
