//! What can go wrong when a route is registered or a request resolved.

use vstd::prelude::*;

verus! {

/// Why a route was not registered.
#[derive(Debug, PartialEq, Eq, Clone, Copy, Hash, Structural)]
pub enum RouteError {
    /// The pattern is not in the path grammar.
    InvalidFormat,
    /// The domain is neither a plain nor a wildcard domain.
    InvalidDomain,
    /// A route with an equal key is registered already.
    DuplicateRoute,
}

impl RouteError {
    /// A sentence for a log or a console.
    pub fn message(&self) -> (text: &'static str)
        ensures
            text@ == match *self {
                RouteError::InvalidFormat => "invalid route format!"@,
                RouteError::InvalidDomain => "invalid domain!"@,
                RouteError::DuplicateRoute => "a route identical to this one has already been defined!"@,
            },
    {
        match self {
            RouteError::InvalidFormat => "invalid route format!",
            RouteError::InvalidDomain => "invalid domain!",
            RouteError::DuplicateRoute => "a route identical to this one has already been defined!",
        }
    }
}

/// Why a request was not resolved.
#[derive(Debug, PartialEq, Eq, Clone, Copy, Hash, Structural)]
pub enum ResolutionError {
    /// No registered route admits the request.
    NotFound,
}

} // verus!
