//! A typed route registry.
//!
//! Routes are registered under an HTTP verb, an optional domain and a path
//! pattern such as `/users/:id`. A pattern is checked against the path
//! grammar, reduced to a canonical key in which placeholder names play no
//! part, and stored unless an equal key is already present. A request is
//! resolved to the most specific registered route that admits it, and the
//! values its placeholders capture are handed back by name.
//!
//! - [`grammar`] holds the grammars of patterns, request paths and domains,
//!   [`number`], [`float`] and [`magnitude`] say which request texts denote
//!   numbers;
//! - [`key`] and [`route`] hold what is stored, [`params`] what a request
//!   captures;
//! - [`registry`] and [`resolution`] say, over sequences and maps, what
//!   registering and resolving come to, and [`router`] holds the registry
//!   that does both;
//! - [`laws`] states what holds of every registry and every request.

pub mod error;
pub mod text;
pub mod grammar;
pub mod key;
pub mod number;
pub mod magnitude;
pub mod float;
pub mod route;
pub mod params;
pub mod registry;
pub mod resolution;
mod request;
pub mod router;
pub mod laws;

pub use crate::error::{ResolutionError, RouteError};
pub use crate::key::{RouteKey, RoutePart, Verb};
pub use crate::params::{CapturedValue, ParameterBag};
pub use crate::route::{Render, Route, RouteVar};
pub use crate::router::{RouteBuilder, Router};
