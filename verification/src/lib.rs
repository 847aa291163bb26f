//! An in-memory fixed-window rate limiter together with typed accessors for
//! URL path and query parameters.
//!
//! The admission logic of the limiter and the parsing of parameter values are
//! specified and verified here; the HTTP plumbing around them lives outside
//! this crate.

pub mod assoc;
pub mod params;
pub mod parse;
pub mod rate_limit;
pub mod text;

pub use params::PathParams;
pub use params::QueryParams;
pub use rate_limit::RateLimit;
