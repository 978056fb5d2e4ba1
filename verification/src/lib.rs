//! One-shot HTTP fetch support for a module-loading pipeline: a redirect
//! resolver over a plain URL model, a response classifier with explicit
//! conditional-revalidation and redirect handling, and a pull-based
//! streaming body buffer.

pub mod strutil;
pub mod urls;
pub mod headers;
pub mod fetch;
pub mod body;
pub mod test_runner;
