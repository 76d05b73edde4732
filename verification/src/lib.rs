//! A single-shot JSON-over-HTTP request invoker.
//!
//! The library holds the verified logic of one request/response exchange:
//! building and validating a request descriptor, encoding and decoding the
//! small JSON objects that travel in request and response bodies, and turning
//! a transport reply into an [`outcome::Outcome`]. The transport itself (the
//! HTTP client, the task runner) lives outside the library and hands replies
//! in as plain values.

pub mod greeting;
pub mod json;
pub mod outcome;
pub mod request;
