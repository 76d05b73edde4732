//! The outcome of one exchange, and how a transport reply becomes one.
//!
//! The transport (whatever HTTP client carries the request) reports either a
//! response or the text of its failure; [`interpret_response`] turns that
//! report into the one [`Outcome`] of the exchange. Every reply yields
//! exactly one outcome.

use crate::json::{decode, spec_decode, JsonMap};
use vstd::prelude::*;

verus! {

/// What the caller wants done with the response body.
#[derive(Debug, Clone, Copy, PartialEq, Eq)]
pub enum BodyHandling {
    /// Leave the body as raw text.
    RawText,
    /// Decode the body as a JSON object.
    DecodeJson,
}

/// One response, as the transport hands it over.
#[derive(Debug, PartialEq, Eq)]
pub struct Response {
    pub status: u16,
    pub body: String,
}

/// Why an exchange failed.
#[derive(Debug, PartialEq, Eq)]
pub enum FailureReason {
    /// The transport could not complete the call (DNS, connect, TLS,
    /// timeout), with its report.
    Transport(String),
    /// JSON decoding was asked for and the body is not a well-formed object.
    MalformedBody,
}

/// The result of one request/response exchange.
#[derive(Debug, PartialEq, Eq)]
pub enum Outcome {
    /// Success, with the raw body.
    Text(String),
    /// Success, with the decoded body.
    Json(JsonMap),
    /// The exchange failed.
    Failure(FailureReason),
}

/// Turns the transport's report into the one outcome of the exchange.
///
/// A transport failure is surfaced as it is, without a retry. A response is
/// kept as text, or decoded; a body that does not decode fails the exchange.
pub fn interpret_response(handling: BodyHandling, reply: Result<Response, String>) -> (r: Outcome)
    ensures
        reply matches Err(t) ==> (r matches Outcome::Failure(FailureReason::Transport(u)) && u@
            == t@),
        reply matches Ok(resp) ==> match handling {
            BodyHandling::RawText => r matches Outcome::Text(b) && b@ == resp.body@,
            BodyHandling::DecodeJson => match spec_decode(resp.body@) {
                Some(es) => r matches Outcome::Json(m) && m@ == es,
                None => r == Outcome::Failure(FailureReason::MalformedBody),
            },
        },
{
    match reply {
        Err(t) => Outcome::Failure(FailureReason::Transport(t)),
        Ok(resp) => match handling {
            BodyHandling::RawText => Outcome::Text(resp.body),
            BodyHandling::DecodeJson => match decode(resp.body.as_str()) {
                Ok(m) => Outcome::Json(m),
                Err(_) => Outcome::Failure(FailureReason::MalformedBody),
            },
        },
    }
}

} // verus!
