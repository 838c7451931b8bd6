//! The plain-value side of the transport: what a handler answers, and how the
//! request to a blinding service is framed and its answer read.
//!
//! Sending and receiving happen outside; the functions here decide what is
//! sent and what a status means.

use vstd::prelude::*;
use vstd::string::*;
use crate::decimal::{decimal_text, format_decimal};
use crate::ids::OutPoint;
use crate::seal::BlindResponse;

verus! {

/// The status of an answer that carries a result.
pub const STATUS_OK: u16 = 200;

/// The status of an answer that reports a failure of the server.
pub const STATUS_INTERNAL_SERVER_ERROR: u16 = 500;

/// What a handler answers: a status and a body.
#[derive(Clone, Debug, PartialEq, Eq)]
pub struct Response {
    pub status: u16,
    pub body: String,
}

/// A request to post, as plain values.
#[derive(Clone, Debug, PartialEq, Eq)]
pub struct PostRequest {
    pub url: String,
    pub content_type: String,
    pub body: String,
}

/// Why blinding through the service failed.
#[derive(Clone, Copy, Debug, PartialEq, Eq, Structural)]
pub enum BlindError {
    /// The service answered with another status than 200.
    Status(u16),
    /// The service answered 200, but the body was not a blinding response.
    Malformed,
}

/// The text of an error: what went wrong, after a fixed introduction.
pub open spec fn failure_body(message: Seq<char>) -> Seq<char> {
    "Something went wrong: "@ + message
}

/// The address of the blinding service under a base address.
pub open spec fn blind_url(base: Seq<char>) -> Seq<char> {
    base + "blind"@
}

/// The text of a refusal by status.
pub open spec fn status_text(status: u16) -> Seq<char> {
    "Error from blind utxo response. Status: "@ + decimal_text(status as nat)
}

/// The answer to a request that succeeded: status 200 and the result as the body.
pub fn ok_response(body: String) -> (r: Response)
    ensures
        r.status == STATUS_OK,
        r.body@ == body@,
{
    Response { status: STATUS_OK, body }
}

/// The answer to a request that failed: status 500 and the error's text
/// after "Something went wrong: ".
pub fn error_response(message: &str) -> (r: Response)
    ensures
        r.status == STATUS_INTERNAL_SERVER_ERROR,
        r.body@ == failure_body(message@),
{
    let mut body = String::from_str("Something went wrong: ");
    body.append(message);
    Response { status: STATUS_INTERNAL_SERVER_ERROR, body }
}

/// The answer to a request, from its result: the body on success, the error
/// on failure.
pub fn respond(result: Result<String, String>) -> (r: Response)
    ensures
        match result {
            Ok(body) => r.status == STATUS_OK && r.body@ == body@,
            Err(message) => r.status == STATUS_INTERNAL_SERVER_ERROR && r.body@ == failure_body(
                message@,
            ),
        },
{
    match result {
        Ok(body) => ok_response(body),
        Err(message) => error_response(message.as_str()),
    }
}

/// The request that asks the service under `base` to blind an output; `body`
/// is the output as JSON.
pub fn blind_request(base: &str, body: String) -> (r: PostRequest)
    ensures
        r.url@ == blind_url(base@),
        r.content_type@ == "application/json"@,
        r.body@ == body@,
{
    let mut url = String::from_str(base);
    url.append("blind");
    PostRequest { url, content_type: String::from_str("application/json"), body }
}

/// Reads the status of the service's answer: 200 lets the body be read, any
/// other status is the failure.
pub fn blind_status(status: u16) -> (r: Result<(), BlindError>)
    ensures
        status == 200 ==> r == Ok::<(), BlindError>(()),
        status != 200 ==> r == Err::<(), BlindError>(BlindError::Status(status)),
{
    if status == 200 {
        Ok(())
    } else {
        Err(BlindError::Status(status))
    }
}

/// The result of blinding through the service, from the status of its answer
/// and what its body held: the response together with the output that was
/// blinded.
pub fn blind_outcome(status: u16, parsed: Option<BlindResponse>, utxo: OutPoint) -> (r: Result<
    (BlindResponse, OutPoint),
    BlindError,
>)
    ensures
        r == match (status == 200, parsed) {
            (false, _) => Err::<(BlindResponse, OutPoint), BlindError>(BlindError::Status(status)),
            (true, None) => Err(BlindError::Malformed),
            (true, Some(response)) => Ok((response, utxo)),
        },
{
    match blind_status(status) {
        Err(e) => Err(e),
        Ok(()) => match parsed {
            Some(response) => Ok((response, utxo)),
            None => Err(BlindError::Malformed),
        },
    }
}

impl BlindError {
    /// The text of the error.
    pub fn message(&self) -> (s: String)
        ensures
            s@ == match *self {
                BlindError::Status(status) => status_text(status),
                BlindError::Malformed => "Error from blind utxo response. Malformed body"@,
            },
    {
        match *self {
            BlindError::Status(status) => {
                let mut s = String::from_str("Error from blind utxo response. Status: ");
                let digits = format_decimal(status as u64);
                s.append(digits.as_str());
                s
            },
            BlindError::Malformed => String::from_str(
                "Error from blind utxo response. Malformed body",
            ),
        }
    }
}

} // verus!
