//! What is sent back over a connection.
//!
//! Reading from the connection, calling the backend and writing the answer
//! live outside this library. What is decided here is where the request head
//! ends and which bytes answer the connection for each way its handling can
//! end.

use vstd::prelude::*;
use vstd::string::*;

verus! {

/// How the handling of one connection ended.
#[derive(Debug, PartialEq, Eq)]
pub enum Forwarding {
    /// The chosen server answered; this is the body of its answer.
    Delivered(String),
    /// No server could be chosen: every server is stopped.
    NoServerRunning,
    /// A server was chosen, but the call to it failed.
    BackendFailed,
}

/// The text of [`response`] for each way the handling can end: the body of
/// the server's answer behind a success status line, or a status line alone
/// that says what went wrong.
pub open spec fn spec_response(outcome: Forwarding) -> Seq<char> {
    match outcome {
        Forwarding::Delivered(body) => "HTTP/1.1 200 OK\r\n\r\n"@ + body@,
        Forwarding::NoServerRunning => "HTTP/1.1 503 Service Unavailable\r\n\r\n"@,
        Forwarding::BackendFailed => "HTTP/1.1 502 Bad Gateway\r\n\r\n"@,
    }
}

/// The answer to write back over the connection.
pub fn response(outcome: &Forwarding) -> (text: String)
    ensures
        text@ == spec_response(*outcome),
{
    match outcome {
        Forwarding::Delivered(body) => String::from_str("HTTP/1.1 200 OK\r\n\r\n").concat(
            body.as_str(),
        ),
        Forwarding::NoServerRunning => String::from_str(
            "HTTP/1.1 503 Service Unavailable\r\n\r\n",
        ),
        Forwarding::BackendFailed => String::from_str("HTTP/1.1 502 Bad Gateway\r\n\r\n"),
    }
}

/// Tells whether `line`, a line of the request without its line ending, ends
/// the request head: the head ends at the first empty line.
pub fn ends_request_head(line: &str) -> (ends: bool)
    ensures
        ends == (line@.len() == 0),
{
    line.is_empty()
}

} // verus!
