//! One request and response cycle, on bytes.

use vstd::prelude::*;
use vstd::string::StringSliceAdditionalSpecFns;
use crate::request::{
    is_target, is_token, lemma_parse_request_text, parse_request, request_text, HeaderText,
    HttpRequest,
};
use crate::response::{bad_request, ok_with, write_response, ResponseModel, ResponseSpec};
use crate::router::{matches_echo, matches_root, response_for};
use crate::text::{lemma_ascii_bytes, lemma_no_crlf_without_cr, spec_is_ows, CR, LF};

verus! {

/// The most bytes that are read from a connection: a request whose head does
/// not fit is cut short, and so malformed.
pub const MAX_REQUEST_BYTES: usize = 8192;

/// Where a connection stands in its one cycle of request and response.
#[derive(Debug, Clone, Copy, PartialEq, Eq, Structural)]
pub enum ConnectionState {
    /// The stream was accepted and nothing was read yet.
    Accepted,
    /// The bytes of the one read are in the buffer.
    Read,
    /// The reply is decided: that of the request, or `400 Bad Request`.
    Parsed,
    /// The reply was written and flushed.
    Responded,
    /// The stream is closed. No step leaves this state.
    Closed,
}

impl ConnectionState {
    /// The state after the step that this state waits for. A step that
    /// succeeds leads to the next state of the cycle; a fault of the transport
    /// closes the connection from wherever it stands.
    pub open spec fn spec_next(self, fault: bool) -> ConnectionState {
        if fault {
            ConnectionState::Closed
        } else {
            match self {
                ConnectionState::Accepted => ConnectionState::Read,
                ConnectionState::Read => ConnectionState::Parsed,
                ConnectionState::Parsed => ConnectionState::Responded,
                ConnectionState::Responded => ConnectionState::Closed,
                ConnectionState::Closed => ConnectionState::Closed,
            }
        }
    }

    /// The state after the step that this state waits for. A step that
    /// succeeds leads to the next state of the cycle; a fault of the transport
    /// closes the connection from wherever it stands.
    #[verifier::when_used_as_spec(spec_next)]
    pub fn next(self, fault: bool) -> (r: ConnectionState)
        ensures
            r == self.spec_next(fault),
    {
        if fault {
            ConnectionState::Closed
        } else {
            match self {
                ConnectionState::Accepted => ConnectionState::Read,
                ConnectionState::Read => ConnectionState::Parsed,
                ConnectionState::Parsed => ConnectionState::Responded,
                ConnectionState::Responded => ConnectionState::Closed,
                ConnectionState::Closed => ConnectionState::Closed,
            }
        }
    }

    /// How many steps a connection in this state has before it at most.
    pub open spec fn steps_left(self) -> nat {
        match self {
            ConnectionState::Accepted => 4,
            ConnectionState::Read => 3,
            ConnectionState::Parsed => 2,
            ConnectionState::Responded => 1,
            ConnectionState::Closed => 0,
        }
    }
}

/// Every step brings a connection nearer to its end, a fault ends it at once,
/// and a closed connection stays closed: no connection serves a second request.
pub proof fn lemma_connection_closes(state: ConnectionState, fault: bool)
    ensures
        fault ==> state.next(fault) == ConnectionState::Closed,
        state != ConnectionState::Closed ==> state.next(fault).steps_left() < state.steps_left(),
        state == ConnectionState::Closed ==> state.next(fault) == ConnectionState::Closed,
        state.steps_left() == 0 <==> state == ConnectionState::Closed,
{
}

/// The response to the bytes of one read: that of the request they hold, or
/// `400 Bad Request` where they hold none.
pub open spec fn reply_to(buffer: Seq<u8>) -> ResponseModel {
    match parse_request(buffer) {
        Some(request) => response_for(request),
        None => bad_request(),
    }
}

/// A `GET` for `/echo/` and a segment, without headers, is answered with that
/// segment as the body, for every segment without whitespace and without a
/// carriage return or line feed.
pub proof fn lemma_echo_returns_segment(segment: Seq<u8>)
    requires
        forall|i: int|
            0 <= i < segment.len() ==> (#[trigger] segment[i]) != CR && segment[i] != LF
                && !spec_is_ows(segment[i]),
    ensures
        reply_to("GET /echo/".spec_bytes() + segment + " HTTP/1.1\r\n\r\n".spec_bytes())
            == ok_with(segment),
{
    let method = "GET".spec_bytes();
    let prefix = "/echo/".spec_bytes();
    let version = "HTTP/1.1".spec_bytes();
    let target = prefix + segment;
    let no_headers = Seq::<HeaderText>::empty();
    let no_body = Seq::<u8>::empty();
    let text = "GET /echo/".spec_bytes() + segment + " HTTP/1.1\r\n\r\n".spec_bytes();
    reveal_strlit("GET");
    reveal_strlit("/");
    reveal_strlit("/echo/");
    reveal_strlit("HTTP/1.1");
    reveal_strlit("GET /echo/");
    reveal_strlit(" HTTP/1.1\r\n\r\n");
    assert("GET".is_ascii() && "/".is_ascii() && "/echo/".is_ascii() && "HTTP/1.1".is_ascii());
    assert("GET /echo/".is_ascii() && " HTTP/1.1\r\n\r\n".is_ascii());
    lemma_ascii_bytes("GET");
    lemma_ascii_bytes("/");
    lemma_ascii_bytes("/echo/");
    lemma_ascii_bytes("HTTP/1.1");
    lemma_ascii_bytes("GET /echo/");
    lemma_ascii_bytes(" HTTP/1.1\r\n\r\n");
    lemma_no_crlf_without_cr(method);
    lemma_no_crlf_without_cr(version);
    lemma_no_crlf_without_cr(target);
    assert(is_token(method));
    assert(is_target(target));
    lemma_parse_request_text(method, target, version, no_headers, no_body);
    assert(text =~= request_text(method, target, version, no_headers, no_body));
    let request = parse_request(text).unwrap();
    assert(request.path == target);
    assert(!matches_root(request));
    assert(matches_echo(request)) by {
        assert(target.subrange(0, prefix.len() as int) =~= prefix);
    }
    assert(target.skip(prefix.len() as int) =~= segment);
}

/// Serves one connection: parses the bytes that were read, routes the request,
/// and returns the bytes to write before the connection closes.
pub fn handle_connection(buffer: &[u8]) -> (out: Vec<u8>)
    ensures
        out@ == reply_to(buffer@).wire(),
{
    let mut out: Vec<u8> = Vec::new();
    match HttpRequest::from_str(buffer) {
        Ok(request) => {
            let response = request.respond();
            write_response(&mut out, &response);
        },
        Err(_) => {
            let response = ResponseSpec::bad_request();
            write_response(&mut out, &response);
        },
    }
    assert(out@ =~= reply_to(buffer@).wire());
    out
}

} // verus!
