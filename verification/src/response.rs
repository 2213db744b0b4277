//! The response: its parts, its wire format, and the writer.

use vstd::prelude::*;
use vstd::string::StringSliceAdditionalSpecFns;
use crate::text::{crlf, crlf_bytes, SP};

verus! {

/// A response as plain values: what a [`ResponseSpec`] stands for.
pub struct ResponseModel {
    pub status_code: nat,
    pub reason_phrase: Seq<u8>,
    pub content_type: Option<Seq<u8>>,
    pub body: Seq<u8>,
}

/// What the router decides to send: status, reason, media type and body.
#[derive(Debug, Clone, Copy)]
pub struct ResponseSpec<'a> {
    /// The three-digit status code.
    pub status_code: u16,
    /// The reason phrase that follows the code on the status line.
    pub reason_phrase: &'static str,
    /// The media type of the body; `None` where the body is empty.
    pub content_type: Option<&'static str>,
    /// The body, borrowed from the request buffer.
    pub body: &'a [u8],
}

impl<'a> View for ResponseSpec<'a> {
    type V = ResponseModel;

    open spec fn view(&self) -> ResponseModel {
        ResponseModel {
            status_code: self.status_code as nat,
            reason_phrase: self.reason_phrase.spec_bytes(),
            content_type: match self.content_type {
                Some(media_type) => Some(media_type.spec_bytes()),
                None => None,
            },
            body: self.body@,
        }
    }
}

/// The decimal digits of `n`, most significant first, without leading zeros.
pub open spec fn decimal(n: nat) -> Seq<u8>
    decreases n,
{
    if n < 10 {
        seq![(48 + n) as u8]
    } else {
        decimal(n / 10).push((48 + n % 10) as u8)
    }
}

/// The number that a text of decimal digits denotes.
pub open spec fn decimal_value(digits: Seq<u8>) -> nat
    decreases digits.len(),
{
    if digits.len() == 0 {
        0
    } else {
        (10 * decimal_value(digits.drop_last()) + (digits.last() - 48)) as nat
    }
}

impl ResponseModel {
    /// An empty body carries no media type.
    pub open spec fn well_formed(self) -> bool {
        self.body.len() == 0 ==> self.content_type is None
    }

    /// `HTTP/1.1`, the code and the reason phrase, with the line end.
    pub open spec fn status_line(self) -> Seq<u8> {
        "HTTP/1.1 ".spec_bytes() + decimal(self.status_code) + seq![SP] + self.reason_phrase
            + crlf()
    }

    /// The `Content-Type` line, or nothing where there is no media type.
    pub open spec fn content_type_line(self) -> Seq<u8> {
        match self.content_type {
            Some(media_type) => "Content-Type: ".spec_bytes() + media_type + crlf(),
            None => Seq::empty(),
        }
    }

    /// The `Content-Length` line: the length of the body in decimal.
    pub open spec fn content_length_line(self) -> Seq<u8> {
        "Content-Length: ".spec_bytes() + decimal(self.body.len()) + crlf()
    }

    /// Everything before the body: the status line, the two header lines in
    /// their fixed order, and the empty line.
    pub open spec fn head(self) -> Seq<u8> {
        self.status_line() + self.content_type_line() + self.content_length_line() + crlf()
    }

    /// The response on the wire: the head, then the body and nothing after it.
    pub open spec fn wire(self) -> Seq<u8> {
        self.head() + self.body
    }
}

/// The digits of a number denote that number, and are digits.
pub proof fn lemma_decimal_value(n: nat)
    ensures
        decimal_value(decimal(n)) == n,
        decimal(n).len() > 0,
        forall|i: int| 0 <= i < decimal(n).len() ==> 48 <= #[trigger] decimal(n)[i] <= 57,
    decreases n,
{
    if n < 10 {
        let d = decimal(n);
        assert(d.drop_last().len() == 0);
        assert(decimal_value(d.drop_last()) == 0);
    } else {
        lemma_decimal_value(n / 10);
        let d = decimal(n);
        assert(d.drop_last() =~= decimal(n / 10));
        assert(d.last() == (48 + n % 10) as u8);
    }
}

/// The body of a response is what follows its head, to the last byte, and the
/// `Content-Length` line of the head holds, in decimal, the number of bytes of
/// the body: the digits written denote exactly that number.
pub proof fn lemma_content_length_frames_body(response: ResponseModel)
    ensures
        response.wire() == response.status_line() + response.content_type_line()
            + "Content-Length: ".spec_bytes() + decimal(response.body.len()) + crlf() + crlf()
            + response.body,
        decimal_value(decimal(response.body.len())) == response.body.len(),
        response.wire().len() == response.head().len() + response.body.len(),
        response.wire().skip(response.head().len() as int) == response.body,
{
    lemma_decimal_value(response.body.len());
    assert(response.wire().skip(response.head().len() as int) =~= response.body);
    assert(response.wire() =~= response.status_line() + response.content_type_line()
        + "Content-Length: ".spec_bytes() + decimal(response.body.len()) + crlf() + crlf()
        + response.body);
}

/// Appends `bytes` to `out`.
pub fn append(out: &mut Vec<u8>, bytes: &[u8])
    ensures
        final(out)@ == old(out)@ + bytes@,
{
    out.extend_from_slice(bytes);
    assert(out@ =~= old(out)@ + bytes@);
}

/// Appends the decimal digits of `n` to `out`.
pub fn push_decimal(out: &mut Vec<u8>, n: usize)
    ensures
        final(out)@ == old(out)@ + decimal(n as nat),
    decreases n,
{
    if n >= 10 {
        push_decimal(out, n / 10);
    }
    let digit: u8 = 48 + (n % 10) as u8;
    out.push(digit);
    assert(out@ =~= old(out)@ + decimal(n as nat));
}

impl<'a> ResponseSpec<'a> {
    /// `200 OK` with `body`, as `text/plain` unless the body is empty.
    pub fn ok(body: &'a [u8]) -> (r: Self)
        ensures
            r@ == ok_with(body@),
    {
        let content_type = if body.len() > 0 {
            Some("text/plain")
        } else {
            None
        };
        ResponseSpec { status_code: 200, reason_phrase: "OK", content_type, body }
    }

    /// `404 Not Found`, without a body.
    pub fn not_found() -> (r: Self)
        ensures
            r@ == not_found(),
    {
        ResponseSpec {
            status_code: 404,
            reason_phrase: "Not Found",
            content_type: None,
            body: no_bytes(),
        }
    }

    /// `400 Bad Request`, without a body.
    pub fn bad_request() -> (r: Self)
        ensures
            r@ == bad_request(),
    {
        ResponseSpec {
            status_code: 400,
            reason_phrase: "Bad Request",
            content_type: None,
            body: no_bytes(),
        }
    }

    /// The response in its wire format.
    pub fn to_bytes(&self) -> (out: Vec<u8>)
        ensures
            out@ == self@.wire(),
    {
        let mut out: Vec<u8> = Vec::new();
        write_response(&mut out, self);
        assert(out@ =~= self@.wire());
        out
    }
}

/// An empty slice.
pub fn no_bytes() -> (r: &'static [u8])
    ensures
        r@ == Seq::<u8>::empty(),
{
    let r = "".as_bytes();
    proof {
        reveal_strlit("");
        assert("".is_ascii());
        vstd::string::is_ascii_spec_bytes("");
        assert(r@ =~= Seq::<u8>::empty());
    }
    r
}

/// `200 OK` with `body`, as `text/plain` unless the body is empty.
pub open spec fn ok_with(body: Seq<u8>) -> ResponseModel {
    ResponseModel {
        status_code: 200,
        reason_phrase: "OK".spec_bytes(),
        content_type: if body.len() > 0 {
            Some("text/plain".spec_bytes())
        } else {
            None
        },
        body,
    }
}

/// `404 Not Found`, without a body.
pub open spec fn not_found() -> ResponseModel {
    ResponseModel {
        status_code: 404,
        reason_phrase: "Not Found".spec_bytes(),
        content_type: None,
        body: Seq::empty(),
    }
}

/// `400 Bad Request`, without a body.
pub open spec fn bad_request() -> ResponseModel {
    ResponseModel {
        status_code: 400,
        reason_phrase: "Bad Request".spec_bytes(),
        content_type: None,
        body: Seq::empty(),
    }
}

/// Writes `response` to `out` in its wire format: the status line, the
/// `Content-Type` line where the response carries a media type, the
/// `Content-Length` line, the empty line, and the body.
pub fn write_response(out: &mut Vec<u8>, response: &ResponseSpec)
    ensures
        final(out)@ == old(out)@ + response@.wire(),
{
    append(out, "HTTP/1.1 ".as_bytes());
    push_decimal(out, response.status_code as usize);
    out.push(SP);
    append(out, response.reason_phrase.as_bytes());
    append(out, crlf_bytes());
    assert(out@ =~= old(out)@ + response@.status_line());
    match response.content_type {
        Some(media_type) => {
            append(out, "Content-Type: ".as_bytes());
            append(out, media_type.as_bytes());
            append(out, crlf_bytes());
        },
        None => {},
    }
    assert(out@ =~= old(out)@ + response@.status_line() + response@.content_type_line());
    append(out, "Content-Length: ".as_bytes());
    push_decimal(out, response.body.len());
    append(out, crlf_bytes());
    assert(out@ =~= old(out)@ + response@.status_line() + response@.content_type_line()
        + response@.content_length_line());
    append(out, crlf_bytes());
    append(out, response.body);
    assert(out@ =~= old(out)@ + response@.wire());
}

} // verus!
