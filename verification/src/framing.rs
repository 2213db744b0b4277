//! What the recipient of a response can rely on: the head reads as lines, and
//! the length it announces is the length of the body that follows.

use vstd::prelude::*;
use vstd::string::StringSliceAdditionalSpecFns;
use crate::request::{
    fields_of, header_block, header_block_text, is_field_value, is_token,
    lemma_header_block_text, HeaderText,
};
use crate::response::{decimal, decimal_value, lemma_decimal_value, ResponseModel};
use crate::router::lookup;
use crate::text::{
    crlf, eq_ignore_ascii_case, first_crlf, lemma_ascii_bytes, lemma_line_then_crlf,
    lemma_no_crlf_concat, lemma_no_crlf_without_cr, no_crlf, SP,
};

verus! {

/// The header lines of a response, as headers of the grammar.
pub open spec fn response_headers(response: ResponseModel) -> Seq<HeaderText> {
    let length = HeaderText {
        name: "Content-Length".spec_bytes(),
        lead: seq![SP],
        value: decimal(response.body.len()),
        trail: Seq::empty(),
    };
    match response.content_type {
        Some(media_type) => seq![
            HeaderText {
                name: "Content-Type".spec_bytes(),
                lead: seq![SP],
                value: media_type,
                trail: Seq::empty(),
            },
            length,
        ],
        None => seq![length],
    }
}

/// A response whose reason phrase holds no line end, and whose media type is
/// a field value, reads back as it was meant. Its first line is the status
/// line. What follows is a header block that ends at the empty line, and the
/// bytes after that line are the body and nothing else. Among the headers,
/// `Content-Length` is found, and its digits denote the length of the body.
pub proof fn lemma_response_reads_back(response: ResponseModel)
    requires
        no_crlf(response.reason_phrase),
        match response.content_type {
            Some(media_type) => is_field_value(media_type),
            None => true,
        },
    ensures
        first_crlf(response.wire()) == Some(response.status_line().len() - 2),
        header_block(response.wire().skip(response.status_line().len() as int)) == Some(
            (fields_of(response_headers(response)), response.body),
        ),
        lookup(fields_of(response_headers(response)), "Content-Length".spec_bytes()) == Some(
            decimal(response.body.len()),
        ),
        decimal_value(decimal(response.body.len())) == response.body.len(),
{
    let sp = seq![SP];
    let protocol = "HTTP/1.1 ".spec_bytes();
    let code = decimal(response.status_code);
    let digits = decimal(response.body.len());
    let media_name = "Content-Type".spec_bytes();
    let length_name = "Content-Length".spec_bytes();
    reveal_strlit("HTTP/1.1 ");
    reveal_strlit("Content-Type");
    reveal_strlit("Content-Type: ");
    reveal_strlit("Content-Length");
    reveal_strlit("Content-Length: ");
    assert("HTTP/1.1 ".is_ascii() && "Content-Type".is_ascii() && "Content-Type: ".is_ascii());
    assert("Content-Length".is_ascii() && "Content-Length: ".is_ascii());
    lemma_ascii_bytes("HTTP/1.1 ");
    lemma_ascii_bytes("Content-Type");
    lemma_ascii_bytes("Content-Type: ");
    lemma_ascii_bytes("Content-Length");
    lemma_ascii_bytes("Content-Length: ");
    lemma_decimal_value(response.status_code);
    lemma_decimal_value(response.body.len());

    // The status line holds no line end before its own.
    let line = protocol + code + sp + response.reason_phrase;
    lemma_no_crlf_without_cr(protocol);
    lemma_no_crlf_without_cr(code);
    lemma_no_crlf_without_cr(sp);
    lemma_no_crlf_concat(protocol, code);
    lemma_no_crlf_concat(protocol + code, sp);
    lemma_no_crlf_concat(protocol + code + sp, response.reason_phrase);

    // The header lines are headers of the grammar.
    let headers = response_headers(response);
    lemma_no_crlf_without_cr(media_name);
    lemma_no_crlf_without_cr(length_name);
    lemma_no_crlf_without_cr(digits);
    assert(is_token(media_name));
    assert(is_token(length_name));
    assert(is_field_value(digits));
    let length = HeaderText { name: length_name, lead: sp, value: digits, trail: Seq::empty() };
    assert(length.well_formed());
    assert(length.line() =~= "Content-Length: ".spec_bytes() + digits);
    assert(eq_ignore_ascii_case(length_name, length_name));
    let block = header_block_text(headers, response.body);
    let last = header_block_text(Seq::<HeaderText>::empty(), response.body);
    assert(last == crlf() + response.body);
    match response.content_type {
        Some(media_type) => {
            let first = HeaderText {
                name: media_name,
                lead: sp,
                value: media_type,
                trail: Seq::empty(),
            };
            assert(first.well_formed());
            assert(first.line() =~= "Content-Type: ".spec_bytes() + media_type);
            assert(headers.skip(1) =~= seq![length]);
            assert(headers.skip(1).skip(1) =~= Seq::<HeaderText>::empty());
            let second = header_block_text(headers.skip(1), response.body);
            assert(second == length.line() + crlf() + last);
            assert(block == first.line() + crlf() + second);
            assert(block =~= response.content_type_line() + response.content_length_line()
                + crlf() + response.body);
            assert(!eq_ignore_ascii_case(media_name, length_name));
            assert(fields_of(headers).skip(1) =~= seq![(length_name, digits)]);
            assert(fields_of(headers)[0] == (media_name, media_type));
            assert(fields_of(headers).skip(1)[0] == (length_name, digits));
            assert(lookup(fields_of(headers).skip(1), length_name) == Some(digits));
        },
        None => {
            assert(headers.skip(1) =~= Seq::<HeaderText>::empty());
            assert(block == length.line() + crlf() + last);
            assert(block =~= response.content_type_line() + response.content_length_line()
                + crlf() + response.body);
            assert(fields_of(headers)[0] == (length_name, digits));
        },
    }
    lemma_header_block_text(headers, response.body);
    lemma_line_then_crlf(line, block);
    assert(response.status_line() =~= line + crlf());
    assert(response.wire() =~= line + crlf() + block);
}

} // verus!
