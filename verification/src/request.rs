//! The request: its borrowed view of a buffer, the grammar, and the parser.

use vstd::prelude::*;
use vstd::slice::slice_subrange;
use crate::primitives;
use vstd::string::StringSliceAdditionalSpecFns;
use crate::text::{
    colon_bytes, contains_byte, contains_ows, crlf, crlf_at, crlf_bytes, first_crlf, is_ows,
    leading_ows, leading_token, lemma_ascii_bytes, lemma_first_crlf, lemma_first_line_no_crlf,
    lemma_first_occurrence_is_first_crlf, lemma_line_then_crlf, lemma_no_crlf_concat,
    lemma_no_crlf_subrange, lemma_no_crlf_without_cr, lemma_no_occurrence_is_no_crlf,
    lemma_run_len, lemma_run_len_is, lemma_trimmed, lemma_trimmed_padded, no_crlf, non_colon,
    non_ows, ows, run_len, trim_ows, trimmed, COLON, CR, SP,
};

verus! {

/// Why a buffer holds no request.
#[derive(Debug, Clone, Copy, PartialEq, Eq)]
pub enum RequestError {
    /// The request line or the header block does not follow the grammar.
    Malformed,
}

/// A request as plain values: what a [`HttpRequest`] stands for.
pub struct RequestModel {
    pub method: Seq<u8>,
    pub path: Seq<u8>,
    pub headers: Seq<(Seq<u8>, Seq<u8>)>,
    pub body: Seq<u8>,
}

/// One request, borrowed from the buffer it was read into.
#[derive(Debug)]
pub struct HttpRequest<'a> {
    /// The method token of the request line.
    pub method: &'a [u8],
    /// The request target.
    pub path: &'a [u8],
    /// Field names and values, in the order of the wire, duplicates kept.
    pub headers: Vec<(&'a [u8], &'a [u8])>,
    /// Every byte after the blank line.
    pub body: &'a [u8],
}

/// The header list as plain values.
pub open spec fn header_views<'a>(headers: Seq<(&'a [u8], &'a [u8])>) -> Seq<(Seq<u8>, Seq<u8>)> {
    Seq::new(headers.len(), |i: int| (headers[i].0@, headers[i].1@))
}

impl<'a> View for HttpRequest<'a> {
    type V = RequestModel;

    open spec fn view(&self) -> RequestModel {
        RequestModel {
            method: self.method@,
            path: self.path@,
            headers: header_views(self.headers@),
            body: self.body@,
        }
    }
}

/// Method and target of a request line (the line without its end): the method
/// is the line up to its first whitespace, the target the next run of other
/// bytes, and whitespace must follow the target. Both are non-empty, and the
/// method holds no colon. What follows the target, the version, is not looked at.
pub open spec fn split_request_line(line: Seq<u8>) -> Option<(Seq<u8>, Seq<u8>)> {
    let m = run_len(line, non_ows()) as int;
    let after_method = line.skip(m);
    let gap = run_len(after_method, ows()) as int;
    let from_target = after_method.skip(gap);
    let t = run_len(from_target, non_ows()) as int;
    if m > 0 && !line.take(m).contains(COLON) && t > 0 && t < from_target.len() {
        Some((line.take(m), from_target.take(t)))
    } else {
        None
    }
}

/// Name and value of a header line (the line without its end): the name is the
/// line up to its first colon, non-empty and free of whitespace; the value is
/// what follows the colon, trimmed of whitespace at both ends.
pub open spec fn split_header_line(line: Seq<u8>) -> Option<(Seq<u8>, Seq<u8>)> {
    let n = run_len(line, non_colon()) as int;
    if 0 < n < line.len() && forall|i: int| 0 <= i < n ==> !is_ows(#[trigger] line[i]) {
        Some((line.take(n), trimmed(line.skip(n + 1))))
    } else {
        None
    }
}

/// The request line at the start of `s`: what follows its line end, and the
/// method and target.
pub open spec fn request_line_of(s: Seq<u8>) -> Option<(Seq<u8>, (Seq<u8>, Seq<u8>))> {
    match first_crlf(s) {
        Some(end) => match split_request_line(s.take(end)) {
            Some(words) => Some((s.skip(end + 2), words)),
            None => None,
        },
        None => None,
    }
}

/// Where the first line of `s` ends: at its first line end, or with `s`.
pub open spec fn line_end(s: Seq<u8>) -> int {
    match first_crlf(s) {
        Some(end) => end,
        None => s.len() as int,
    }
}

/// The header at the start of `s`: what follows the line (its line end
/// included), and the name and value.
pub open spec fn header_of(s: Seq<u8>) -> Option<(Seq<u8>, (Seq<u8>, Seq<u8>))> {
    match split_header_line(s.take(line_end(s))) {
        Some(field) => Some((s.skip(line_end(s)), field)),
        None => None,
    }
}

/// The headers that follow when `s` starts with a line end and a header, each
/// further one led in by a line end; and what is left, from the first line end
/// that no header follows.
pub open spec fn more_headers(s: Seq<u8>) -> (Seq<u8>, Seq<(Seq<u8>, Seq<u8>)>)
    decreases s.len(),
{
    if crlf().is_prefix_of(s) {
        match header_of(s.skip(2)) {
            Some((rest, field)) => {
                let (left, fields) = more_headers(rest);
                (left, seq![field] + fields)
            },
            None => (s, Seq::empty()),
        }
    } else {
        (s, Seq::empty())
    }
}

/// The headers at the start of `s`, separated by line ends, and what is left.
pub open spec fn headers_of(s: Seq<u8>) -> (Seq<u8>, Seq<(Seq<u8>, Seq<u8>)>) {
    match header_of(s) {
        Some((rest, field)) => {
            let (left, fields) = more_headers(rest);
            (left, seq![field] + fields)
        },
        None => (s, Seq::empty()),
    }
}

/// The header block at the start of `s`: successive lines up to the first
/// empty one, each a header; with it, the body, which is every byte after the
/// empty line. `None` where a line is no header or no empty line ends the block.
pub open spec fn header_block(s: Seq<u8>) -> Option<(Seq<(Seq<u8>, Seq<u8>)>, Seq<u8>)>
    decreases s.len(),
{
    match first_crlf(s) {
        Some(end) => if end == 0 {
            Some((Seq::empty(), s.skip(2)))
        } else {
            match split_header_line(s.take(end)) {
                Some(field) => match header_block(s.skip(end + 2)) {
                    Some((fields, body)) => Some((seq![field] + fields, body)),
                    None => None,
                },
                None => None,
            }
        },
        None => None,
    }
}

/// The request that `s` holds: a request line, a header block, and the body.
pub open spec fn parse_request(s: Seq<u8>) -> Option<RequestModel> {
    match request_line_of(s) {
        Some((rest, (method, path))) => match header_block(rest) {
            Some((headers, body)) => Some(RequestModel { method, path, headers, body }),
            None => None,
        },
        None => None,
    }
}

/// Whether every byte of `s` is whitespace.
pub open spec fn all_ows(s: Seq<u8>) -> bool {
    forall|i: int| 0 <= i < s.len() ==> is_ows(#[trigger] s[i])
}

/// What a method or a field name is: not empty, and free of whitespace, of
/// colons and of line ends.
pub open spec fn is_token(s: Seq<u8>) -> bool {
    &&& s.len() > 0
    &&& no_crlf(s)
    &&& forall|i: int| 0 <= i < s.len() ==> !is_ows(#[trigger] s[i]) && s[i] != COLON
}

/// What a target is: not empty, and free of whitespace and of line ends.
pub open spec fn is_target(s: Seq<u8>) -> bool {
    &&& s.len() > 0
    &&& no_crlf(s)
    &&& forall|i: int| 0 <= i < s.len() ==> !is_ows(#[trigger] s[i])
}

/// What a field value is: free of line ends, with no whitespace at either end.
pub open spec fn is_field_value(s: Seq<u8>) -> bool {
    &&& no_crlf(s)
    &&& s.len() > 0 ==> !is_ows(s[0]) && !is_ows(s.last())
}

/// A header as the grammar writes it: the name, the colon, whitespace, the
/// value, whitespace.
pub struct HeaderText {
    pub name: Seq<u8>,
    pub lead: Seq<u8>,
    pub value: Seq<u8>,
    pub trail: Seq<u8>,
}

impl HeaderText {
    /// The parts are what the grammar asks of them.
    pub open spec fn well_formed(self) -> bool {
        &&& is_token(self.name)
        &&& all_ows(self.lead)
        &&& is_field_value(self.value)
        &&& all_ows(self.trail)
    }

    /// The header line, without its line end.
    pub open spec fn line(self) -> Seq<u8> {
        self.name + seq![COLON] + self.lead + self.value + self.trail
    }

    /// The name and the value: what a request keeps of the header.
    pub open spec fn field(self) -> (Seq<u8>, Seq<u8>) {
        (self.name, self.value)
    }
}

/// What a request keeps of each header of a list.
pub open spec fn fields_of(headers: Seq<HeaderText>) -> Seq<(Seq<u8>, Seq<u8>)> {
    Seq::new(headers.len(), |i: int| headers[i].field())
}

/// Each field as a header in the standard form: one space before the value,
/// nothing after it.
pub open spec fn standard_headers(fields: Seq<(Seq<u8>, Seq<u8>)>) -> Seq<HeaderText> {
    Seq::new(
        fields.len(),
        |i: int|
            HeaderText { name: fields[i].0, lead: seq![SP], value: fields[i].1, trail: Seq::empty() },
    )
}

/// The request line as the grammar writes it, without its line end.
pub open spec fn request_line_text(method: Seq<u8>, target: Seq<u8>, version: Seq<u8>) -> Seq<u8> {
    method + seq![SP] + target + seq![SP] + version
}

/// The header lines, each with its line end, the empty line, and the body.
pub open spec fn header_block_text(headers: Seq<HeaderText>, body: Seq<u8>) -> Seq<u8>
    decreases headers.len(),
{
    if headers.len() == 0 {
        crlf() + body
    } else {
        headers[0].line() + crlf() + header_block_text(headers.skip(1), body)
    }
}

/// A request as the grammar writes it.
pub open spec fn request_text(
    method: Seq<u8>,
    target: Seq<u8>,
    version: Seq<u8>,
    headers: Seq<HeaderText>,
    body: Seq<u8>,
) -> Seq<u8> {
    request_line_text(method, target, version) + crlf() + header_block_text(headers, body)
}

impl RequestModel {
    /// What holds of every request that was parsed: method and target are
    /// not empty and hold no whitespace, names are tokens, values are trimmed,
    /// and no part but the body holds a line end.
    pub open spec fn well_formed(self) -> bool {
        &&& is_token(self.method)
        &&& is_target(self.path)
        &&& forall|i: int|
            0 <= i < self.headers.len() ==> is_token((#[trigger] self.headers[i]).0)
                && is_field_value(self.headers[i].1)
    }

    /// The standard serialization: single spaces in the request line, the
    /// version `HTTP/1.1`, and each header as name, colon, space, value.
    pub open spec fn text(self) -> Seq<u8> {
        request_text(
            self.method,
            self.path,
            "HTTP/1.1".spec_bytes(),
            standard_headers(self.headers),
            self.body,
        )
    }
}

/// A request line written as the grammar has it splits into its method and target.
proof fn lemma_request_line_text(method: Seq<u8>, target: Seq<u8>, version: Seq<u8>)
    requires
        is_token(method),
        is_target(target),
        no_crlf(version),
    ensures
        split_request_line(request_line_text(method, target, version)) == Some((method, target)),
        no_crlf(request_line_text(method, target, version)),
{
    let sp = seq![SP];
    let line = request_line_text(method, target, version);
    let m = method.len() as int;
    let t = target.len() as int;
    assert forall|i: int| 0 <= i < m implies non_ows().contains(#[trigger] line[i]) by {
        assert(line[i] == method[i]);
    }
    assert(line[m] == SP);
    lemma_run_len_is(line, non_ows(), m);
    let after_method = line.skip(m);
    assert(after_method =~= sp + target + sp + version);
    assert(after_method[0] == SP);
    assert(after_method[1] == target[0]);
    lemma_run_len_is(after_method, ows(), 1);
    let from_target = after_method.skip(1);
    assert(from_target =~= target + sp + version);
    assert forall|i: int| 0 <= i < t implies non_ows().contains(#[trigger] from_target[i]) by {
        assert(from_target[i] == target[i]);
    }
    assert(from_target[t] == SP);
    lemma_run_len_is(from_target, non_ows(), t);
    assert(line.take(m) =~= method);
    assert(from_target.take(t) =~= target);
    assert(!method.contains(COLON));
    lemma_no_crlf_without_cr(sp);
    lemma_no_crlf_concat(method, sp);
    lemma_no_crlf_concat(method + sp, target);
    lemma_no_crlf_concat(method + sp + target, sp);
    lemma_no_crlf_concat(method + sp + target + sp, version);
}

/// A header line written as the grammar has it splits into its name and value.
proof fn lemma_header_line_text(header: HeaderText)
    requires
        header.well_formed(),
    ensures
        split_header_line(header.line()) == Some(header.field()),
        no_crlf(header.line()),
        header.line().len() > 0,
{
    let colon = seq![COLON];
    let line = header.line();
    let n = header.name.len() as int;
    assert forall|i: int| 0 <= i < n implies non_colon().contains(#[trigger] line[i]) by {
        assert(line[i] == header.name[i]);
    }
    assert(line[n] == COLON);
    lemma_run_len_is(line, non_colon(), n);
    assert forall|i: int| 0 <= i < n implies !is_ows(#[trigger] line[i]) by {
        assert(line[i] == header.name[i]);
    }
    assert(line.take(n) =~= header.name);
    assert(line.skip(n + 1) =~= header.lead + header.value + header.trail);
    lemma_trimmed_padded(header.lead, header.value, header.trail);
    lemma_no_crlf_without_cr(colon);
    lemma_no_crlf_without_cr(header.lead);
    lemma_no_crlf_without_cr(header.trail);
    lemma_no_crlf_concat(header.name, colon);
    let a = header.name + colon;
    lemma_no_crlf_concat(a, header.lead);
    let b = a + header.lead;
    assert(b.last() != CR) by {
        if header.lead.len() > 0 {
            assert(b.last() == header.lead.last());
        } else {
            assert(b.last() == COLON);
        }
    }
    lemma_no_crlf_concat(b, header.value);
    lemma_no_crlf_concat(b + header.value, header.trail);
}

/// A header block written as the grammar has it parses to its fields and its body.
pub proof fn lemma_header_block_text(headers: Seq<HeaderText>, body: Seq<u8>)
    requires
        forall|i: int| 0 <= i < headers.len() ==> (#[trigger] headers[i]).well_formed(),
    ensures
        header_block(header_block_text(headers, body)) == Some((fields_of(headers), body)),
    decreases headers.len(),
{
    let text = header_block_text(headers, body);
    if headers.len() == 0 {
        let nothing = Seq::<u8>::empty();
        assert(text =~= nothing + crlf() + body);
        lemma_line_then_crlf(nothing, body);
        assert(fields_of(headers) =~= Seq::<(Seq<u8>, Seq<u8>)>::empty());
    } else {
        let first = headers[0];
        let others = headers.skip(1);
        let rest = header_block_text(others, body);
        lemma_header_line_text(first);
        lemma_line_then_crlf(first.line(), rest);
        assert forall|i: int| 0 <= i < others.len() implies (#[trigger] others[i]).well_formed() by {
            assert(others[i] == headers[i + 1]);
        }
        lemma_header_block_text(others, body);
        assert(seq![first.field()] + fields_of(others) =~= fields_of(headers));
    }
}

/// Every text that the grammar allows holds the request it was written from:
/// the parser returns the method, the target, each header with its name and
/// its value, without the whitespace around the value, and the body. The
/// version is any text without a line end.
pub proof fn lemma_parse_request_text(
    method: Seq<u8>,
    target: Seq<u8>,
    version: Seq<u8>,
    headers: Seq<HeaderText>,
    body: Seq<u8>,
)
    requires
        is_token(method),
        is_target(target),
        no_crlf(version),
        forall|i: int| 0 <= i < headers.len() ==> (#[trigger] headers[i]).well_formed(),
    ensures
        parse_request(request_text(method, target, version, headers, body)) == Some(
            RequestModel { method, path: target, headers: fields_of(headers), body },
        ),
{
    let line = request_line_text(method, target, version);
    let block = header_block_text(headers, body);
    lemma_request_line_text(method, target, version);
    lemma_line_then_crlf(line, block);
    lemma_header_block_text(headers, body);
}

/// The standard serialization of a well-formed request holds that request:
/// the parser gives back every part of it, byte for byte.
pub proof fn lemma_parse_text(request: RequestModel)
    requires
        request.well_formed(),
    ensures
        parse_request(request.text()) == Some(request),
{
    let version = "HTTP/1.1".spec_bytes();
    let headers = standard_headers(request.headers);
    assert(no_crlf(version)) by {
        reveal_strlit("HTTP/1.1");
        assert("HTTP/1.1".is_ascii());
        lemma_ascii_bytes("HTTP/1.1");
        lemma_no_crlf_without_cr(version);
    }
    assert forall|i: int| 0 <= i < headers.len() implies (#[trigger] headers[i]).well_formed() by {
        assert(is_token(request.headers[i].0));
    }
    lemma_parse_request_text(request.method, request.path, version, headers, request.body);
    assert(fields_of(headers) =~= request.headers);
}

/// Parsing a text of the grammar and writing the result in the standard form
/// gives the text back, but for the whitespace around the header values, which
/// becomes one space before each value and none after it. Where the headers
/// are written that way already, the text comes back byte for byte.
pub proof fn lemma_text_of_parsed(
    method: Seq<u8>,
    target: Seq<u8>,
    headers: Seq<HeaderText>,
    body: Seq<u8>,
)
    requires
        is_token(method),
        is_target(target),
        forall|i: int| 0 <= i < headers.len() ==> (#[trigger] headers[i]).well_formed(),
    ensures
        ({
            let version = "HTTP/1.1".spec_bytes();
            let written = request_text(method, target, version, headers, body);
            &&& parse_request(written) matches Some(request) && request.text() == request_text(
                method,
                target,
                version,
                standard_headers(fields_of(headers)),
                body,
            )
            &&& (forall|i: int|
                0 <= i < headers.len() ==> (#[trigger] headers[i]).lead == seq![SP]
                    && headers[i].trail == Seq::<u8>::empty()) ==> parse_request(
                written,
            ).unwrap().text() == written
        }),
{
    let version = "HTTP/1.1".spec_bytes();
    assert(no_crlf(version)) by {
        reveal_strlit("HTTP/1.1");
        assert("HTTP/1.1".is_ascii());
        lemma_ascii_bytes("HTTP/1.1");
        lemma_no_crlf_without_cr(version);
    }
    lemma_parse_request_text(method, target, version, headers, body);
    if forall|i: int|
        0 <= i < headers.len() ==> (#[trigger] headers[i]).lead == seq![SP] && headers[i].trail
            == Seq::<u8>::empty() {
        assert(standard_headers(fields_of(headers)) =~= headers);
    }
}

/// The method and the target of a request line are what the model asks of them.
proof fn lemma_request_line_well_formed(line: Seq<u8>)
    requires
        no_crlf(line),
        split_request_line(line) is Some,
    ensures
        is_token(split_request_line(line).unwrap().0),
        is_target(split_request_line(line).unwrap().1),
{
    let (method, target) = split_request_line(line).unwrap();
    let m = run_len(line, non_ows()) as int;
    lemma_run_len(line, non_ows());
    let after_method = line.skip(m);
    let gap = run_len(after_method, ows()) as int;
    lemma_run_len(after_method, ows());
    let from_target = after_method.skip(gap);
    let t = run_len(from_target, non_ows()) as int;
    lemma_run_len(from_target, non_ows());
    lemma_no_crlf_subrange(line, 0, m);
    assert forall|i: int| 0 <= i < method.len() implies !is_ows(#[trigger] method[i]) && method[i]
        != COLON by {
        assert(method[i] == line[i]);
        assert(non_ows().contains(line[i]));
    }
    assert(target =~= line.subrange(m + gap, m + gap + t));
    lemma_no_crlf_subrange(line, m + gap, m + gap + t);
    assert forall|i: int| 0 <= i < target.len() implies !is_ows(#[trigger] target[i]) by {
        assert(target[i] == from_target[i]);
        assert(non_ows().contains(from_target[i]));
    }
}

/// The name and the value of a header line are what the model asks of them.
proof fn lemma_header_line_well_formed(line: Seq<u8>)
    requires
        no_crlf(line),
        split_header_line(line) is Some,
    ensures
        is_token(split_header_line(line).unwrap().0),
        is_field_value(split_header_line(line).unwrap().1),
{
    let (name, value) = split_header_line(line).unwrap();
    let n = run_len(line, non_colon()) as int;
    lemma_run_len(line, non_colon());
    lemma_no_crlf_subrange(line, 0, n);
    assert forall|i: int| 0 <= i < name.len() implies !is_ows(#[trigger] name[i]) && name[i]
        != COLON by {
        assert(name[i] == line[i]);
        assert(non_colon().contains(line[i]));
    }
    lemma_no_crlf_subrange(line, n + 1, line.len() as int);
    lemma_trimmed(line.skip(n + 1));
}

/// The fields of a header block are what the model asks of them.
proof fn lemma_header_block_well_formed(s: Seq<u8>)
    requires
        header_block(s) is Some,
    ensures
        forall|i: int|
            0 <= i < header_block(s).unwrap().0.len() ==> is_token(
                (#[trigger] header_block(s).unwrap().0[i]).0,
            ) && is_field_value(header_block(s).unwrap().0[i].1),
    decreases s.len(),
{
    lemma_first_crlf(s);
    lemma_first_line_no_crlf(s);
    let end = first_crlf(s).unwrap();
    if end != 0 {
        let line = s.take(end);
        lemma_header_line_well_formed(line);
        lemma_header_block_well_formed(s.skip(end + 2));
        let field = split_header_line(line).unwrap();
        let others = header_block(s.skip(end + 2)).unwrap().0;
        let fields = header_block(s).unwrap().0;
        assert(fields =~= seq![field] + others);
        assert forall|i: int| 0 <= i < fields.len() implies is_token((#[trigger] fields[i]).0)
            && is_field_value(fields[i].1) by {
            if i > 0 {
                assert(fields[i] == others[i - 1]);
            }
        }
    }
}

/// Every request that the parser returns is well formed.
pub proof fn lemma_parsed_well_formed(s: Seq<u8>)
    requires
        parse_request(s) is Some,
    ensures
        parse_request(s).unwrap().well_formed(),
{
    lemma_first_crlf(s);
    lemma_first_line_no_crlf(s);
    let end = first_crlf(s).unwrap();
    lemma_request_line_well_formed(s.take(end));
    lemma_header_block_well_formed(s.skip(end + 2));
}

/// With a first header, the list of headers and the block agree: the block
/// ends where two line ends follow the last header.
proof fn lemma_more_headers_block(s: Seq<u8>)
    ensures
        ({
            let (left, fields) = more_headers(s);
            let block = if crlf().is_prefix_of(s) {
                header_block(s.skip(2))
            } else {
                None
            };
            block == if (crlf() + crlf()).is_prefix_of(left) {
                Some((fields, left.skip(4)))
            } else {
                None
            }
        }),
    decreases s.len(),
{
    let (left, fields) = more_headers(s);
    if crlf().is_prefix_of(s) {
        let t = s.skip(2);
        lemma_first_crlf(t);
        match header_of(t) {
            Some((rest, field)) => {
                match first_crlf(t) {
                    Some(end) => {
                        assert(end > 0) by {
                            if end == 0 {
                                assert(t.take(0).len() == 0);
                            }
                        }
                        assert(crlf().is_prefix_of(rest));
                        assert(rest.skip(2) =~= t.skip(end + 2));
                        lemma_more_headers_block(rest);
                        let (left2, fields2) = more_headers(rest);
                        if (crlf() + crlf()).is_prefix_of(left2) {
                            assert(header_block(t) == Some((seq![field] + fields2, left2.skip(4))));
                        }
                    },
                    None => {
                        assert(rest.len() == 0);
                        assert(more_headers(rest).0 == rest);
                    },
                }
            },
            None => {
                assert(left == s);
                assert(fields =~= Seq::<(Seq<u8>, Seq<u8>)>::empty());
                match first_crlf(t) {
                    Some(end) => {
                        if end == 0 {
                            assert((crlf() + crlf()).is_prefix_of(s));
                            assert(s.skip(4) =~= t.skip(2));
                        } else {
                            assert(!(crlf() + crlf()).is_prefix_of(s)) by {
                                if (crlf() + crlf()).is_prefix_of(s) {
                                    assert(s.subrange(0, 4) =~= crlf() + crlf());
                                    assert(s[2] == s.subrange(0, 4)[2]);
                                    assert(s[3] == s.subrange(0, 4)[3]);
                                    assert(crlf_at(t, 0));
                                }
                            }
                        }
                    },
                    None => {
                        assert(!(crlf() + crlf()).is_prefix_of(s)) by {
                            if (crlf() + crlf()).is_prefix_of(s) {
                                assert(s.subrange(0, 4) =~= crlf() + crlf());
                                assert(s[2] == s.subrange(0, 4)[2]);
                                assert(s[3] == s.subrange(0, 4)[3]);
                                assert(crlf_at(t, 0));
                            }
                        }
                    },
                }
            },
        }
    } else {
        assert(!(crlf() + crlf()).is_prefix_of(s)) by {
            if (crlf() + crlf()).is_prefix_of(s) {
                assert(s.subrange(0, 4) =~= crlf() + crlf());
                assert(s.subrange(0, 2) =~= s.subrange(0, 4).subrange(0, 2));
                assert(s.subrange(0, 2) =~= crlf());
            }
        }
    }
}

/// The list of headers and the block agree: the block ends at one line end
/// where the list is empty, and at two where it is not.
proof fn lemma_headers_block(s: Seq<u8>)
    ensures
        ({
            let (left, fields) = headers_of(s);
            header_block(s) == if fields.len() == 0 {
                if crlf().is_prefix_of(left) {
                    Some((fields, left.skip(2)))
                } else {
                    None
                }
            } else {
                if (crlf() + crlf()).is_prefix_of(left) {
                    Some((fields, left.skip(4)))
                } else {
                    None
                }
            }
        }),
{
    let (left, fields) = headers_of(s);
    lemma_first_crlf(s);
    match header_of(s) {
        Some((rest, field)) => {
            let (left2, fields2) = more_headers(rest);
            assert(fields.len() > 0);
            match first_crlf(s) {
                Some(end) => {
                    assert(end > 0) by {
                        if end == 0 {
                            assert(s.take(0).len() == 0);
                        }
                    }
                    assert(crlf().is_prefix_of(rest));
                    assert(rest.skip(2) =~= s.skip(end + 2));
                    lemma_more_headers_block(rest);
                },
                None => {
                    assert(rest.len() == 0);
                    assert(!crlf().is_prefix_of(rest));
                    assert(left.len() == 0);
                },
            }
        },
        None => {
            assert(left == s);
            assert(fields =~= Seq::<(Seq<u8>, Seq<u8>)>::empty());
            match first_crlf(s) {
                Some(end) => {
                    if end == 0 {
                        assert(crlf().is_prefix_of(s));
                    } else {
                        assert(!crlf().is_prefix_of(s)) by {
                            if crlf().is_prefix_of(s) {
                                assert(s[0] == s.subrange(0, 2)[0]);
                                assert(s[1] == s.subrange(0, 2)[1]);
                                assert(crlf_at(s, 0));
                            }
                        }
                    }
                },
                None => {
                    assert(!crlf().is_prefix_of(s)) by {
                        if crlf().is_prefix_of(s) {
                            assert(s[0] == s.subrange(0, 2)[0]);
                            assert(s[1] == s.subrange(0, 2)[1]);
                            assert(crlf_at(s, 0));
                        }
                    }
                },
            }
        },
    }
}

impl<'a> HttpRequest<'a> {
    /// Parses the request line at the start of `request_line`, its line end
    /// included, and returns what follows it with the method and the target.
    pub fn parse_request_line<'b>(request_line: &'b [u8]) -> (r: Result<
        (&'b [u8], (&'b [u8], &'b [u8])),
        RequestError,
    >)
        ensures
            match r {
                Ok((rest, (method, path))) => request_line_of(request_line@) == Some(
                    (rest@, (method@, path@)),
                ),
                Err(e) => request_line_of(request_line@) is None && e == RequestError::Malformed,
            },
    {
        let (after_line, line) = match primitives::take_until(crlf_bytes(), request_line) {
            Ok(found) => found,
            Err(_) => {
                proof {
                    lemma_no_occurrence_is_no_crlf(request_line@);
                }
                return Err(RequestError::Malformed);
            },
        };
        proof {
            lemma_first_occurrence_is_first_crlf(request_line@, line@.len() as int);
            assert(line@ =~= request_line@.take(line@.len() as int));
            assert(crlf().is_prefix_of(after_line@)) by {
                assert(after_line@ =~= request_line@.skip(line@.len() as int));
                assert(after_line@.subrange(0, 2) =~= crlf());
            }
        }
        let rest = match primitives::crlf(after_line) {
            Ok((rest, _)) => rest,
            Err(_) => {
                return Err(RequestError::Malformed);
            },
        };
        proof {
            assert(rest@ =~= request_line@.skip(line@.len() as int + 2));
        }
        let m: usize = leading_token(line);
        proof {
            lemma_run_len(line@, non_ows());
        }
        let method = slice_subrange(line, 0, m);
        let after_method = slice_subrange(line, m, line.len());
        let gap: usize = leading_ows(after_method);
        proof {
            lemma_run_len(after_method@, ows());
        }
        let from_target = slice_subrange(after_method, gap, after_method.len());
        let t: usize = leading_token(from_target);
        proof {
            lemma_run_len(from_target@, non_ows());
        }
        if m == 0 || contains_byte(method, COLON) || t == 0 || t == from_target.len() {
            return Err(RequestError::Malformed);
        }
        let path = slice_subrange(from_target, 0, t);
        Ok((rest, (method, path)))
    }

    /// Parses the headers at the start of `headers`, separated by line ends,
    /// and returns them with what follows the last one. It never fails: where
    /// no header stands at the start, the list is empty and nothing is taken.
    pub fn parse_headers<'b>(headers: &'b [u8]) -> (r: Result<
        (&'b [u8], Vec<(&'b [u8], &'b [u8])>),
        RequestError,
    >)
        ensures
            r matches Ok((rest, fields)) && headers_of(headers@) == (
                rest@,
                header_views(fields@),
            ),
    {
        let mut fields: Vec<(&'b [u8], &'b [u8])> = Vec::new();
        let mut rest: &'b [u8] = headers;
        match Self::parse_header(headers) {
            Ok((after, field)) => {
                fields.push(field);
                rest = after;
                proof {
                    assert(header_views(fields@) =~= seq![(field.0@, field.1@)]);
                }
            },
            Err(_) => {
                proof {
                    assert(header_views(fields@) =~= Seq::<(Seq<u8>, Seq<u8>)>::empty());
                }
                return Ok((headers, fields));
            },
        }
        loop
            invariant
                headers_of(headers@) == ({
                    let (left, more) = more_headers(rest@);
                    (left, header_views(fields@) + more)
                }),
            ensures
                headers_of(headers@) == (rest@, header_views(fields@)),
            decreases rest@.len(),
        {
            let after_sep = match primitives::crlf(rest) {
                Ok((after_sep, _)) => after_sep,
                Err(_) => {
                    proof {
                        assert(header_views(fields@) + Seq::<(Seq<u8>, Seq<u8>)>::empty()
                            =~= header_views(fields@));
                    }
                    break ;
                },
            };
            proof {
                assert(after_sep@ =~= rest@.skip(2));
                assert(rest@.subrange(0, 2) =~= crlf());
                lemma_first_crlf(after_sep@);
            }
            match Self::parse_header(after_sep) {
                Ok((after, field)) => {
                    let ghost before = header_views(fields@);
                    fields.push(field);
                    proof {
                        let more = more_headers(after@).1;
                        assert(header_views(fields@) =~= before.push((field.0@, field.1@)));
                        assert(before + (seq![(field.0@, field.1@)] + more) =~= header_views(
                            fields@,
                        ) + more);
                    }
                    rest = after;
                },
                Err(_) => {
                    proof {
                        assert(header_views(fields@) + Seq::<(Seq<u8>, Seq<u8>)>::empty()
                            =~= header_views(fields@));
                    }
                    break ;
                },
            }
        }
        Ok((rest, fields))
    }

    /// Parses the header at the start of `header`: the line up to the first
    /// line end, or all of `header` where it holds none. Returns what follows
    /// the line, from its line end on, with the name and the trimmed value.
    pub fn parse_header<'b>(header: &'b [u8]) -> (r: Result<
        (&'b [u8], (&'b [u8], &'b [u8])),
        RequestError,
    >)
        ensures
            match r {
                Ok((rest, (name, value))) => header_of(header@) == Some(
                    (rest@, (name@, value@)),
                ),
                Err(e) => header_of(header@) is None && e == RequestError::Malformed,
            },
    {
        let (rest, line) = match primitives::take_until(crlf_bytes(), header) {
            Ok((rest, line)) => {
                proof {
                    lemma_first_occurrence_is_first_crlf(header@, line@.len() as int);
                    assert(line@ =~= header@.take(line@.len() as int));
                    assert(rest@ =~= header@.skip(line@.len() as int));
                }
                (rest, line)
            },
            Err(_) => {
                proof {
                    lemma_no_occurrence_is_no_crlf(header@);
                    assert(header@ =~= header@.take(header@.len() as int));
                }
                (slice_subrange(header, header.len(), header.len()), header)
            },
        };
        assert(line@ == header@.take(line_end(header@)));
        assert(rest@ == header@.skip(line_end(header@)));
        let colon = colon_bytes();
        assert(colon@[0] == COLON);
        let (after_name, name) = match primitives::is_not(colon, line) {
            Ok(found) => found,
            Err(_) => {
                proof {
                    if line@.len() > 0 {
                        let k = choose|k: int| 0 <= k < colon@.len() && colon@[k] == line@[0];
                        assert(line@[0] == COLON);
                    }
                    lemma_run_len_is(line@, non_colon(), 0);
                }
                return Err(RequestError::Malformed);
            },
        };
        proof {
            let n = name@.len() as int;
            assert forall|i: int| 0 <= i < n implies non_colon().contains(#[trigger] line@[i]) by {
                assert(line@[i] == name@[i]);
                assert(!colon@.contains(name@[i]));
            }
            if n < line@.len() {
                assert(line@[n] == after_name@[0]);
                let k = choose|k: int| 0 <= k < colon@.len() && colon@[k] == after_name@[0];
                assert(line@[n] == COLON);
            }
            lemma_run_len_is(line@, non_colon(), n);
            assert(name@ =~= line@.take(n));
        }
        let raw_value = match primitives::tag(colon, after_name) {
            Ok((raw_value, _)) => raw_value,
            Err(_) => {
                proof {
                    if after_name@.len() > 0 {
                        let k = choose|k: int| 0 <= k < colon@.len() && colon@[k] == after_name@[0];
                        assert(after_name@.subrange(0, 1) =~= colon@);
                    }
                }
                return Err(RequestError::Malformed);
            },
        };
        proof {
            assert(raw_value@ =~= line@.skip(name@.len() as int + 1));
        }
        if contains_ows(name) {
            proof {
                let i = choose|i: int| 0 <= i < name@.len() && is_ows(#[trigger] name@[i]);
                assert(line@[i] == name@[i]);
            }
            return Err(RequestError::Malformed);
        }
        proof {
            assert forall|i: int| 0 <= i < name@.len() implies !is_ows(#[trigger] line@[i]) by {
                assert(line@[i] == name@[i]);
            }
        }
        let value = trim_ows(raw_value);
        Ok((rest, (name, value)))
    }

    /// The body is everything that is left: nothing follows it.
    pub fn parse_body<'b>(body: &'b [u8]) -> (r: Result<(&'b [u8], &'b [u8]), RequestError>)
        ensures
            r matches Ok((rest, all)) && rest@.len() == 0 && all@ == body@,
    {
        Ok((slice_subrange(body, body.len(), body.len()), body))
    }

    /// Parses one request from the start of `request`: the request line, the
    /// header block up to its empty line, and the body, which is every byte
    /// after that line. Fails exactly when the bytes do not follow the grammar.
    pub fn from_str(request: &'a [u8]) -> (r: Result<Self, RequestError>)
        ensures
            match r {
                Ok(parsed) => parse_request(request@) == Some(parsed@) && parsed@.well_formed(),
                Err(e) => parse_request(request@) is None && e == RequestError::Malformed,
            },
    {
        proof {
            if parse_request(request@) is Some {
                lemma_parsed_well_formed(request@);
            }
        }
        let (rest, (method, path)) = match Self::parse_request_line(request) {
            Ok(found) => found,
            Err(e) => {
                return Err(e);
            },
        };
        let (rest, headers) = match Self::parse_headers(rest) {
            Ok(found) => found,
            Err(e) => {
                return Err(e);
            },
        };
        proof {
            lemma_headers_block(request_line_of(request@).unwrap().0);
        }
        let rest = match primitives::crlf(rest) {
            Ok((rest, _)) => rest,
            Err(_) => {
                proof {
                    if (crlf() + crlf()).is_prefix_of(rest@) {
                        assert(rest@.subrange(0, 2) =~= rest@.subrange(0, 4).subrange(0, 2));
                        assert(rest@.subrange(0, 2) =~= crlf());
                    }
                }
                return Err(RequestError::Malformed);
            },
        };
        let ghost after_headers = headers_of(request_line_of(request@).unwrap().0).0;
        proof {
            assert(rest@ =~= after_headers.skip(2));
            assert(after_headers.subrange(0, 2) =~= crlf());
        }
        let rest = if headers.len() == 0 {
            rest
        } else {
            match primitives::crlf(rest) {
                Ok((rest, _)) => {
                    proof {
                        assert(rest@ =~= after_headers.skip(4));
                        assert(after_headers.subrange(0, 4) =~= crlf() + crlf());
                    }
                    rest
                },
                Err(_) => {
                    proof {
                        if (crlf() + crlf()).is_prefix_of(after_headers) {
                            assert(rest@.subrange(0, 2) =~= after_headers.subrange(0, 4).subrange(
                                2,
                                4,
                            ));
                            assert(rest@.subrange(0, 2) =~= crlf());
                        }
                    }
                    return Err(RequestError::Malformed);
                },
            }
        };
        let (_, body) = match Self::parse_body(rest) {
            Ok(found) => found,
            Err(e) => {
                return Err(e);
            },
        };
        Ok(HttpRequest { method, path, headers, body })
    }
}

} // verus!
