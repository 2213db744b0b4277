//! Byte-level vocabulary of the wire format: delimiters, optional whitespace,
//! runs of bytes, line ends and ASCII case folding.

use vstd::prelude::*;
use vstd::slice::slice_subrange;
use vstd::string::{is_ascii_spec_bytes, StringSliceAdditionalSpecFns};

verus! {

/// Carriage return.
pub const CR: u8 = 13;

/// Line feed.
pub const LF: u8 = 10;

/// Space.
pub const SP: u8 = 32;

/// Horizontal tab.
pub const HTAB: u8 = 9;

/// The colon that ends a field name.
pub const COLON: u8 = 58;

/// The two bytes that end a line.
pub open spec fn crlf() -> Seq<u8> {
    seq![CR, LF]
}

/// The two bytes that end a line, as a slice.
pub fn crlf_bytes() -> (r: &'static [u8])
    ensures
        r@ == crlf(),
{
    let r = "\r\n".as_bytes();
    proof {
        reveal_strlit("\r\n");
        assert("\r\n".is_ascii());
        is_ascii_spec_bytes("\r\n");
        assert(r@ =~= crlf());
    }
    r
}

/// The colon, as a slice of one byte.
pub fn colon_bytes() -> (r: &'static [u8])
    ensures
        r@ == seq![COLON],
{
    let r = ":".as_bytes();
    proof {
        reveal_strlit(":");
        assert(":".is_ascii());
        is_ascii_spec_bytes(":");
        assert(r@ =~= seq![COLON]);
    }
    r
}

/// Whether `b` is optional whitespace: a space or a horizontal tab.
pub open spec fn spec_is_ows(b: u8) -> bool {
    b == SP || b == HTAB
}

/// Whether `b` is optional whitespace: a space or a horizontal tab.
#[verifier::when_used_as_spec(spec_is_ows)]
pub fn is_ows(b: u8) -> (r: bool)
    ensures
        r == spec_is_ows(b),
{
    b == SP || b == HTAB
}

/// The whitespace bytes.
pub open spec fn ows() -> Set<u8> {
    Set::new(|b: u8| is_ows(b))
}

/// Every byte that is not whitespace.
pub open spec fn non_ows() -> Set<u8> {
    Set::new(|b: u8| !is_ows(b))
}

/// Every byte but the colon.
pub open spec fn non_colon() -> Set<u8> {
    Set::new(|b: u8| b != COLON)
}

/// Whether `p` stands in `s` at index `i`.
pub open spec fn occurs_at(s: Seq<u8>, p: Seq<u8>, i: int) -> bool {
    0 <= i && i + p.len() <= s.len() && s.subrange(i, i + p.len()) == p
}

/// Whether `i` is the first index at which `p` stands in `s`.
pub open spec fn first_occurrence(s: Seq<u8>, p: Seq<u8>, i: int) -> bool {
    occurs_at(s, p, i) && forall|j: int| 0 <= j < i ==> !occurs_at(s, p, j)
}

/// Whether a line end starts at index `i` of `s`.
pub open spec fn crlf_at(s: Seq<u8>, i: int) -> bool {
    0 <= i && i + 1 < s.len() && s[i] == CR && s[i + 1] == LF
}

/// Whether `s` holds no line end.
pub open spec fn no_crlf(s: Seq<u8>) -> bool {
    forall|i: int| !crlf_at(s, i)
}

/// Whether the first line end of `s` starts at index `i`.
pub open spec fn is_first_crlf(s: Seq<u8>, i: int) -> bool {
    crlf_at(s, i) && forall|j: int| 0 <= j < i ==> !crlf_at(s, j)
}

/// Where the first line end of `s` starts, if `s` holds one.
pub open spec fn first_crlf(s: Seq<u8>) -> Option<int> {
    if exists|i: int| is_first_crlf(s, i) {
        Some(choose|i: int| is_first_crlf(s, i))
    } else {
        None
    }
}

/// How many bytes at the start of `s` belong to `set`.
pub open spec fn run_len(s: Seq<u8>, set: Set<u8>) -> nat
    decreases s.len(),
{
    if s.len() > 0 && set.contains(s[0]) {
        1 + run_len(s.skip(1), set)
    } else {
        0
    }
}

/// How many bytes at the end of `s` belong to `set`.
pub open spec fn tail_run_len(s: Seq<u8>, set: Set<u8>) -> nat
    decreases s.len(),
{
    if s.len() > 0 && set.contains(s.last()) {
        1 + tail_run_len(s.drop_last(), set)
    } else {
        0
    }
}

/// `s` without the whitespace at its start and at its end.
pub open spec fn trimmed(s: Seq<u8>) -> Seq<u8> {
    let t = s.skip(run_len(s, ows()) as int);
    t.take(t.len() - tail_run_len(t, ows()))
}

/// An upper-case ASCII letter becomes its lower-case form; any other byte stays.
pub open spec fn spec_to_ascii_lower(b: u8) -> u8 {
    if 65 <= b <= 90 {
        (b + 32) as u8
    } else {
        b
    }
}

/// An upper-case ASCII letter becomes its lower-case form; any other byte stays.
#[verifier::when_used_as_spec(spec_to_ascii_lower)]
pub fn to_ascii_lower(b: u8) -> (r: u8)
    ensures
        r == spec_to_ascii_lower(b),
{
    if 65 <= b && b <= 90 {
        b + 32
    } else {
        b
    }
}

/// Whether `a` and `b` are equal once ASCII letters are folded to one case.
pub open spec fn eq_ignore_ascii_case(a: Seq<u8>, b: Seq<u8>) -> bool {
    a.len() == b.len() && forall|i: int|
        0 <= i < a.len() ==> to_ascii_lower(#[trigger] a[i]) == to_ascii_lower(b[i])
}

/// The bytes of an ASCII text are its characters, one byte each.
pub proof fn lemma_ascii_bytes(text: &str)
    requires
        text.is_ascii(),
    ensures
        text.spec_bytes().len() == text@.len(),
        forall|i: int| 0 <= i < text@.len() ==> #[trigger] text.spec_bytes()[i] == text@[i] as u8,
{
    is_ascii_spec_bytes(text);
}

/// A part of a text without a line end holds none.
pub proof fn lemma_no_crlf_subrange(s: Seq<u8>, from: int, to: int)
    requires
        no_crlf(s),
        0 <= from <= to <= s.len(),
    ensures
        no_crlf(s.subrange(from, to)),
{
    let part = s.subrange(from, to);
    assert forall|i: int| !crlf_at(part, i) by {
        if crlf_at(part, i) {
            assert(part[i] == s[from + i] && part[i + 1] == s[from + i + 1]);
            assert(crlf_at(s, from + i));
        }
    }
}

/// The first line of a text, without its line end, holds no line end.
pub proof fn lemma_first_line_no_crlf(s: Seq<u8>)
    ensures
        match first_crlf(s) {
            Some(end) => no_crlf(s.take(end)),
            None => no_crlf(s),
        },
{
    lemma_first_crlf(s);
    match first_crlf(s) {
        Some(end) => {
            let line = s.take(end);
            assert forall|i: int| !crlf_at(line, i) by {
                if crlf_at(line, i) {
                    assert(line[i] == s[i] && line[i + 1] == s[i + 1]);
                    assert(crlf_at(s, i));
                }
            }
        },
        None => {},
    }
}

/// A line end in the index form is an occurrence of the two bytes, and back.
pub proof fn lemma_crlf_occurs(s: Seq<u8>, i: int)
    ensures
        occurs_at(s, crlf(), i) <==> crlf_at(s, i),
{
    if occurs_at(s, crlf(), i) {
        let sub = s.subrange(i, i + 2);
        assert(sub[0] == s[i]);
        assert(sub[1] == s[i + 1]);
    }
    if crlf_at(s, i) {
        assert(s.subrange(i, i + 2) =~= crlf());
    }
}

/// The first occurrence of the two bytes is the first line end.
pub proof fn lemma_first_occurrence_is_first_crlf(s: Seq<u8>, i: int)
    requires
        first_occurrence(s, crlf(), i),
    ensures
        is_first_crlf(s, i),
        first_crlf(s) == Some(i),
{
    lemma_crlf_occurs(s, i);
    assert forall|j: int| 0 <= j < i implies !crlf_at(s, j) by {
        lemma_crlf_occurs(s, j);
    }
    lemma_first_crlf_unique(s, i);
}

/// Where the two bytes occur nowhere, there is no line end.
pub proof fn lemma_no_occurrence_is_no_crlf(s: Seq<u8>)
    requires
        forall|i: int| !occurs_at(s, crlf(), i),
    ensures
        no_crlf(s),
        first_crlf(s) is None,
{
    assert forall|i: int| !crlf_at(s, i) by {
        lemma_crlf_occurs(s, i);
    }
}

/// The first line end is unique.
pub proof fn lemma_first_crlf_unique(s: Seq<u8>, i: int)
    requires
        is_first_crlf(s, i),
    ensures
        first_crlf(s) == Some(i),
{
    let j = choose|j: int| is_first_crlf(s, j);
    assert(is_first_crlf(s, j));
    assert(!(j < i));
    assert(!(i < j));
}

/// What `first_crlf` returns is the first line end, and `None` means there is none.
pub proof fn lemma_first_crlf(s: Seq<u8>)
    ensures
        match first_crlf(s) {
            Some(i) => is_first_crlf(s, i) && 0 <= i && i + 2 <= s.len(),
            None => no_crlf(s),
        },
{
    if first_crlf(s) is None {
        assert forall|i: int| !crlf_at(s, i) by {
            if crlf_at(s, i) {
                lemma_earliest_crlf(s, i);
            }
        }
    }
}

/// A line end at `i` means that a first line end exists at or before `i`.
proof fn lemma_earliest_crlf(s: Seq<u8>, i: int)
    requires
        crlf_at(s, i),
    ensures
        exists|k: int| is_first_crlf(s, k) && k <= i,
    decreases i,
{
    if exists|j: int| 0 <= j < i && crlf_at(s, j) {
        let j = choose|j: int| 0 <= j < i && crlf_at(s, j);
        lemma_earliest_crlf(s, j);
    } else {
        assert(is_first_crlf(s, i));
    }
}

/// A line without a line end, followed by one, ends there.
pub proof fn lemma_line_then_crlf(line: Seq<u8>, rest: Seq<u8>)
    requires
        no_crlf(line),
    ensures
        first_crlf(line + crlf() + rest) == Some(line.len() as int),
        (line + crlf() + rest).take(line.len() as int) == line,
        (line + crlf() + rest).skip(line.len() as int + 2) == rest,
{
    let s = line + crlf() + rest;
    let n = line.len() as int;
    assert(s[n] == CR);
    assert(s[n + 1] == LF);
    assert forall|j: int| 0 <= j < n implies !crlf_at(s, j) by {
        if j + 1 < n {
            assert(s[j] == line[j] && s[j + 1] == line[j + 1]);
            assert(!crlf_at(line, j));
        }
    }
    lemma_first_crlf_unique(s, n);
    assert(s.take(n) =~= line);
    assert(s.skip(n + 2) =~= rest);
}

/// Two texts without a line end, joined where no line end can form, hold none.
pub proof fn lemma_no_crlf_concat(a: Seq<u8>, b: Seq<u8>)
    requires
        no_crlf(a),
        no_crlf(b),
        a.len() > 0 && b.len() > 0 ==> !(a.last() == CR && b[0] == LF),
    ensures
        no_crlf(a + b),
{
    let s = a + b;
    assert forall|i: int| !crlf_at(s, i) by {
        if crlf_at(s, i) {
            if i + 1 < a.len() {
                assert(crlf_at(a, i));
            } else if i >= a.len() {
                assert(crlf_at(b, i - a.len()));
            } else {
                assert(s[i] == a.last());
                assert(s[i + 1] == b[0]);
            }
        }
    }
}

/// A text that holds neither of the two bytes of a line end holds no line end.
pub proof fn lemma_no_crlf_without_cr(s: Seq<u8>)
    requires
        forall|i: int| 0 <= i < s.len() ==> s[i] != CR,
    ensures
        no_crlf(s),
{
}

/// What `run_len` returns: the run lies inside `s`, every byte of it belongs
/// to `set`, and the byte after it, if there is one, does not.
pub proof fn lemma_run_len(s: Seq<u8>, set: Set<u8>)
    ensures
        run_len(s, set) <= s.len(),
        forall|i: int| 0 <= i < run_len(s, set) ==> set.contains(#[trigger] s[i]),
        run_len(s, set) < s.len() ==> !set.contains(s[run_len(s, set) as int]),
    decreases s.len(),
{
    if s.len() > 0 && set.contains(s[0]) {
        let t = s.skip(1);
        lemma_run_len(t, set);
        assert forall|i: int| 0 <= i < run_len(s, set) implies set.contains(#[trigger] s[i]) by {
            if i > 0 {
                assert(s[i] == t[i - 1]);
            }
        }
        if run_len(s, set) < s.len() {
            assert(s[run_len(s, set) as int] == t[run_len(t, set) as int]);
        }
    }
}

/// A run that cannot be extended is the run that `run_len` measures.
pub proof fn lemma_run_len_is(s: Seq<u8>, set: Set<u8>, n: int)
    requires
        0 <= n <= s.len(),
        forall|i: int| 0 <= i < n ==> set.contains(#[trigger] s[i]),
        n < s.len() ==> !set.contains(s[n]),
    ensures
        run_len(s, set) == n,
    decreases s.len(),
{
    if n > 0 {
        let t = s.skip(1);
        assert forall|i: int| 0 <= i < n - 1 implies set.contains(#[trigger] t[i]) by {
            assert(t[i] == s[i + 1]);
        }
        if n - 1 < t.len() {
            assert(t[n - 1] == s[n]);
        }
        lemma_run_len_is(t, set, n - 1);
    }
}

/// What `tail_run_len` returns, as `lemma_run_len` says it of `run_len`.
pub proof fn lemma_tail_run_len(s: Seq<u8>, set: Set<u8>)
    ensures
        tail_run_len(s, set) <= s.len(),
        forall|i: int| s.len() - tail_run_len(s, set) <= i < s.len() ==> set.contains(#[trigger] s[i]),
        tail_run_len(s, set) < s.len() ==> !set.contains(s[s.len() - tail_run_len(s, set) - 1]),
    decreases s.len(),
{
    if s.len() > 0 && set.contains(s.last()) {
        let t = s.drop_last();
        lemma_tail_run_len(t, set);
        assert forall|i: int| s.len() - tail_run_len(s, set) <= i < s.len() implies set.contains(
            #[trigger] s[i],
        ) by {
            if i < s.len() - 1 {
                assert(s[i] == t[i]);
            }
        }
        if tail_run_len(s, set) < s.len() {
            assert(s[s.len() - tail_run_len(s, set) - 1] == t[t.len() - tail_run_len(t, set) - 1]);
        }
    }
}

/// A run at the end that cannot be extended is the run that `tail_run_len` measures.
pub proof fn lemma_tail_run_len_is(s: Seq<u8>, set: Set<u8>, n: int)
    requires
        0 <= n <= s.len(),
        forall|i: int| s.len() - n <= i < s.len() ==> set.contains(#[trigger] s[i]),
        n < s.len() ==> !set.contains(s[s.len() - n - 1]),
    ensures
        tail_run_len(s, set) == n,
    decreases s.len(),
{
    if n > 0 {
        let t = s.drop_last();
        assert forall|i: int| t.len() - (n - 1) <= i < t.len() implies set.contains(#[trigger] t[i]) by {
            assert(t[i] == s[i]);
        }
        if n - 1 < t.len() {
            assert(t[t.len() - (n - 1) - 1] == s[s.len() - n - 1]);
        }
        lemma_tail_run_len_is(t, set, n - 1);
    }
}

/// Whitespace, then a text that neither starts nor ends with whitespace, then
/// whitespace: trimming leaves the text.
pub proof fn lemma_trimmed_padded(lead: Seq<u8>, text: Seq<u8>, trail: Seq<u8>)
    requires
        forall|i: int| 0 <= i < lead.len() ==> is_ows(#[trigger] lead[i]),
        forall|i: int| 0 <= i < trail.len() ==> is_ows(#[trigger] trail[i]),
        text.len() > 0 ==> !is_ows(text[0]) && !is_ows(text.last()),
    ensures
        trimmed(lead + text + trail) == text,
{
    let s = lead + text + trail;
    if text.len() == 0 {
        assert forall|i: int| 0 <= i < s.len() implies ows().contains(#[trigger] s[i]) by {
            if i < lead.len() {
                assert(s[i] == lead[i]);
            } else {
                assert(s[i] == trail[i - lead.len()]);
            }
        }
        lemma_run_len_is(s, ows(), s.len() as int);
        let t = s.skip(s.len() as int);
        lemma_tail_run_len_is(t, ows(), 0);
        assert(trimmed(s) =~= text);
    } else {
        let n = lead.len() as int;
        assert forall|i: int| 0 <= i < n implies ows().contains(#[trigger] s[i]) by {
            assert(s[i] == lead[i]);
        }
        assert(s[n] == text[0]);
        lemma_run_len_is(s, ows(), n);
        let t = s.skip(n);
        assert(t =~= text + trail);
        let k = trail.len() as int;
        assert forall|i: int| t.len() - k <= i < t.len() implies ows().contains(#[trigger] t[i]) by {
            assert(t[i] == trail[i - text.len()]);
        }
        assert(t[t.len() - k - 1] == text.last());
        lemma_tail_run_len_is(t, ows(), k);
        assert(trimmed(s) =~= text);
    }
}

/// A trimmed text neither starts nor ends with whitespace, and trimming adds no line end.
pub proof fn lemma_trimmed(s: Seq<u8>)
    ensures
        trimmed(s).len() > 0 ==> !is_ows(trimmed(s)[0]) && !is_ows(trimmed(s).last()),
        no_crlf(s) ==> no_crlf(trimmed(s)),
{
    let a = run_len(s, ows()) as int;
    lemma_run_len(s, ows());
    let t = s.skip(a);
    let b = tail_run_len(t, ows()) as int;
    lemma_tail_run_len(t, ows());
    let r = trimmed(s);
    if r.len() > 0 {
        assert(r[0] == s[a]);
        assert(r.last() == t[t.len() - b - 1]);
    }
    if no_crlf(s) {
        assert forall|i: int| !crlf_at(r, i) by {
            if crlf_at(r, i) {
                assert(r[i] == s[a + i] && r[i + 1] == s[a + i + 1]);
                assert(crlf_at(s, a + i));
            }
        }
    }
}

/// The number of whitespace bytes at the start of `s`.
pub fn leading_ows(s: &[u8]) -> (n: usize)
    ensures
        n == run_len(s@, ows()),
{
    let mut i: usize = 0;
    while i < s.len() && is_ows(s[i])
        invariant
            i <= s@.len(),
            forall|k: int| 0 <= k < i ==> ows().contains(#[trigger] s@[k]),
        decreases s@.len() - i,
    {
        i += 1;
    }
    proof {
        lemma_run_len_is(s@, ows(), i as int);
    }
    i
}

/// The number of bytes at the start of `s` before its first whitespace byte.
pub fn leading_token(s: &[u8]) -> (n: usize)
    ensures
        n == run_len(s@, non_ows()),
{
    let mut i: usize = 0;
    while i < s.len() && !is_ows(s[i])
        invariant
            i <= s@.len(),
            forall|k: int| 0 <= k < i ==> non_ows().contains(#[trigger] s@[k]),
        decreases s@.len() - i,
    {
        i += 1;
    }
    proof {
        lemma_run_len_is(s@, non_ows(), i as int);
    }
    i
}

/// `s` without the whitespace at its start and at its end.
pub fn trim_ows<'a>(s: &'a [u8]) -> (r: &'a [u8])
    ensures
        r@ == trimmed(s@),
{
    let start: usize = leading_ows(s);
    proof {
        lemma_run_len(s@, ows());
    }
    let mut end: usize = s.len();
    while end > start && is_ows(s[end - 1])
        invariant
            start <= end <= s@.len(),
            forall|k: int| end <= k < s@.len() ==> ows().contains(#[trigger] s@[k]),
        decreases end,
    {
        end -= 1;
    }
    proof {
        let t = s@.skip(start as int);
        let n = s@.len() - end;
        assert forall|k: int| t.len() - n <= k < t.len() implies ows().contains(#[trigger] t[k]) by {
            assert(t[k] == s@[k + start]);
        }
        if n < t.len() {
            assert(t[t.len() - n - 1] == s@[end - 1]);
        }
        lemma_tail_run_len_is(t, ows(), n);
        assert(s@.subrange(start as int, end as int) =~= trimmed(s@));
    }
    slice_subrange(s, start, end)
}

/// Whether `s` holds the byte `b`.
pub fn contains_byte(s: &[u8], b: u8) -> (r: bool)
    ensures
        r == s@.contains(b),
{
    let mut i: usize = 0;
    while i < s.len()
        invariant
            i <= s@.len(),
            forall|k: int| 0 <= k < i ==> s@[k] != b,
        decreases s@.len() - i,
    {
        if s[i] == b {
            return true;
        }
        i += 1;
    }
    false
}

/// Whether `s` holds a whitespace byte.
pub fn contains_ows(s: &[u8]) -> (r: bool)
    ensures
        r == exists|i: int| 0 <= i < s@.len() && is_ows(#[trigger] s@[i]),
{
    let n: usize = leading_token(s);
    proof {
        lemma_run_len(s@, non_ows());
    }
    n < s.len()
}

/// Whether `a` and `b` hold the same bytes.
pub fn bytes_eq(a: &[u8], b: &[u8]) -> (r: bool)
    ensures
        r == (a@ == b@),
{
    if a.len() != b.len() {
        return false;
    }
    let mut i: usize = 0;
    while i < a.len()
        invariant
            i <= a@.len(),
            a@.len() == b@.len(),
            forall|k: int| 0 <= k < i ==> a@[k] == b@[k],
        decreases a@.len() - i,
    {
        if a[i] != b[i] {
            return false;
        }
        i += 1;
    }
    assert(a@ =~= b@);
    true
}

/// Whether `s` starts with `prefix`.
pub fn starts_with(s: &[u8], prefix: &[u8]) -> (r: bool)
    ensures
        r == prefix@.is_prefix_of(s@),
{
    if prefix.len() > s.len() {
        return false;
    }
    bytes_eq(slice_subrange(s, 0, prefix.len()), prefix)
}

/// Whether `a` and `b` are equal once ASCII letters are folded to one case.
pub fn eq_ignore_case(a: &[u8], b: &[u8]) -> (r: bool)
    ensures
        r == eq_ignore_ascii_case(a@, b@),
{
    if a.len() != b.len() {
        return false;
    }
    let mut i: usize = 0;
    while i < a.len()
        invariant
            i <= a@.len(),
            a@.len() == b@.len(),
            forall|k: int| 0 <= k < i ==> to_ascii_lower(#[trigger] a@[k]) == to_ascii_lower(b@[k]),
        decreases a@.len() - i,
    {
        if to_ascii_lower(a[i]) != to_ascii_lower(b[i]) {
            return false;
        }
        i += 1;
    }
    true
}

} // verus!
