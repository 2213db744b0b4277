//! The leaf parsers, taken from `nom`. Nothing in this module is proved: each
//! contract below restates what the parser of that name does on byte slices.

use vstd::prelude::*;
use crate::text::{first_occurrence, occurs_at, CR, LF};

verus! {

/// `nom::Err`, carried through and never looked into.
#[verifier::external_type_specification]
#[verifier::external_body]
#[verifier::reject_recursive_types(E)]
pub struct ExNomErr<E>(nom::Err<E>);

/// `nom::error::Error`, carried through and never looked into.
#[verifier::external_type_specification]
#[verifier::external_body]
#[verifier::reject_recursive_types(I)]
pub struct ExNomError<I>(nom::error::Error<I>);

/// `nom::bytes::complete::take_until`. It splits the input where `pattern`
/// first occurs: `taken` is what stands before that place, `rest` starts with
/// the pattern. It fails exactly when the pattern occurs nowhere in the input.
#[verifier::external_body]
pub(crate) fn take_until<'a>(pattern: &[u8], input: &'a [u8]) -> (r: Result<
    (&'a [u8], &'a [u8]),
    nom::Err<nom::error::Error<&'a [u8]>>,
>)
    ensures
        match r {
            Ok((rest, taken)) => input@ == taken@ + rest@ && first_occurrence(
                input@,
                pattern@,
                taken@.len() as int,
            ),
            Err(_) => forall|i: int| !occurs_at(input@, pattern@, i),
        },
{
    nom::bytes::complete::take_until(pattern)(input)
}

/// `nom::bytes::complete::tag`. It succeeds exactly when the input starts with
/// `pattern`, and then splits the input behind it.
#[verifier::external_body]
pub(crate) fn tag<'a>(pattern: &[u8], input: &'a [u8]) -> (r: Result<
    (&'a [u8], &'a [u8]),
    nom::Err<nom::error::Error<&'a [u8]>>,
>)
    ensures
        match r {
            Ok((rest, matched)) => input@ == matched@ + rest@ && matched@ == pattern@,
            Err(_) => !pattern@.is_prefix_of(input@),
        },
{
    nom::bytes::complete::tag(pattern)(input)
}

/// `nom::bytes::complete::is_not`. It takes the longest start of the input
/// that holds none of the bytes in `stops`, and fails exactly when that start
/// is empty: on an empty input, or on one whose first byte is in `stops`.
#[verifier::external_body]
pub(crate) fn is_not<'a>(stops: &[u8], input: &'a [u8]) -> (r: Result<
    (&'a [u8], &'a [u8]),
    nom::Err<nom::error::Error<&'a [u8]>>,
>)
    ensures
        match r {
            Ok((rest, taken)) => {
                &&& input@ == taken@ + rest@
                &&& taken@.len() > 0
                &&& forall|i: int| 0 <= i < taken@.len() ==> !stops@.contains(#[trigger] taken@[i])
                &&& rest@.len() > 0 ==> stops@.contains(rest@[0])
            },
            Err(_) => input@.len() == 0 || stops@.contains(input@[0]),
        },
{
    nom::bytes::complete::is_not(stops)(input)
}

/// `nom::character::complete::crlf`. It succeeds exactly when the input starts
/// with a carriage return and a line feed, and then splits the input behind them.
#[verifier::external_body]
pub(crate) fn crlf<'a>(input: &'a [u8]) -> (r: Result<
    (&'a [u8], &'a [u8]),
    nom::Err<nom::error::Error<&'a [u8]>>,
>)
    ensures
        match r {
            Ok((rest, matched)) => input@ == matched@ + rest@ && matched@ == seq![CR, LF],
            Err(_) => !seq![CR, LF].is_prefix_of(input@),
        },
{
    nom::character::complete::crlf(input)
}

} // verus!
