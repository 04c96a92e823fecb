//! The external data providers: per-code-point case folding, canonical and
//! compatibility decomposition, and canonical combining classes.
//!
//! Each provider result is given a name by an uninterpreted spec function;
//! the rest of the library is verified against those names.

use vstd::prelude::*;

verus! {

/// The full Unicode default case folding of a single code point, exactly as
/// the external provider computes it.
pub uninterp spec fn raw_fold_of(c: char) -> Seq<char>;

/// The full, recursively expanded canonical decomposition of a code point.
pub uninterp spec fn canonical_decomposition_of(c: char) -> Seq<char>;

/// The full, recursively expanded compatibility decomposition of a code point.
pub uninterp spec fn compatibility_decomposition_of(c: char) -> Seq<char>;

/// The canonical combining class of a code point.
pub uninterp spec fn combining_class_of(c: char) -> u8;

/// Relies on `icu_casemap::CaseMapperBorrowed::fold_string`: the full Unicode
/// default case folding of a string, documented as locale-independent and
/// context-insensitive, so its value on a one-character string is a function
/// of that character alone.
#[verifier::external_body]
pub(crate) fn provider_case_fold(c: char) -> (r: Vec<char>)
    ensures
        r@ == raw_fold_of(c),
{
    let mut s = String::new();
    s.push(c);
    icu_casemap::CaseMapper::new().fold_string(&s).chars().collect()
}

/// Relies on `unicode_normalization::char::decompose_canonical`: emits the
/// full (recursively expanded) canonical decomposition of the code point,
/// a pure lookup in the Unicode character database.
#[verifier::external_body]
pub(crate) fn provider_canonical_decomposition(c: char) -> (r: Vec<char>)
    ensures
        r@ == canonical_decomposition_of(c),
{
    let mut out: Vec<char> = Vec::new();
    unicode_normalization::char::decompose_canonical(c, |d| out.push(d));
    out
}

/// Relies on `unicode_normalization::char::decompose_compatible`: emits the
/// full (recursively expanded) compatibility decomposition of the code
/// point, a pure lookup in the Unicode character database.
#[verifier::external_body]
pub(crate) fn provider_compatibility_decomposition(c: char) -> (r: Vec<char>)
    ensures
        r@ == compatibility_decomposition_of(c),
{
    let mut out: Vec<char> = Vec::new();
    unicode_normalization::char::decompose_compatible(c, |d| out.push(d));
    out
}

/// Relies on `unicode_normalization::char::canonical_combining_class`: the
/// canonical combining class of the code point from the Unicode character
/// database.
#[verifier::external_body]
pub(crate) fn provider_combining_class(c: char) -> (r: u8)
    ensures
        r == combining_class_of(c),
{
    unicode_normalization::char::canonical_combining_class(c)
}

} // verus!
