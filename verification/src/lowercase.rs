//! Lower-casing of text, which the standard library does by the Unicode
//! tables.

use vstd::prelude::*;

verus! {

/// The lower-cased form of a text: what `str::to_lowercase` returns for it.
/// Nothing more is stated of it.
pub uninterp spec fn lowercase_of(s: Seq<char>) -> Seq<char>;

/// Calls `str::to_lowercase`. The result is a function of the characters of
/// `s` alone; this is taken on trust, and not what the function computes.
#[verifier::external_body]
pub(crate) fn to_lowercase(s: &str) -> (out: String)
    ensures
        out@ == lowercase_of(s@),
{
    s.to_lowercase()
}

} // verus!
