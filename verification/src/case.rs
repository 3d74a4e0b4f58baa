//! Case conversion of names, done by the `convert_case` crate.
use vstd::prelude::*;
use convert_case::{Case, Casing};

verus! {

/// What `convert_case` gives for `s.to_case(Case::Pascal)`: the text split into
/// words at its default boundaries, each word capitalized, joined without a
/// delimiter.
pub uninterp spec fn spec_pascal_case(s: Seq<char>) -> Seq<char>;

/// What `convert_case` gives for `s.to_case(Case::UpperFlat)`: the words of the
/// text upper-cased and joined without a delimiter.
pub uninterp spec fn spec_upper_flat_case(s: Seq<char>) -> Seq<char>;

/// Calls `Casing::to_case` with `Case::Pascal`. The contract names the result;
/// the segmentation rules of the crate are not restated.
#[verifier::external_body]
pub(crate) fn to_pascal_case(s: &str) -> (r: String)
    ensures
        r@ == spec_pascal_case(s@),
{
    s.to_case(Case::Pascal)
}

/// Calls `Casing::is_case` with `Case::UpperFlat`. In the crate's source this
/// compares `s.to_case(Case::UpperFlat)` with `s`, which is what the contract
/// states.
#[verifier::external_body]
pub(crate) fn is_upper_flat_case(s: &str) -> (r: bool)
    ensures
        r == (spec_upper_flat_case(s@) == s@),
{
    s.is_case(Case::UpperFlat)
}

} // verus!
