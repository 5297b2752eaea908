use vstd::prelude::*;

verus! {

/// What `str::to_lowercase` gives for a text: it depends on the characters alone.
pub uninterp spec fn lower_of(s: Seq<char>) -> Seq<char>;

/// Relies on `String::from_iter` over `&char`: the text made of the characters
/// of `v`, in order.
#[verifier::external_body]
pub(crate) fn string_of(v: &Vec<char>) -> (r: String)
    ensures
        r@ == v@,
{
    String::from_iter(v)
}

/// Relies on `str::to_lowercase`: the lowercase form of `s`.
#[verifier::external_body]
pub(crate) fn lowercase(s: &str) -> (r: String)
    ensures
        r@ == lower_of(s@),
{
    s.to_lowercase()
}

} // verus!
