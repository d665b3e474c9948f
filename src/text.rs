//! Text operations of `std` that the library relies on.
use vstd::prelude::*;

verus! {

/// `s` without leading and trailing whitespace, as `str::trim` computes it.
pub uninterp spec fn trimmed_of(s: Seq<char>) -> Seq<char>;

/// `s` in lower case, as `str::to_lowercase` computes it.
pub uninterp spec fn lower_of(s: Seq<char>) -> Seq<char>;

/// Relies on `str::trim`: the result depends on the characters alone, and an
/// empty string stays empty.
#[verifier::external_body]
pub(crate) fn trim_str(s: &str) -> (r: String)
    ensures
        r@ == trimmed_of(s@),
        s@.len() == 0 ==> r@.len() == 0,
{
    s.trim().to_string()
}

/// Relies on `str::to_lowercase`: the result depends on the characters alone,
/// and an empty string stays empty.
#[verifier::external_body]
pub(crate) fn lowercase(s: &str) -> (r: String)
    ensures
        r@ == lower_of(s@),
        s@.len() == 0 ==> r@.len() == 0,
{
    s.to_lowercase()
}

/// Relies on `<[&str]>::concat`: the two strings one after the other.
#[verifier::external_body]
pub(crate) fn concat_str(a: &str, b: &str) -> (r: String)
    ensures
        r@ == a@ + b@,
{
    [a, b].concat()
}

} // verus!
