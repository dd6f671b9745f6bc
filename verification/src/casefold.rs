//! Case folding for the category filter.
//!
//! The store filters tasks by category without regard to case. The
//! folding itself is done by the standard library; its result is given
//! a name, `lower_of`, and every contract that speaks about
//! case-insensitive matching speaks in terms of that name.

use vstd::prelude::*;

verus! {

/// The sequence of characters that `str::to_lowercase` yields for `s`.
/// It depends on the characters of `s` alone; no definition is given here.
pub uninterp spec fn lower_of(s: Seq<char>) -> Seq<char>;

/// Relies on `str::to_lowercase` from std: the Unicode lowercase mapping
/// of `s`, a pure function of the characters of `s`.
#[verifier::external_body]
pub(crate) fn to_lower(s: &str) -> (r: String)
    ensures
        r@ == lower_of(s@),
{
    s.to_lowercase()
}

/// Whether two pieces of text are equal once both are folded to lower
/// case. This is the matching rule of the category filter.
pub fn category_matches(a: &str, b: &str) -> (r: bool)
    ensures
        r == (lower_of(a@) == lower_of(b@)),
{
    let la = to_lower(a);
    let lb = to_lower(b);
    la == lb
}

} // verus!
