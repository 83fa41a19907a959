use vstd::prelude::*;

verus! {

/// Relies on rand::random_ratio with equal parts: a fair coin flip.
/// Nothing is promised of the outcome.
#[verifier::external_body]
pub(crate) fn coin_flip() -> bool {
    rand::random_ratio(1, 2)
}

/// Relies on rand::random_range: a draw from `[0, bound)`.  The range must
/// not be empty, since the call panics on an empty range; nothing is
/// promised of the outcome beyond the bound.
#[verifier::external_body]
pub(crate) fn random_below(bound: usize) -> (r: usize)
    requires
        bound > 0,
    ensures
        r < bound,
{
    rand::random_range(0..bound)
}

/// Relies on rand::random: one uniform byte.  Nothing is promised of the
/// outcome.
#[verifier::external_body]
pub(crate) fn random_byte() -> u8 {
    rand::random()
}

} // verus!
