use vstd::prelude::*;

verus! {

/// A number drawn uniformly below `n`.
///
/// Relies on rand's `thread_rng` and `Rng::gen_range`: sampling the integer
/// range `0..n` returns a value of that range and panics only when the range
/// is empty, which the precondition rules out. Nothing further is assumed of
/// the outcome.
#[verifier::external_body]
pub(crate) fn random_below(n: u32) -> (r: u32)
    requires
        n > 0,
    ensures
        r < n,
{
    rand::Rng::gen_range(&mut rand::thread_rng(), 0..n)
}

} // verus!
