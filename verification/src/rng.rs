//! The one place where chance enters the library.

use vstd::prelude::*;

verus! {

/// A uniformly random number below `n`.
///
/// Relies on `rand::Rng::gen_range` on the thread-local generator: for a
/// non-empty range `0..n` it returns a value of that range (and panics only
/// on an empty range, which the precondition rules out).  Nothing more is
/// promised: two calls with the same argument may differ.  Like running out
/// of memory, a failure of the operating system's entropy source at the
/// generator's first use is an environmental abort no precondition can
/// exclude.
#[verifier::external_body]
pub(crate) fn random_below(n: usize) -> (r: usize)
    requires
        n > 0,
    ensures
        r < n,
{
    rand::Rng::gen_range(&mut rand::thread_rng(), 0..n)
}

} // verus!
