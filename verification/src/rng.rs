//! The one place the crate draws randomness from.

use rand::Rng;
use vstd::prelude::*;

verus! {

/// Relies on `rand::Rng::gen_range` over `0..bound` (through the
/// thread-local generator): it panics only on an empty range and otherwise
/// returns a member of the range.  Nothing more is assumed of the result;
/// callers must cope with every value below `bound`.
#[verifier::external_body]
pub(crate) fn random_below(bound: u32) -> (r: u32)
    requires
        0 < bound,
    ensures
        r < bound,
{
    rand::thread_rng().gen_range(0..bound)
}

} // verus!
