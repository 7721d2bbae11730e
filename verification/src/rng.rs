//! The library's one source of randomness, kept behind a single trusted
//! wrapper so that everything downstream is verified for every value the
//! generator may produce.

use rand::Rng;
use vstd::prelude::*;

verus! {

/// Relies on rand's `Rng::gen_range` over the inclusive range `lo..=hi`:
/// it samples uniformly within the bounds it was given, and panics only on
/// an empty range, which the precondition rules out.  Nothing more is
/// assumed of the value: every caller is verified for any outcome in the
/// range.
#[verifier::external_body]
pub fn sample_range(lo: i64, hi: i64) -> (r: i64)
    requires
        lo <= hi,
    ensures
        lo <= r <= hi,
{
    rand::thread_rng().gen_range(lo..=hi)
}

} // verus!
