//! The one place where chance enters the schedule.

use vstd::prelude::*;

verus! {

/// Draws a direction by chance: `true` for forward, `false` for backward.
///
/// Calls `rand::random::<bool>()`, which takes the next 32 bits of the
/// thread's generator and hands back their top bit. Nothing is claimed of
/// the outcome: two draws may differ, and callers must do with either. The
/// generator panics where the operating system cannot seed it.
#[verifier::external_body]
pub(crate) fn random_direction() -> (forward: bool) {
    rand::random::<bool>()
}

} // verus!
