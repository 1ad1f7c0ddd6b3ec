//! Seed handling.
//!
//! Green laser uses a fixed master seed, so that the whole per-run sequence
//! reproduces across restarts. Red laser draws the master from entropy; its
//! fabricated world is reproduced from the session seed in the ledger.

use vstd::prelude::*;
use crate::config::Mode;

verus! {

/// The master seed of a green laser that configures none.
pub const DEFAULT_GREEN_SEED: u64 = 0x00C0_FFEE_0BAD_F00D;

/// `rand::random::<u64>`: a number from the thread's generator. Nothing is said of
/// it.
#[verifier::external_body]
fn entropy() -> (r: u64) {
    rand::random()
}

/// The seed that a mode and a configured seed fix; none where entropy decides.
pub open spec fn fixed_seed(mode: Mode, configured: Option<u64>) -> Option<u64> {
    match mode {
        Mode::GreenLaser => match configured {
            Some(s) => Some(s),
            None => Some(DEFAULT_GREEN_SEED),
        },
        Mode::RedLaser => None,
    }
}

/// The master seed for a run. Green laser uses the configured seed, or a fixed
/// default; red laser leaves the config aside and uses entropy.
pub fn master_seed(mode: Mode, configured: Option<u64>) -> (r: u64)
    ensures
        fixed_seed(mode, configured) matches Some(s) ==> r == s,
{
    match mode {
        Mode::GreenLaser => match configured {
            Some(s) => s,
            None => DEFAULT_GREEN_SEED,
        },
        Mode::RedLaser => entropy(),
    }
}

/// The seed of a new session: the configured one, else entropy.
pub fn session_seed(configured: Option<u64>) -> (r: u64)
    ensures
        configured matches Some(s) ==> r == s,
{
    match configured {
        Some(s) => s,
        None => entropy(),
    }
}

} // verus!
