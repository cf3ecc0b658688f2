//! Classifying a purchase as an early entry.

use vstd::prelude::*;

verus! {

/// Whether a purchase at `block_time` counts as an early entry for a token created at
/// `token_creation_time`: it does when it lies at most `window_seconds` after the
/// creation. A purchase dated before the creation never counts.
pub open spec fn early_entry(block_time: int, token_creation_time: int, window_seconds: int) -> bool {
    token_creation_time <= block_time && block_time - token_creation_time <= window_seconds
}

/// Decides [`early_entry`] for times in seconds. The end of the window is included.
pub fn is_early_entry(block_time: u64, token_creation_time: u64, window_seconds: u64) -> (early: bool)
    ensures
        early == early_entry(block_time as int, token_creation_time as int, window_seconds as int),
{
    if block_time < token_creation_time {
        return false;
    }
    let time_diff: u64 = block_time - token_creation_time;
    time_diff <= window_seconds
}

} // verus!
