//! Wall-clock time for timestamps on wallets, transactions and blocks.

use vstd::prelude::*;

verus! {

/// Relies on std::time::SystemTime: seconds since the Unix epoch. Nothing is
/// promised of the value; callers must hold for every reading.
#[verifier::external_body]
pub fn current_timestamp() -> u64 {
    match std::time::SystemTime::now().duration_since(std::time::UNIX_EPOCH) {
        Ok(d) => d.as_secs(),
        Err(_) => 0,
    }
}

} // verus!
