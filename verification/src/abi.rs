//! The application binary interface a smart contract may import from the
//! blockchain environment. The contract virtual machine itself lives outside
//! the core; the core only fixes the names of the host functions.

use vstd::prelude::*;

verus! {

/// The host functions a contract can import.
#[derive(Debug, Clone, Copy, PartialEq, Eq, Structural)]
pub enum Abi {
    /// Get the balance of an address.
    GetBalance,
    /// Transfer coins to an address.
    Transfer,
    /// Get a value from the contract's storage.
    GetStorage,
    /// Set a value in the contract's storage.
    SetStorage,
}

} // verus!
