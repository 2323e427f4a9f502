//! Request shapes of the node's programmatic surface. The HTTP façade keeps
//! its own serializable copies and converts to these.

use vstd::prelude::*;

verus! {

/// A request to transfer coins.
pub struct TransferRequest {
    pub from: String,
    pub to: String,
    pub amount: u64,
}

/// A request to assemble a block.
pub struct MineBlockRequest {
    pub proposer: String,
}

} // verus!
