//! Messages exchanged between validators.

use vstd::prelude::*;

use crate::data::Data;
use crate::types::{BlockReference, RoundNumber, StatementBlock};

verus! {

/// Messages exchanged between validators.
#[derive(Clone, Debug)]
pub enum NetworkMessage {
    /// Subscribe to the peer's own blocks from the given round (excluding).
    SubscribeOwnFrom(RoundNumber),
    /// Batch of blocks.
    Blocks(Vec<Data<StatementBlock>>),
    /// Request specific blocks by reference.
    RequestBlocks(Vec<BlockReference>),
    /// Response with requested blocks.
    RequestBlocksResponse(Vec<Data<StatementBlock>>),
    /// Requested blocks were not available.
    BlockNotFound(Vec<BlockReference>),
}

} // verus!
