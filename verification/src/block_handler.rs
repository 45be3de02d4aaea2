//! Block handler: supplies the statements of new blocks and hears of accepted blocks.

use vstd::prelude::*;

use crate::data::Data;
use crate::types::{AuthorityIndex, BaseStatement, BlockReference, RoundNumber, StatementBlock, StatementView};

verus! {

/// Produces the statements (transaction shares, votes) of the blocks this
/// authority proposes, and hears of the blocks the core accepts.
pub trait BlockHandler: Send + Sync {
    /// The statements this handler gives the block of `authority` at `round` with
    /// these includes.
    spec fn statements_spec(&self, authority: AuthorityIndex, round: RoundNumber, includes: Seq<BlockReference>) -> Seq<StatementView>;

    /// Called when the core is about to create a block; returns the statements to
    /// include: those of `statements_spec`.
    fn statements_for_block(
        &self,
        authority: AuthorityIndex,
        round: RoundNumber,
        includes: &[BlockReference],
    ) -> (r: Vec<BaseStatement>)
        ensures
            r@.map_values(|st: BaseStatement| st@) == self.statements_spec(authority, round, includes@),
    ;

    /// Called with the blocks the core has just accepted. The default does nothing.
    fn on_blocks(&self, _blocks: &[Data<StatementBlock>]) {
    }
}

/// Handler that proposes empty blocks and ignores accepted ones.
#[derive(Clone, Default)]
pub struct NoOpBlockHandler;

impl BlockHandler for NoOpBlockHandler {
    open spec fn statements_spec(&self, authority: AuthorityIndex, round: RoundNumber, includes: Seq<BlockReference>) -> Seq<StatementView> {
        Seq::empty()
    }

    fn statements_for_block(
        &self,
        _authority: AuthorityIndex,
        _round: RoundNumber,
        _includes: &[BlockReference],
    ) -> (r: Vec<BaseStatement>) {
        let r: Vec<BaseStatement> = Vec::new();
        assert(r@.map_values(|st: BaseStatement| st@) =~= Seq::<StatementView>::empty());
        r
    }
}

} // verus!
