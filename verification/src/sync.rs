//! Sync helpers: subscription messages and answers to block requests.

use vstd::prelude::*;

use crate::block_store::{lookup, views, BlockStore};
use crate::data::Data;
use crate::message::NetworkMessage;
use crate::types::{BlockReference, BlockView, RoundNumber, StatementBlock};

verus! {

/// The stored blocks named by `refs`, in request order (unknown references skipped).
pub open spec fn found_blocks(s: Seq<BlockView>, refs: Seq<BlockReference>) -> Seq<BlockView>
    decreases refs.len(),
{
    if refs.len() == 0 {
        seq![]
    } else {
        match lookup(s, refs.last()) {
            Some(b) => found_blocks(s, refs.drop_last()).push(b),
            None => found_blocks(s, refs.drop_last()),
        }
    }
}

/// The references of `refs` that name no stored block, in request order.
pub open spec fn missing_refs(s: Seq<BlockView>, refs: Seq<BlockReference>) -> Seq<BlockReference>
    decreases refs.len(),
{
    if refs.len() == 0 {
        seq![]
    } else {
        match lookup(s, refs.last()) {
            Some(_) => missing_refs(s, refs.drop_last()),
            None => missing_refs(s, refs.drop_last()).push(refs.last()),
        }
    }
}

/// Every requested reference is either answered with its block or reported missing.
pub proof fn lemma_request_partition(s: Seq<BlockView>, refs: Seq<BlockReference>)
    ensures
        found_blocks(s, refs).len() + missing_refs(s, refs).len() == refs.len(),
    decreases refs.len(),
{
    if refs.len() > 0 {
        lemma_request_partition(s, refs.drop_last());
    }
}

/// Sync driver: builds subscription messages and answers block requests.
pub struct Syncer {
    /// Round from which we last subscribed.
    subscribe_from: RoundNumber,
}

impl Syncer {
    pub closed spec fn subscribed_from(&self) -> RoundNumber {
        self.subscribe_from
    }

    pub fn new() -> (r: Self)
        ensures
            r.subscribed_from() == 0,
    {
        Syncer { subscribe_from: 0 }
    }

    /// Build a `SubscribeOwnFrom` message and remember the round.
    pub fn subscribe_message(&mut self, from_round: RoundNumber) -> (r: NetworkMessage)
        ensures
            final(self).subscribed_from() == from_round,
            r matches NetworkMessage::SubscribeOwnFrom(x) && x == from_round,
    {
        self.subscribe_from = from_round;
        NetworkMessage::SubscribeOwnFrom(from_round)
    }

    /// Answer a block request: the stored blocks requested, or `BlockNotFound` with
    /// the missing references when none of them is stored.
    pub fn handle_request_blocks(&self, store: &BlockStore, refs: &[BlockReference]) -> (r: NetworkMessage)
        requires
            store.wf(),
        ensures
            match r {
                NetworkMessage::RequestBlocksResponse(v) => views(v@) == found_blocks(store@, refs@) && (
                missing_refs(store@, refs@).len() == 0 || found_blocks(store@, refs@).len() > 0),
                NetworkMessage::BlockNotFound(v) => v@ == missing_refs(store@, refs@) && missing_refs(
                    store@,
                    refs@,
                ).len() > 0 && found_blocks(store@, refs@).len() == 0,
                _ => false,
            },
    {
        let ghost s = store@;
        let mut blocks: Vec<Data<StatementBlock>> = Vec::new();
        let mut not_found: Vec<BlockReference> = Vec::new();
        let mut i: usize = 0;
        while i < refs.len()
            invariant
                i <= refs@.len(),
                store.wf(),
                s == store@,
                views(blocks@) == found_blocks(s, refs@.take(i as int)),
                not_found@ == missing_refs(s, refs@.take(i as int)),
            decreases refs@.len() - i,
        {
            proof {
                assert(refs@.take(i + 1).drop_last() =~= refs@.take(i as int));
                assert(refs@.take(i + 1).last() == refs@[i as int]);
            }
            match store.get(&refs[i]) {
                Some(b) => {
                    let ghost before = views(blocks@);
                    blocks.push(b);
                    assert(views(blocks@) =~= before.push(views(blocks@).last()));
                },
                None => {
                    not_found.push(refs[i]);
                },
            }
            i = i + 1;
        }
        assert(refs@.take(i as int) =~= refs@);
        if not_found.len() == 0 {
            NetworkMessage::RequestBlocksResponse(blocks)
        } else if blocks.len() == 0 {
            NetworkMessage::BlockNotFound(not_found)
        } else {
            NetworkMessage::RequestBlocksResponse(blocks)
        }
    }
}

impl Default for Syncer {
    fn default() -> (r: Self)
        ensures
            r.subscribed_from() == 0,
    {
        Self::new()
    }
}

} // verus!
