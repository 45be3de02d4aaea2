//! DAG and statement invariants: validate blocks before adding them to the store.

use vstd::prelude::*;

use crate::block_store::{has_ref, BlockStore};
use crate::committee::{is_genesis_block, weight, Authority, Committee, CommitteeView};
use crate::types::AuthorityIndex;
use crate::types::{contains_reference, BaseStatement, BlockReference, BlockView, RoundNumber, StatementBlock, StatementView};

verus! {

/// Some reference in `includes` is at round `prev` from authority `i`.
pub open spec fn authority_included(includes: Seq<BlockReference>, prev: RoundNumber, i: int) -> bool {
    exists|k: int| 0 <= k < includes.len() && includes[k].round == prev && includes[k].authority.0 == i
}

/// Stake of the authorities (of `auths`, by position) that `includes` references at round `prev`.
pub open spec fn included_stake(auths: Seq<Authority>, includes: Seq<BlockReference>, prev: RoundNumber) -> int
    decreases auths.len(),
{
    if auths.len() == 0 {
        0
    } else {
        included_stake(auths.drop_last(), includes, prev) + if authority_included(
            includes,
            prev,
            auths.len() - 1,
        ) {
            auths.last().stake as int
        } else {
            0
        }
    }
}

/// A block at `round` with these includes obeys the inclusion rule: at round 0
/// trivially, else the authorities it includes at the previous round hold a quorum.
pub open spec fn meets_inclusion_rule(c: CommitteeView, includes: Seq<BlockReference>, round: RoundNumber) -> bool {
    round == 0 || included_stake(c.authorities, includes, (round - 1) as u64) >= c.quorum_threshold
}

/// A statement of block `b` is well formed.
pub open spec fn statement_valid(s: StatementView, b: BlockView) -> bool {
    match s {
        StatementView::Share(_) => true,
        StatementView::Vote(loc, _) => if loc.block.authority == b.creator && loc.block.round
            == b.round {
            loc.index < b.statements.len()
        } else {
            b.includes.contains(loc.block)
        },
        StatementView::VoteRange(range) => range.count > 0 && (b.includes.contains(
            range.start.block,
        ) || (range.start.block.authority == b.creator && range.start.block.round == b.round)),
    }
}

/// Block `b` may enter a store holding `store`: its creator is in the committee,
/// everything it includes is stored and from a lower round, the authorities it
/// includes at the previous round hold a quorum of stake, and its statements are
/// well formed.
pub open spec fn block_valid(c: CommitteeView, store: Seq<BlockView>, b: BlockView) -> bool {
    &&& b.creator.0 < c.authorities.len()
    &&& forall|k: int|
        0 <= k < b.includes.len() ==> b.includes[k].round < b.round && has_ref(store, b.includes[k])
    &&& b.round > 0 ==> included_stake(c.authorities, b.includes, (b.round - 1) as u64)
        >= c.quorum_threshold
    &&& forall|k: int| 0 <= k < b.statements.len() ==> statement_valid(b.statements[k], b)
}

/// The stake `included_stake` counts is that of the members for which `p` holds,
/// when `p` says which members are included at `prev`.
pub proof fn lemma_included_stake_weight(auths: Seq<Authority>, includes: Seq<BlockReference>, prev: RoundNumber, p: spec_fn(int) -> bool)
    requires
        forall|i: int| 0 <= i < auths.len() ==> (authority_included(includes, prev, i) <==> #[trigger] p(i)),
    ensures
        included_stake(auths, includes, prev) == weight(auths, p),
    decreases auths.len(),
{
    if auths.len() > 0 {
        let q = auths.drop_last();
        assert forall|i: int| 0 <= i < q.len() implies (authority_included(includes, prev, i) <==> #[trigger] p(i)) by {
        }
        lemma_included_stake_weight(q, includes, prev, p);
        assert(authority_included(includes, prev, auths.len() - 1) <==> p(auths.len() - 1));
    }
}

/// A valid block of a round above 0 includes, at the previous round, blocks of
/// distinct members holding a quorum of stake (each member counted once).
pub proof fn lemma_valid_block_has_quorum(c: CommitteeView, store: Seq<BlockView>, b: BlockView)
    requires
        block_valid(c, store, b),
        b.round > 0,
    ensures
        weight(
            c.authorities,
            |i: int| exists|k: int| 0 <= k < b.includes.len() && (#[trigger] b.includes[k]).round == b.round - 1 && b.includes[k].authority.0 == i,
        ) >= c.quorum_threshold,
{
    let p = |i: int| exists|k: int| 0 <= k < b.includes.len() && (#[trigger] b.includes[k]).round == b.round - 1 && b.includes[k].authority.0 == i;
    assert forall|i: int| 0 <= i < c.authorities.len() implies (authority_included(b.includes, (b.round - 1) as u64, i) <==> #[trigger] p(i)) by {
    }
    lemma_included_stake_weight(c.authorities, b.includes, (b.round - 1) as u64, p);
}

/// A member's genesis block is valid against any store.
pub proof fn lemma_genesis_valid(c: CommitteeView, s: Seq<BlockView>, a: AuthorityIndex, b: BlockView)
    requires
        a.0 < c.authorities.len(),
        is_genesis_block(c, a, b),
    ensures
        block_valid(c, s, b),
{
}

pub struct BlockValidator {
    committee: Committee,
}

impl View for BlockValidator {
    type V = CommitteeView;

    closed spec fn view(&self) -> CommitteeView {
        self.committee@
    }
}

/// Whether some reference of `includes` is at `round` from authority `i`.
fn includes_authority_at(includes: &Vec<BlockReference>, round: RoundNumber, i: u64) -> (r: bool)
    ensures
        r == authority_included(includes@, round, i as int),
{
    let mut k: usize = 0;
    while k < includes.len()
        invariant
            k <= includes@.len(),
            forall|j: int| 0 <= j < k ==> !(includes@[j].round == round && includes@[j].authority.0 == i),
        decreases includes@.len() - k,
    {
        if includes[k].round == round && includes[k].authority.0 == i {
            return true;
        }
        k = k + 1;
    }
    false
}

impl BlockValidator {
    pub fn new(committee: Committee) -> (r: Self)
        ensures
            r@ == committee@,
    {
        BlockValidator { committee }
    }

    /// Stake of the authorities that `includes` references at round `prev`.
    pub(crate) fn stake_included(&self, includes: &Vec<BlockReference>, prev: RoundNumber) -> (r: u128)
        ensures
            r == included_stake(self@.authorities, includes@, prev),
    {
        let auths = &self.committee.authorities;
        let mut total: u128 = 0;
        let mut i: usize = 0;
        while i < auths.len()
            invariant
                i <= auths@.len(),
                auths@ == self@.authorities,
                total == included_stake(auths@.take(i as int), includes@, prev),
                total <= i * 0xffff_ffff_ffff_ffffu128,
            decreases auths@.len() - i,
        {
            proof {
                assert(auths@.take(i + 1).drop_last() =~= auths@.take(i as int));
            }
            if includes_authority_at(includes, prev, i as u64) {
                total = total + auths[i].stake as u128;
            }
            i = i + 1;
        }
        assert(auths@.take(i as int) =~= auths@);
        total
    }

    /// Validate a block against the committee and the blocks already stored.
    pub fn validate(&self, block: &StatementBlock, store: &BlockStore) -> (r: bool)
        ensures
            r == block_valid(self@, store@, block@),
    {
        if block.creator.0 >= self.committee.authorities.len() as u64 {
            return false;
        }
        let round = block.round;
        let mut k: usize = 0;
        while k < block.includes.len()
            invariant
                k <= block.includes@.len(),
                round == block.round,
                forall|j: int|
                    0 <= j < k ==> block.includes@[j].round < round && has_ref(store@, block.includes@[j]),
            decreases block.includes@.len() - k,
        {
            let inc = &block.includes[k];
            if inc.round >= round {
                assert(block@.includes[k as int].round >= block@.round);
                return false;
            }
            if !store.contains(inc) {
                assert(!has_ref(store@, block@.includes[k as int]));
                return false;
            }
            k = k + 1;
        }
        if round > 0 {
            let prev_round = round - 1;
            let stake = self.stake_included(&block.includes, prev_round);
            if stake < self.committee.quorum_threshold as u128 {
                return false;
            }
        }
        assert(forall|j: int| 0 <= j < block@.includes.len() ==> block@.includes[j] == block.includes@[j]);
        let mut s: usize = 0;
        while s < block.statements.len()
            invariant
                s <= block.statements@.len(),
                block.creator.0 < self@.authorities.len(),
                forall|j: int| 0 <= j < block.includes@.len() ==> block.includes@[j].round < round && has_ref(store@, block.includes@[j]),
                round > 0 ==> included_stake(self@.authorities, block.includes@, (round - 1) as u64) >= self@.quorum_threshold,
                round == block.round,
                forall|j: int| 0 <= j < s ==> statement_valid(block@.statements[j], block@),
                block@.statements.len() == block.statements@.len(),
            decreases block.statements@.len() - s,
        {
            if !self.validate_statement(&block.statements[s], block, store) {
                assert(block@.statements[s as int] == block.statements@[s as int]@);
                return false;
            }
            s = s + 1;
        }
        true
    }

    fn validate_statement(&self, stmt: &BaseStatement, block: &StatementBlock, _store: &BlockStore) -> (r: bool)
        ensures
            r == statement_valid(stmt@, block@),
    {
        match stmt {
            BaseStatement::Share(_) => true,
            BaseStatement::Vote(loc, _) => {
                if loc.block.authority.0 == block.creator.0 && loc.block.round == block.round {
                    return (loc.index as usize) < block.statements.len();
                }
                contains_reference(&block.includes, &loc.block)
            },
            BaseStatement::VoteRange(range) => {
                range.count > 0 && (contains_reference(&block.includes, &range.start.block) || (
                range.start.block.authority.0 == block.creator.0 && range.start.block.round
                    == block.round))
            },
        }
    }
}

} // verus!
