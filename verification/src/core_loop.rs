//! Core state machine: ingests blocks, proposes this authority's blocks, runs the
//! commit rule and hands decisions to a commit observer.

use vstd::prelude::*;

use crate::base_committer::{first_block_by, Decision, LeaderStatus};
use crate::block_handler::BlockHandler;
use crate::block_validator::meets_inclusion_rule;
use crate::block_manager::{admit_blocks, includes_for_round, BlockManager};
use crate::block_store::{max_round_of, rounds_from, store_insert, views};
use crate::commit_observer::CommitObserver;
use crate::committee::{weight, elected, lemma_elected_distinct, leader_slots, zero_digest, Committee, CommitteeView};
use crate::config::Parameters;
use crate::crypto::{blake3_digest, block_digest, ed25519_signature, SecretKey};
use crate::data::Data;
use crate::encoding::{block_bytes, encode_fields};
use crate::types::{
    AuthorityIndex, BaseStatement, BlockDigest, RoundNumber, BlockReference, BlockSignature, BlockView,
    EpochNumber, StatementBlock, StatementView,
};
use crate::universal_committer::{
    decision_views, lemma_run_decided, lemma_slot_decisions_at, run_until, slot_decision, slot_decisions, UniversalCommitter,
};

verus! {

/// The round of the next block of authority `me`: one past its highest stored round, or 0.
pub open spec fn next_round(blocks: Seq<BlockView>, me: AuthorityIndex) -> int {
    match max_round_of(blocks, me) {
        Some(r) => r + 1,
        None => 0,
    }
}

/// A new block's round is one past the highest round of the proposer's own stored
/// blocks: above every one of them, right after one of them, and 0 when it has none.
pub proof fn lemma_next_round_follows_own_blocks(blocks: Seq<BlockView>, me: AuthorityIndex)
    ensures
        forall|k: int| 0 <= k < blocks.len() && (#[trigger] blocks[k]).creator == me ==> blocks[k].round < next_round(blocks, me),
        next_round(blocks, me) == 0 <==> forall|k: int| 0 <= k < blocks.len() ==> (#[trigger] blocks[k]).creator != me,
        next_round(blocks, me) > 0 ==> exists|k: int|
            0 <= k < blocks.len() && (#[trigger] blocks[k]).creator == me && blocks[k].round == next_round(blocks, me) - 1,
{
    crate::block_store::lemma_max_round_of(blocks, me);
}

/// A new block's includes meet the inclusion rule exactly when the members with a
/// stored block at the previous round hold a quorum of stake.
pub proof fn lemma_inclusion_rule_is_stored_quorum(c: CommitteeView, s: Seq<BlockView>, round: RoundNumber)
    requires
        round > 0,
        c.authorities.len() <= u64::MAX,
    ensures
        meets_inclusion_rule(c, includes_for_round(s, round), round) <==> weight(
            c.authorities,
            |i: int| exists|k: int| 0 <= k < s.len() && (#[trigger] s[k]).round == round - 1 && s[k].creator.0 == i,
        ) >= c.quorum_threshold,
{
    let prev = (round - 1) as u64;
    crate::block_manager::lemma_refs_at_round_members(s, prev);
    crate::block_validator::lemma_included_stake_weight(
        c.authorities,
        includes_for_round(s, round),
        prev,
        |i: int| exists|k: int| 0 <= k < s.len() && (#[trigger] s[k]).round == round - 1 && s[k].creator.0 == i,
    );
}

/// The bytes that are hashed and signed for a new block: its canonical bytes with
/// an all-zero digest and an empty signature.
pub open spec fn proposal_message(
    me: AuthorityIndex,
    round: u64,
    includes: Seq<BlockReference>,
    statements: Seq<StatementView>,
    epoch: EpochNumber,
) -> Seq<u8> {
    encode_fields(me, round, zero_digest(), includes, statements, epoch, seq![])
}

/// `b` is the block that authority `me` proposes at `round` with these includes and
/// statements: its digest hashes the proposal message, and its signature is the
/// signer's signature of that message (empty without a signer).
pub open spec fn is_proposal(
    b: BlockView,
    me: AuthorityIndex,
    round: u64,
    includes: Seq<BlockReference>,
    statements: Seq<StatementView>,
    epoch: EpochNumber,
    signer: Option<Seq<u8>>,
) -> bool {
    let msg = proposal_message(me, round, includes, statements, epoch);
    &&& b.creator == me
    &&& b.round == round
    &&& b.includes == includes
    &&& b.statements == statements
    &&& b.epoch == epoch
    &&& b.digest.0@ == blake3_digest(msg)
    &&& b.signature == match signer {
        Some(sk) => ed25519_signature(sk, msg),
        None => seq![],
    }
}

/// The round below which a cleanup removes blocks.
pub open spec fn cleanup_cutoff(current: u64, retain: u64) -> u64 {
    if current >= retain {
        (current - retain) as u64
    } else {
        0
    }
}

/// The fixed configuration of a core.
pub struct CoreSettings {
    pub committee: CommitteeView,
    pub authority: AuthorityIndex,
    pub signer: Option<Seq<u8>>,
    pub wave_length: u64,
    pub number_of_leaders: u32,
    pub enable_cleanup: bool,
    pub retain_rounds: u64,
}

/// Core state machine: ingests blocks, creates new blocks, runs consensus and
/// notifies the commit observer.
pub struct Core<H: BlockHandler> {
    params: Parameters,
    committee: Committee,
    manager: BlockManager,
    committer: UniversalCommitter,
    signer: Option<SecretKey>,
    authority_index: AuthorityIndex,
    handler: H,
    /// The wave and offset of the first leader slot not decided yet: the next
    /// commit run starts there.
    next_wave: u64,
    next_slot: u32,
}

proof fn lemma_first_block_by(s: Seq<BlockView>, round: int, a: AuthorityIndex)
    ensures
        first_block_by(s, round, a) matches Some(b) ==> b.round == round && b.creator == a,
    decreases s.len(),
{
    if s.len() > 0 {
        lemma_first_block_by(s.drop_last(), round, a);
    }
}

/// The block committed at slot `j` (of `n` per wave) is the leader block of that
/// slot: it is at the wave's leader round and created by the slot's elected leader.
pub open spec fn slot_leader_block(c: CommitteeView, wl: u64, n: nat, j: int, b: BlockView) -> bool {
    &&& b.round == (j / (n as int)) * wl
    &&& b.creator == elected(c, ((j / (n as int)) * wl) as u64, (j % (n as int)) as u32)
}

/// Every commit of a run is the leader block of one of the run's slots.
pub proof fn lemma_run_commits(c: CommitteeView, wl: u64, n: nat, s: Seq<BlockView>, a: int, e: int, ds: Seq<Decision>, i: int)
    requires
        run_until(c, wl, n, s, a, e, ds),
        0 <= i < ds.len(),
        ds[i] is Commit,
    ensures
        exists|j: int| a <= j < e && #[trigger] slot_leader_block(c, wl, n, j, ds[i]->Commit_0),
{
    lemma_slot_decisions_at(c, wl, n, s, a, e, i);
    let j = choose|j: int| a <= j < e && #[trigger] slot_decision(c, wl, n, s, j) == Some(ds[i]);
    let w = j / (n as int);
    let off = (j % (n as int)) as u32;
    let lr = w * wl;
    let leader = elected(c, lr as u64, off);
    lemma_first_block_by(s, lr, leader);
    assert(slot_leader_block(c, wl, n, j, ds[i]->Commit_0));
}

/// Leader blocks of two different slots are different blocks, when the slots of a
/// wave elect distinct leaders (at most `leader_slots` leaders per wave).
pub proof fn lemma_slot_blocks_distinct(c: CommitteeView, wl: u64, n: nat, j1: int, j2: int, b1: BlockView, b2: BlockView)
    requires
        wl > 0,
        0 < n <= leader_slots(c),
        n <= u32::MAX,
        c.authorities.len() <= u64::MAX,
        0 <= j1,
        0 <= j2,
        j1 != j2,
        slot_leader_block(c, wl, n, j1, b1),
        slot_leader_block(c, wl, n, j2, b2),
    ensures
        b1 != b2,
{
    let ni = n as int;
    let w1 = j1 / ni;
    let w2 = j2 / ni;
    vstd::arithmetic::div_mod::lemma_fundamental_div_mod(j1, ni);
    vstd::arithmetic::div_mod::lemma_fundamental_div_mod(j2, ni);
    if w1 != w2 {
        if w1 < w2 {
            assert(w1 * wl < w2 * wl) by (nonlinear_arith)
                requires
                    w1 < w2,
                    wl > 0,
            ;
        } else {
            assert(w2 * wl < w1 * wl) by (nonlinear_arith)
                requires
                    w2 < w1,
                    wl > 0,
            ;
        }
    } else {
        assert(j1 % ni != j2 % ni);
        let r = (w1 * wl) as u64;
        lemma_elected_distinct(c, r, (j1 % ni) as u32, (j2 % ni) as u32);
    }
}

/// No leader block is committed twice: over two successive runs, the second
/// starting at the slot where the first stopped, no block is committed at two
/// slots (within a run or across the two), given at most `leader_slots` leaders
/// per wave.
pub proof fn lemma_no_commit_twice(
    c: CommitteeView,
    wl: u64,
    n: nat,
    s1: Seq<BlockView>,
    s2: Seq<BlockView>,
    a: int,
    e1: int,
    e2: int,
    r1: Seq<Decision>,
    r2: Seq<Decision>,
)
    requires
        wl > 0,
        0 < n <= leader_slots(c),
        n <= u32::MAX,
        c.authorities.len() <= u64::MAX,
        0 <= a,
        run_until(c, wl, n, s1, a, e1, r1),
        run_until(c, wl, n, s2, e1, e2, r2),
    ensures
        forall|i: int, j: int|
            0 <= i < r1.len() && 0 <= j < r2.len() && (#[trigger] r1[i]) is Commit && (#[trigger] r2[j]) is Commit
                ==> r1[i]->Commit_0 != r2[j]->Commit_0,
        forall|i: int, j: int|
            0 <= i < j < r1.len() && (#[trigger] r1[i]) is Commit && (#[trigger] r1[j]) is Commit ==> r1[i]->Commit_0
                != r1[j]->Commit_0,
{
    assert forall|i: int, j: int|
        0 <= i < r1.len() && 0 <= j < r2.len() && (#[trigger] r1[i]) is Commit && (#[trigger] r2[j]) is Commit
            implies r1[i]->Commit_0 != r2[j]->Commit_0 by {
        lemma_run_commits(c, wl, n, s1, a, e1, r1, i);
        lemma_run_commits(c, wl, n, s2, e1, e2, r2, j);
        let j1 = choose|j1: int| a <= j1 < e1 && #[trigger] slot_leader_block(c, wl, n, j1, r1[i]->Commit_0);
        let j2 = choose|j2: int| e1 <= j2 < e2 && #[trigger] slot_leader_block(c, wl, n, j2, r2[j]->Commit_0);
        lemma_slot_blocks_distinct(c, wl, n, j1, j2, r1[i]->Commit_0, r2[j]->Commit_0);
    }
    assert forall|i: int, j: int|
        0 <= i < j < r1.len() && (#[trigger] r1[i]) is Commit && (#[trigger] r1[j]) is Commit implies r1[i]->Commit_0
            != r1[j]->Commit_0 by {
        lemma_slots_increase(c, wl, n, s1, a, e1, i, j);
        let j1 = choose|j1: int| a <= j1 < e1 && #[trigger] slot_decision(c, wl, n, s1, j1) == Some(r1[i]) && exists|j2: int|
            j1 < j2 < e1 && #[trigger] slot_decision(c, wl, n, s1, j2) == Some(r1[j]);
        let j2 = choose|j2: int| j1 < j2 < e1 && #[trigger] slot_decision(c, wl, n, s1, j2) == Some(r1[j]);
        slot_commit_is_leader_block(c, wl, n, s1, j1);
        slot_commit_is_leader_block(c, wl, n, s1, j2);
        lemma_slot_blocks_distinct(c, wl, n, j1, j2, r1[i]->Commit_0, r1[j]->Commit_0);
    }
}

/// A commit decided at slot `j` is that slot's leader block.
proof fn slot_commit_is_leader_block(c: CommitteeView, wl: u64, n: nat, s: Seq<BlockView>, j: int)
    ensures
        slot_decision(c, wl, n, s, j) matches Some(Decision::Commit(b)) ==> slot_leader_block(c, wl, n, j, b),
{
    let w = j / (n as int);
    let off = (j % (n as int)) as u32;
    let lr = w * wl;
    let leader = elected(c, lr as u64, off);
    lemma_first_block_by(s, lr, leader);
}

/// Two decisions of a run at positions `i < j` come from slots in that order.
proof fn lemma_slots_increase(c: CommitteeView, wl: u64, n: nat, s: Seq<BlockView>, a: int, b: int, i: int, j: int)
    requires
        0 <= i < j < slot_decisions(c, wl, n, s, a, b).len(),
    ensures
        exists|j1: int|
            a <= j1 < b && #[trigger] slot_decision(c, wl, n, s, j1) == Some(slot_decisions(c, wl, n, s, a, b)[i]) && exists|j2: int|
                j1 < j2 < b && #[trigger] slot_decision(c, wl, n, s, j2) == Some(slot_decisions(c, wl, n, s, a, b)[j]),
    decreases b - a,
{
    let ds = slot_decisions(c, wl, n, s, a, b);
    let p = slot_decisions(c, wl, n, s, a, b - 1);
    if j < p.len() {
        assert(ds[i] == p[i] && ds[j] == p[j]);
        lemma_slots_increase(c, wl, n, s, a, b - 1, i, j);
    } else {
        assert(ds[i] == p[i]);
        lemma_slot_decisions_at(c, wl, n, s, a, b - 1, i);
        assert(slot_decision(c, wl, n, s, b - 1) == Some(ds[j]));
    }
}

impl<H: BlockHandler> Core<H> {
    pub closed spec fn blocks(&self) -> Seq<BlockView> {
        self.manager.blocks()
    }

    /// The block handler that supplies the statements of new blocks.
    pub closed spec fn handler(&self) -> H {
        self.handler
    }

    /// The first leader slot not decided yet (slot `w * n + k` is leader `k` of
    /// wave `w`, with `n` leaders per wave): the next commit run starts there.
    pub closed spec fn resume(&self) -> int {
        self.next_wave * self.params.number_of_leaders + self.next_slot
    }

    pub closed spec fn settings(&self) -> CoreSettings {
        CoreSettings {
            committee: self.committee@,
            authority: self.authority_index,
            signer: match self.signer {
                Some(k) => Some(k@),
                None => None,
            },
            wave_length: self.params.wave_length,
            number_of_leaders: self.params.number_of_leaders,
            enable_cleanup: self.params.enable_cleanup,
            retain_rounds: self.params.store_retain_rounds,
        }
    }

    pub closed spec fn wf(&self) -> bool {
        &&& self.manager.wf()
        &&& self.committer.wf()
        &&& self.manager.committee_view() == self.committee@
        &&& self.committer.number_of_leaders() == self.params.number_of_leaders
        &&& self.params.number_of_leaders > 0 ==> self.committer.committee_view() == self.committee@
            && self.committer.wave_length_view() == self.params.wave_length
        &&& self.next_slot == 0 || self.next_slot < self.params.number_of_leaders
        &&& self.next_wave * self.params.wave_length + self.params.wave_length <= u64::MAX
    }

    /// The commit rule can run and its round arithmetic stays within `u64`: waves
    /// are at least one round long, at least one leader slot, a positive quorum,
    /// and every stored round leaves room for one more wave.
    pub open spec fn can_commit(&self) -> bool {
        &&& self.settings().wave_length > 0
        &&& self.settings().number_of_leaders > 0
        &&& self.settings().committee.quorum_threshold > 0
        &&& forall|i: int|
            0 <= i < self.blocks().len() ==> #[trigger] self.blocks()[i].round + self.settings().wave_length
                < u64::MAX
    }

    /// The next own round is representable.
    pub open spec fn can_propose(&self) -> bool {
        max_round_of(self.blocks(), self.settings().authority) != Some(u64::MAX)
    }

    pub fn new(
        params: Parameters,
        committee: Committee,
        authority_index: AuthorityIndex,
        signer: Option<SecretKey>,
        handler: H,
    ) -> (r: Self)
        ensures
            r.wf(),
            r.blocks() == Seq::<BlockView>::empty(),
            r.resume() == 0,
            r.settings() == (CoreSettings {
                committee: committee@,
                authority: authority_index,
                signer: match signer {
                    Some(k) => Some(k@),
                    None => None,
                },
                wave_length: params.wave_length,
                number_of_leaders: params.number_of_leaders,
                enable_cleanup: params.enable_cleanup,
                retain_rounds: params.store_retain_rounds,
            }),
    {
        let committer = UniversalCommitter::new(
            committee.clone(),
            params.wave_length,
            params.number_of_leaders,
        );
        let manager = BlockManager::new(committee.clone());
        Core {
            params,
            committee,
            manager,
            committer,
            signer,
            authority_index,
            handler,
            next_wave: 0,
            next_slot: 0,
        }
    }

    pub fn manager(&self) -> (r: &BlockManager)
        requires
            self.wf(),
        ensures
            r.wf(),
            r.blocks() == self.blocks(),
            r.committee_view() == self.settings().committee,
    {
        &self.manager
    }

    pub fn committee(&self) -> (r: &Committee)
        ensures
            r@ == self.settings().committee,
    {
        &self.committee
    }

    /// Whether `can_commit` holds (callers test it before `try_commit`).
    pub fn commit_in_range(&self) -> (r: bool)
        requires
            self.wf(),
        ensures
            r == self.can_commit(),
    {
        let wl = self.params.wave_length;
        if wl == 0 || self.params.number_of_leaders == 0 || self.committee.quorum_threshold == 0 {
            return false;
        }
        let store = self.manager.store();
        let n = store.len();
        let mut i: usize = 0;
        while i < n
            invariant
                i <= n,
                n == store@.len(),
                store@ == self.blocks(),
                wl == self.settings().wave_length,
                forall|k: int| 0 <= k < i ==> #[trigger] store@[k].round + wl < u64::MAX,
            decreases n - i,
        {
            let round = store.block_at(i).inner().round;
            if round >= u64::MAX - wl {
                assert(self.blocks()[i as int].round + self.settings().wave_length >= u64::MAX);
                return false;
            }
            i = i + 1;
        }
        true
    }

    /// Whether `can_propose` holds (callers test it before `try_new_block`).
    pub fn propose_in_range(&self) -> (r: bool)
        requires
            self.wf(),
        ensures
            r == self.can_propose(),
    {
        self.manager.highest_round(self.authority_index) != Some(u64::MAX)
    }

    /// Add blocks received from the network; returns the newly accepted ones.
    pub fn add_blocks(&mut self, blocks: Vec<Data<StatementBlock>>) -> (r: Vec<Data<StatementBlock>>)
        requires
            old(self).wf(),
        ensures
            final(self).wf(),
            final(self).settings() == old(self).settings(),
            final(self).handler() == old(self).handler(),
            final(self).resume() == old(self).resume(),
            (final(self).blocks(), views(r@)) == admit_blocks(old(self).settings().committee, old(self).blocks(), views(blocks@)),
    {
        let accepted = self.manager.add_blocks(blocks);
        if accepted.len() > 0 {
            self.handler.on_blocks(accepted.as_slice());
        }
        accepted
    }

    /// Seal and store this authority's next block with the given statements: the
    /// block of the next own round that includes every stored block of the previous
    /// round, with its digest and signature computed over the proposal message; none
    /// when those blocks do not hold a quorum (the block would break the inclusion rule).
    pub fn propose_with(&mut self, statements: Vec<BaseStatement>) -> (r: Option<Data<StatementBlock>>)
        requires
            old(self).wf(),
            old(self).can_propose(),
        ensures
            final(self).wf(),
            final(self).settings() == old(self).settings(),
            final(self).handler() == old(self).handler(),
            final(self).resume() == old(self).resume(),
            r is Some <==> meets_inclusion_rule(
                old(self).settings().committee,
                includes_for_round(old(self).blocks(), next_round(old(self).blocks(), old(self).settings().authority) as u64),
                next_round(old(self).blocks(), old(self).settings().authority) as u64,
            ),
            r is None ==> final(self).blocks() == old(self).blocks(),
            r matches Some(b) ==> is_proposal(
                b@,
                old(self).settings().authority,
                next_round(old(self).blocks(), old(self).settings().authority) as u64,
                includes_for_round(old(self).blocks(), next_round(old(self).blocks(), old(self).settings().authority) as u64),
                statements@.map_values(|s: BaseStatement| s@),
                old(self).settings().committee.epoch,
                old(self).settings().signer,
            ),
            r matches Some(b) ==> final(self).blocks() == store_insert(old(self).blocks(), b@),
            r matches Some(b) ==> b@.includes.no_duplicates(),
    {
        let my_round = match self.manager.highest_round(self.authority_index) {
            Some(r) => r + 1,
            None => 0,
        };
        let includes = self.manager.required_includes_for_round(self.authority_index, my_round);
        if !self.manager.meets_inclusion_rule(&includes, my_round) {
            return None;
        }
        let mut block = StatementBlock::new(
            self.authority_index,
            my_round,
            BlockDigest([0u8; 32]),
            includes,
            statements,
            self.committee.epoch,
            BlockSignature(Vec::new()),
        );
        proof {
            assert(block@.digest.0@ =~= zero_digest());
            assert(block@.signature =~= Seq::<u8>::empty());
            assert(block_bytes(block@) == proposal_message(
                block@.creator,
                block@.round,
                block@.includes,
                block@.statements,
                block@.epoch,
            ));
        }
        let (digest, signature) = match &self.signer {
            Some(s) => s.sign_block(&block),
            None => (block_digest(&block), BlockSignature(Vec::new())),
        };
        block.digest = digest;
        block.signature = signature;
        let data = Data::new(block);
        self.manager.insert_block(data.clone());
        Some(data)
    }

    /// Create, store and return this authority's next block; its statements are
    /// those the block handler gives for its authority, round and includes. Returns
    /// `None` (and stores nothing) when the stored blocks of the previous round do
    /// not hold a quorum, so that every proposed block obeys the inclusion rule.
    pub fn try_new_block(&mut self) -> (r: Option<Data<StatementBlock>>)
        requires
            old(self).wf(),
            old(self).can_propose(),
        ensures
            final(self).wf(),
            final(self).settings() == old(self).settings(),
            final(self).handler() == old(self).handler(),
            final(self).resume() == old(self).resume(),
            r is Some <==> meets_inclusion_rule(
                old(self).settings().committee,
                includes_for_round(old(self).blocks(), next_round(old(self).blocks(), old(self).settings().authority) as u64),
                next_round(old(self).blocks(), old(self).settings().authority) as u64,
            ),
            r is None ==> final(self).blocks() == old(self).blocks(),
            r matches Some(b) ==> is_proposal(
                b@,
                old(self).settings().authority,
                next_round(old(self).blocks(), old(self).settings().authority) as u64,
                includes_for_round(old(self).blocks(), next_round(old(self).blocks(), old(self).settings().authority) as u64),
                old(self).handler().statements_spec(
                    old(self).settings().authority,
                    next_round(old(self).blocks(), old(self).settings().authority) as u64,
                    includes_for_round(old(self).blocks(), next_round(old(self).blocks(), old(self).settings().authority) as u64),
                ),
                old(self).settings().committee.epoch,
                old(self).settings().signer,
            ),
            r matches Some(b) ==> final(self).blocks() == store_insert(old(self).blocks(), b@),
            r matches Some(b) ==> b@.includes.no_duplicates(),
    {
        let my_round = match self.manager.highest_round(self.authority_index) {
            Some(r) => r + 1,
            None => 0,
        };
        let includes = self.manager.required_includes_for_round(self.authority_index, my_round);
        if !self.manager.meets_inclusion_rule(&includes, my_round) {
            return None;
        }
        let statements = self.handler.statements_for_block(
            self.authority_index,
            my_round,
            includes.as_slice(),
        );
        self.propose_with(statements)
    }

    /// Run the commit rule from the first leader slot not decided yet up to the
    /// next undecided one, hand the decisions to `observer`, resume there next
    /// time, and (when enabled) drop blocks older than the retention window below
    /// this authority's highest round.
    pub fn try_commit<O: CommitObserver>(&mut self, observer: &mut O) -> (r: Vec<LeaderStatus>)
        requires
            old(self).wf(),
            old(self).can_commit(),
        ensures
            final(self).wf(),
            final(self).settings() == old(self).settings(),
            final(self).handler() == old(self).handler(),
            run_until(
                old(self).settings().committee,
                old(self).settings().wave_length,
                old(self).settings().number_of_leaders as nat,
                old(self).blocks(),
                old(self).resume(),
                final(self).resume(),
                decision_views(r@),
            ),
            final(observer).received() == old(observer).received().push(decision_views(r@)),
            forall|i: int| 0 <= i < r@.len() ==> !(#[trigger] decision_views(r@)[i] is Undecided),
            final(self).blocks() == if old(self).settings().enable_cleanup {
                rounds_from(
                    old(self).blocks(),
                    cleanup_cutoff(
                        match max_round_of(old(self).blocks(), old(self).settings().authority) {
                            Some(m) => m,
                            None => 0,
                        },
                        old(self).settings().retain_rounds,
                    ),
                )
            } else {
                old(self).blocks()
            },
    {
        let ghost c = self.committee@;
        let ghost n = self.params.number_of_leaders as nat;
        let ghost wl = self.params.wave_length;
        let ghost s = self.manager.blocks();
        let ghost a = self.resume();
        let (results, w, k) = self.committer.try_commit_from(self.next_wave, self.next_slot, self.manager.store());
        self.next_wave = w;
        self.next_slot = k;
        proof {
            lemma_run_decided(c, wl, n, s, a, self.resume(), decision_views(results@));
        }
        observer.handle_commit(copy_statuses(&results));
        if self.params.enable_cleanup {
            let current = match self.manager.highest_round(self.authority_index) {
                Some(r) => r,
                None => 0,
            };
            self.manager.cleanup(current, self.params.store_retain_rounds);
        }
        results
    }
}

/// A copy of a list of leader statuses.
fn copy_statuses(v: &Vec<LeaderStatus>) -> (r: Vec<LeaderStatus>)
    ensures
        decision_views(r@) == decision_views(v@),
{
    let mut out: Vec<LeaderStatus> = Vec::new();
    let mut i: usize = 0;
    while i < v.len()
        invariant
            i <= v@.len(),
            out@.len() == i,
            forall|k: int| 0 <= k < i ==> out@[k]@ == v@[k]@,
        decreases v@.len() - i,
    {
        out.push(v[i].clone());
        i = i + 1;
    }
    assert(decision_views(out@) =~= decision_views(v@));
    out
}

} // verus!
