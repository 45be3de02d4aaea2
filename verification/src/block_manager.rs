//! Block manager: admits blocks that respect round ordering and inclusion rules.

use vstd::prelude::*;

use crate::block_store::{has_ref, into_reversed, max_round_of, refs_at_round, refs_distinct, rounds_from, store_insert, views, BlockStore};
use crate::block_validator::{authority_included, block_valid, meets_inclusion_rule, BlockValidator};
use crate::committee::{Committee, CommitteeView};
use crate::data::Data;
use crate::types::{ref_of, AuthorityIndex, BlockReference, BlockView, RoundNumber, StatementBlock};

verus! {

/// The store and the accepted blocks after offering `bs` in turn to a store
/// holding `s`: a block is accepted when it is valid against the store as it
/// stands at that point and its reference is not stored yet.
pub open spec fn admit_blocks(c: CommitteeView, s: Seq<BlockView>, bs: Seq<BlockView>) -> (Seq<BlockView>, Seq<BlockView>)
    decreases bs.len(),
{
    if bs.len() == 0 {
        (s, seq![])
    } else {
        let prev = admit_blocks(c, s, bs.drop_last());
        let b = bs.last();
        if block_valid(c, prev.0, b) && !has_ref(prev.0, ref_of(b)) {
            (prev.0.push(b), prev.1.push(b))
        } else {
            prev
        }
    }
}

/// The references a new block at `round` includes: every stored block of the
/// previous round (none at round 0).
pub open spec fn includes_for_round(s: Seq<BlockView>, round: RoundNumber) -> Seq<BlockReference> {
    if round == 0 {
        seq![]
    } else {
        refs_at_round(s, (round - 1) as u64)
    }
}

/// Every block of `s` includes only blocks stored in `s`.
pub open spec fn causally_closed(s: Seq<BlockView>) -> bool {
    forall|i: int, k: int| 0 <= i < s.len() && 0 <= k < s[i].includes.len() ==> has_ref(s, #[trigger] s[i].includes[k])
}

/// Admitting blocks only appends to the store, every accepted block is stored, and
/// a store that holds everything its blocks include keeps doing so.
pub proof fn lemma_admit_preserves_closure(c: CommitteeView, s: Seq<BlockView>, bs: Seq<BlockView>)
    ensures
        admit_blocks(c, s, bs).0.len() >= s.len(),
        forall|i: int| 0 <= i < s.len() ==> #[trigger] admit_blocks(c, s, bs).0[i] == s[i],
        forall|j: int| 0 <= j < admit_blocks(c, s, bs).1.len() ==> admit_blocks(c, s, bs).0.contains(#[trigger] admit_blocks(c, s, bs).1[j]),
        causally_closed(s) ==> causally_closed(admit_blocks(c, s, bs).0),
    decreases bs.len(),
{
    if bs.len() > 0 {
        let prev = admit_blocks(c, s, bs.drop_last());
        lemma_admit_preserves_closure(c, s, bs.drop_last());
        let b = bs.last();
        if block_valid(c, prev.0, b) && !has_ref(prev.0, ref_of(b)) {
            let t = prev.0.push(b);
            let acc = prev.1.push(b);
            assert(t[prev.0.len() as int] == b);
            assert forall|j: int| 0 <= j < acc.len() implies t.contains(#[trigger] acc[j]) by {
                if j < prev.1.len() {
                    let m = choose|m: int| 0 <= m < prev.0.len() && prev.0[m] == prev.1[j];
                    assert(t[m] == prev.0[m]);
                } else {
                    assert(t[prev.0.len() as int] == acc[j]);
                }
            }
            if causally_closed(s) {
                assert forall|i: int, k: int| 0 <= i < t.len() && 0 <= k < t[i].includes.len() implies has_ref(t, #[trigger] t[i].includes[k]) by {
                    let y = t[i].includes[k];
                    if i < prev.0.len() {
                        assert(t[i] == prev.0[i]);
                        assert(has_ref(prev.0, prev.0[i].includes[k]));
                    } else {
                        assert(t[i] == b);
                        assert(has_ref(prev.0, b.includes[k]));
                    }
                    let m = choose|m: int| 0 <= m < prev.0.len() && ref_of(prev.0[m]) == y;
                    assert(t[m] == prev.0[m]);
                }
            }
        }
    }
}

/// Admitting the blocks `bs.take(m)` extends the store reached after `bs.take(i0)`
/// with blocks of the batch at positions `i0..m`.
proof fn lemma_admit_extends(c: CommitteeView, s: Seq<BlockView>, bs: Seq<BlockView>, i0: int, m: int)
    requires
        0 <= i0 <= m <= bs.len(),
    ensures
        admit_blocks(c, s, bs.take(m)).0.len() >= admit_blocks(c, s, bs.take(i0)).0.len(),
        forall|k: int|
            0 <= k < admit_blocks(c, s, bs.take(i0)).0.len() ==> #[trigger] admit_blocks(c, s, bs.take(m)).0[k]
                == admit_blocks(c, s, bs.take(i0)).0[k],
        forall|k: int|
            admit_blocks(c, s, bs.take(i0)).0.len() <= k < admit_blocks(c, s, bs.take(m)).0.len() ==> exists|j: int|
                i0 <= j < m && #[trigger] admit_blocks(c, s, bs.take(m)).0[k] == bs[j],
    decreases m - i0,
{
    if m > i0 {
        lemma_admit_extends(c, s, bs, i0, m - 1);
        let t = bs.take(m);
        assert(t.drop_last() =~= bs.take(m - 1));
        assert(t.last() == bs[m - 1]);
        let prev = admit_blocks(c, s, bs.take(m - 1)).0;
        let cur = admit_blocks(c, s, t).0;
        let base = admit_blocks(c, s, bs.take(i0)).0;
        if cur != prev {
            assert(cur == prev.push(bs[m - 1]));
            assert forall|k: int| base.len() <= k < cur.len() implies exists|j: int| i0 <= j < m && #[trigger] cur[k] == bs[j] by {
                if k < prev.len() {
                    let j = choose|j: int| i0 <= j < m - 1 && #[trigger] prev[k] == bs[j];
                    assert(cur[k] == bs[j]);
                } else {
                    assert(cur[k] == bs[m - 1]);
                }
            }
        }
    }
}

/// A batch every block of which is refused by the store `s` leaves it unchanged.
proof fn lemma_admit_none(c: CommitteeView, s: Seq<BlockView>, bs: Seq<BlockView>)
    requires
        forall|i: int| 0 <= i < bs.len() ==> !(block_valid(c, s, #[trigger] bs[i]) && !has_ref(s, ref_of(bs[i]))),
    ensures
        admit_blocks(c, s, bs) == (s, Seq::<BlockView>::empty()),
    decreases bs.len(),
{
    if bs.len() > 0 {
        let p = bs.drop_last();
        assert forall|i: int| 0 <= i < p.len() implies !(block_valid(c, s, #[trigger] p[i]) && !has_ref(s, ref_of(p[i]))) by {
            assert(p[i] == bs[i]);
        }
        lemma_admit_none(c, s, p);
        assert(bs.last() == bs[bs.len() - 1]);
    }
}

/// Offering the same batch twice accepts nothing the second time and leaves the
/// store as the first offer left it, provided no block of the batch includes a
/// later block of the batch from a lower round (so a batch in causal order, or
/// one sorted by round, qualifies).
pub proof fn lemma_add_blocks_idempotent(c: CommitteeView, s: Seq<BlockView>, bs: Seq<BlockView>)
    requires
        forall|i: int, j: int|
            0 <= i < j < bs.len() && (#[trigger] bs[i]).includes.contains(ref_of(#[trigger] bs[j])) ==> bs[i].round
                <= bs[j].round,
    ensures
        admit_blocks(c, admit_blocks(c, s, bs).0, bs) == (admit_blocks(c, s, bs).0, Seq::<BlockView>::empty()),
{
    let s1 = admit_blocks(c, s, bs).0;
    assert(bs.take(bs.len() as int) =~= bs);
    assert forall|i: int| 0 <= i < bs.len() implies !(block_valid(c, s1, #[trigger] bs[i]) && !has_ref(s1, ref_of(bs[i]))) by {
        let b = bs[i];
        let pi = admit_blocks(c, s, bs.take(i)).0;
        let pn = admit_blocks(c, s, bs.take(i + 1)).0;
        assert(bs.take(i + 1).drop_last() =~= bs.take(i));
        assert(bs.take(i + 1).last() == b);
        lemma_admit_extends(c, s, bs, i + 1, bs.len() as int);
        if block_valid(c, pi, b) && !has_ref(pi, ref_of(b)) {
            assert(pn == pi.push(b));
            assert(s1[pi.len() as int] == pn[pi.len() as int]);
        } else if has_ref(pi, ref_of(b)) {
            lemma_admit_extends(c, s, bs, i, i + 1);
            let k = choose|k: int| 0 <= k < pi.len() && ref_of(pi[k]) == ref_of(b);
            assert(pn[k] == pi[k]);
            assert(s1[k] == pn[k]);
        } else {
            assert(pn == pi);
            if block_valid(c, s1, b) {
                assert forall|k: int| 0 <= k < b.includes.len() implies has_ref(pi, #[trigger] b.includes[k]) by {
                    let y = b.includes[k];
                    assert(has_ref(s1, y));
                    let m = choose|m: int| 0 <= m < s1.len() && ref_of(s1[m]) == y;
                    if m < pi.len() {
                        assert(s1[m] == pi[m]);
                    } else {
                        let j = choose|j: int| i + 1 <= j < bs.len() && #[trigger] s1[m] == bs[j];
                        assert(bs[i].includes[k] == y);
                        assert(bs[i].includes.contains(ref_of(bs[j])));
                        assert(y.round < b.round);
                        assert(false);
                    }
                }
                assert(block_valid(c, pi, b));
            }
        }
    }
    lemma_admit_none(c, s1, bs);
}

/// Offering a batch sorted by round a second time accepts nothing and leaves the
/// store unchanged.
pub proof fn lemma_add_sorted_blocks_idempotent(c: CommitteeView, s: Seq<BlockView>, bs: Seq<BlockView>)
    requires
        forall|i: int, j: int| 0 <= i < j < bs.len() ==> (#[trigger] bs[i]).round <= (#[trigger] bs[j]).round,
    ensures
        admit_blocks(c, admit_blocks(c, s, bs).0, bs) == (admit_blocks(c, s, bs).0, Seq::<BlockView>::empty()),
{
    lemma_add_blocks_idempotent(c, s, bs);
}

/// The references a new block includes are exactly the stored blocks of the
/// previous round, each of which is stored.
pub proof fn lemma_includes_are_stored(s: Seq<BlockView>, round: RoundNumber)
    ensures
        forall|k: int| 0 <= k < includes_for_round(s, round).len() ==> {
            &&& has_ref(s, #[trigger] includes_for_round(s, round)[k])
            &&& includes_for_round(s, round)[k].round == round - 1
        },
{
    if round > 0 {
        lemma_refs_at_round((round - 1) as u64, s);
    }
}

/// Over blocks with distinct references, the references a new block includes
/// are free of duplicates.
pub proof fn lemma_includes_distinct(s: Seq<BlockView>, round: RoundNumber)
    requires
        refs_distinct(s),
    ensures
        includes_for_round(s, round).no_duplicates(),
{
    if round > 0 {
        lemma_refs_at_round_distinct((round - 1) as u64, s);
    }
}

proof fn lemma_refs_at_round_distinct(round: RoundNumber, s: Seq<BlockView>)
    requires
        refs_distinct(s),
    ensures
        refs_at_round(s, round).no_duplicates(),
    decreases s.len(),
{
    if s.len() > 0 {
        let p = s.drop_last();
        assert(refs_distinct(p)) by {
            assert forall|i: int, j: int| 0 <= i < p.len() && 0 <= j < p.len() && i != j implies ref_of(p[i]) != ref_of(p[j]) by {
                assert(p[i] == s[i] && p[j] == s[j]);
            }
        }
        lemma_refs_at_round_distinct(round, p);
        lemma_refs_at_round(round, p);
        let rp = refs_at_round(p, round);
        if s.last().round == round {
            let x = ref_of(s.last());
            assert forall|k: int| 0 <= k < rp.len() implies rp[k] != x by {
                let m = choose|m: int| 0 <= m < p.len() && ref_of(p[m]) == rp[k];
                assert(s[m] == p[m]);
                assert(s[s.len() - 1] == s.last());
            }
            let r = rp.push(x);
            assert forall|i: int, j: int| 0 <= i < r.len() && 0 <= j < r.len() && i != j implies r[i] != r[j] by {
                if i < rp.len() && j < rp.len() {
                    assert(r[i] == rp[i] && r[j] == rp[j]);
                } else if i < rp.len() {
                    assert(r[i] == rp[i]);
                } else {
                    assert(r[j] == rp[j]);
                }
            }
        }
    }
}

/// Every stored block at `round` is among the references at that round.
proof fn lemma_refs_at_round_complete(round: RoundNumber, s: Seq<BlockView>)
    ensures
        forall|k: int| 0 <= k < s.len() && (#[trigger] s[k]).round == round ==> refs_at_round(s, round).contains(ref_of(s[k])),
    decreases s.len(),
{
    if s.len() > 0 {
        let p = s.drop_last();
        lemma_refs_at_round_complete(round, p);
        let r = refs_at_round(s, round);
        let rp = refs_at_round(p, round);
        assert forall|k: int| 0 <= k < s.len() && (#[trigger] s[k]).round == round implies r.contains(ref_of(s[k])) by {
            if k < p.len() {
                assert(s[k] == p[k]);
                let m = choose|m: int| 0 <= m < rp.len() && rp[m] == ref_of(p[k]);
                if s.last().round == round {
                    assert(r[m] == rp[m]);
                } else {
                    assert(r == rp);
                }
            } else {
                assert(s[k] == s.last());
                assert(r[rp.len() as int] == ref_of(s.last()));
            }
        }
    }
}

/// The references at `round` name, for each authority, a block of it at that
/// round exactly when the store holds one.
pub proof fn lemma_refs_at_round_members(s: Seq<BlockView>, round: RoundNumber)
    ensures
        forall|i: int|
            authority_included(refs_at_round(s, round), round, i) <==> exists|k: int|
                0 <= k < s.len() && (#[trigger] s[k]).round == round && s[k].creator.0 == i,
{
    lemma_refs_at_round(round, s);
    lemma_refs_at_round_complete(round, s);
    let r = refs_at_round(s, round);
    assert forall|i: int|
        authority_included(r, round, i) <==> exists|k: int| 0 <= k < s.len() && (#[trigger] s[k]).round == round && s[k].creator.0 == i by {
        if authority_included(r, round, i) {
            let q = choose|q: int| 0 <= q < r.len() && r[q].round == round && r[q].authority.0 == i;
            assert(has_ref(s, r[q]));
            let m = choose|m: int| 0 <= m < s.len() && ref_of(s[m]) == r[q];
            assert(s[m].round == round && s[m].creator.0 == i);
        }
        if exists|k: int| 0 <= k < s.len() && (#[trigger] s[k]).round == round && s[k].creator.0 == i {
            let k = choose|k: int| 0 <= k < s.len() && (#[trigger] s[k]).round == round && s[k].creator.0 == i;
            assert(r.contains(ref_of(s[k])));
            let q = choose|q: int| 0 <= q < r.len() && r[q] == ref_of(s[k]);
            assert(r[q].round == round && r[q].authority.0 == i);
        }
    }
}

proof fn lemma_refs_at_round(round: RoundNumber, s: Seq<BlockView>)
    ensures
        forall|k: int| 0 <= k < refs_at_round(s, round).len() ==> {
            &&& has_ref(s, #[trigger] refs_at_round(s, round)[k])
            &&& refs_at_round(s, round)[k].round == round
        },
    decreases s.len(),
{
    if s.len() > 0 {
        let p = s.drop_last();
        lemma_refs_at_round(round, p);
        let r = refs_at_round(s, round);
        let rp = refs_at_round(p, round);
        assert forall|k: int| 0 <= k < r.len() implies has_ref(s, #[trigger] r[k]) && r[k].round == round by {
            if k < rp.len() {
                assert(r[k] == rp[k]);
                let m = choose|m: int| 0 <= m < p.len() && ref_of(p[m]) == rp[k];
                assert(s[m] == p[m]);
            } else {
                assert(r[k] == ref_of(s.last()));
                assert(s[s.len() - 1] == s.last());
            }
        }
    }
}

/// Manages the DAG: admits only blocks that respect round ordering and inclusion rules.
pub struct BlockManager {
    store: BlockStore,
    committee: Committee,
    validator: BlockValidator,
}

impl BlockManager {
    /// The blocks held by the manager's store.
    pub closed spec fn blocks(&self) -> Seq<BlockView> {
        self.store@
    }

    /// The committee the manager validates against.
    pub closed spec fn committee_view(&self) -> CommitteeView {
        self.committee@
    }

    pub closed spec fn wf(&self) -> bool {
        &&& self.store.wf()
        &&& self.validator@ == self.committee@
    }

    pub fn new(committee: Committee) -> (r: Self)
        ensures
            r.wf(),
            r.blocks() == Seq::<BlockView>::empty(),
            r.committee_view() == committee@,
    {
        let validator = BlockValidator::new(committee.clone());
        BlockManager { store: BlockStore::new(), validator, committee }
    }

    pub fn store(&self) -> (r: &BlockStore)
        requires
            self.wf(),
        ensures
            r@ == self.blocks(),
            r.wf(),
    {
        &self.store
    }

    pub fn committee(&self) -> (r: &Committee)
        ensures
            r@ == self.committee_view(),
    {
        &self.committee
    }

    /// Add blocks from the network; returns those that were newly accepted.
    pub fn add_blocks(&mut self, blocks: Vec<Data<StatementBlock>>) -> (r: Vec<Data<StatementBlock>>)
        requires
            old(self).wf(),
        ensures
            final(self).wf(),
            final(self).committee_view() == old(self).committee_view(),
            (final(self).blocks(), views(r@)) == admit_blocks(old(self).committee_view(), old(self).blocks(), views(blocks@)),
    {
        let ghost c = self.committee@;
        let ghost s0 = self.store@;
        let ghost bs = views(blocks@);
        let mut pending = into_reversed(blocks);
        let mut accepted: Vec<Data<StatementBlock>> = Vec::new();
        let mut done: usize = 0;
        assert(views(pending@) =~= bs.reverse().take(bs.len() - 0));
        assert(pending.len() == pending@.len());
        assert(bs.take(0) =~= Seq::<BlockView>::empty());
        assert(views(accepted@) =~= Seq::<BlockView>::empty());
        while pending.len() > 0
            invariant
                self.wf(),
                self.committee@ == c,
                views(pending@) == bs.reverse().take(bs.len() - done),
                pending@.len() + done == bs.len(),
                bs.len() <= usize::MAX,
                (self.store@, views(accepted@)) == admit_blocks(c, s0, bs.take(done as int)),
            decreases pending@.len(),
        {
            let ghost before_p = views(pending@);
            let block = pending.pop().unwrap();
            proof {
                assert(block@ == before_p.last());
                assert(bs.take(done + 1).drop_last() =~= bs.take(done as int));
                assert(bs.take(done + 1).last() == bs[done as int]);
            }
            if self.validator.validate(block.inner(), &self.store) {
                let reference = block.inner().reference();
                if !self.store.contains(&reference) {
                    let ghost before_a = views(accepted@);
                    let ghost before_s = self.store@;
                    self.store.insert(block.clone());
                    accepted.push(block);
                    assert(views(accepted@) =~= before_a.push(bs[done as int]));
                    assert(self.store@ == before_s.push(bs[done as int]));
                }
            }
            done = done + 1;
            assert(views(pending@) =~= bs.reverse().take(bs.len() - done));
        }
        assert(bs.take(bs.len() as int) =~= bs);
        accepted
    }

    /// The highest round stored for an authority.
    pub fn highest_round(&self, authority: AuthorityIndex) -> (r: Option<RoundNumber>)
        ensures
            r == max_round_of(self.blocks(), authority),
    {
        self.store.max_round_for_authority(authority)
    }

    /// References a block at `round` must include: all stored references of the
    /// previous round.
    pub fn required_includes_for_round(&self, _authority: AuthorityIndex, round: RoundNumber) -> (r: Vec<BlockReference>)
        ensures
            r@ == includes_for_round(self.blocks(), round),
            self.wf() ==> r@.no_duplicates(),
    {
        proof {
            if self.wf() {
                self.store.lemma_wf_distinct();
                lemma_includes_distinct(self.blocks(), round);
            }
        }
        if round == 0 {
            return Vec::new();
        }
        let prev = round - 1;
        self.store.references_at_round(prev)
    }

    /// Whether a block at `round` with these includes obeys the inclusion rule.
    pub(crate) fn meets_inclusion_rule(&self, includes: &Vec<BlockReference>, round: RoundNumber) -> (r: bool)
        requires
            self.wf(),
        ensures
            r == meets_inclusion_rule(self.committee_view(), includes@, round),
    {
        if round == 0 {
            return true;
        }
        self.validator.stake_included(includes, round - 1) >= self.committee.quorum_threshold as u128
    }

    /// Stores a block without validating it (blocks created by this authority).
    pub(crate) fn insert_block(&mut self, block: Data<StatementBlock>)
        requires
            old(self).wf(),
        ensures
            final(self).wf(),
            final(self).committee_view() == old(self).committee_view(),
            final(self).blocks() == store_insert(old(self).blocks(), block@),
    {
        self.store.insert(block);
    }

    /// Drops stored blocks below the cutoff round.
    pub(crate) fn cleanup(&mut self, current_round: RoundNumber, retain_rounds: u64)
        requires
            old(self).wf(),
        ensures
            final(self).wf(),
            final(self).committee_view() == old(self).committee_view(),
            final(self).blocks() == rounds_from(
                old(self).blocks(),
                if current_round >= retain_rounds {
                    (current_round - retain_rounds) as u64
                } else {
                    0
                },
            ),
    {
        self.store.cleanup_old_rounds(current_round, retain_rounds);
    }
}

} // verus!
