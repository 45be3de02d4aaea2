//! Block storage: store and retrieve blocks by reference.

use vstd::prelude::*;

use crate::data::Data;
use crate::types::{ref_of, same_reference, AuthorityIndex, BlockReference, BlockView, RoundNumber, StatementBlock};

verus! {

/// `s` holds a block with reference `r`.
pub open spec fn has_ref(s: Seq<BlockView>, r: BlockReference) -> bool {
    exists|i: int| 0 <= i < s.len() && ref_of(s[i]) == r
}

/// No two blocks of `s` share a reference.
pub open spec fn refs_distinct(s: Seq<BlockView>) -> bool {
    forall|i: int, j: int| 0 <= i < s.len() && 0 <= j < s.len() && i != j ==> ref_of(s[i]) != ref_of(s[j])
}

/// The position of the block with reference `r` in `s` (meaningful when `has_ref(s, r)`).
pub open spec fn position_of(s: Seq<BlockView>, r: BlockReference) -> int {
    choose|i: int| 0 <= i < s.len() && ref_of(s[i]) == r
}

/// The block with reference `r`, if `s` holds one.
pub open spec fn lookup(s: Seq<BlockView>, r: BlockReference) -> Option<BlockView> {
    if has_ref(s, r) {
        Some(s[position_of(s, r)])
    } else {
        None
    }
}

/// `s` after storing `b`: the block with the same reference is replaced, or `b` is appended.
pub open spec fn store_insert(s: Seq<BlockView>, b: BlockView) -> Seq<BlockView> {
    if has_ref(s, ref_of(b)) {
        s.update(position_of(s, ref_of(b)), b)
    } else {
        s.push(b)
    }
}

/// `s` after storing each block of `bs` in turn.
pub open spec fn store_insert_all(s: Seq<BlockView>, bs: Seq<BlockView>) -> Seq<BlockView>
    decreases bs.len(),
{
    if bs.len() == 0 {
        s
    } else {
        store_insert(store_insert_all(s, bs.drop_last()), bs.last())
    }
}

/// The blocks of `s` whose round is at least `cutoff`, in order.
pub open spec fn rounds_from(s: Seq<BlockView>, cutoff: RoundNumber) -> Seq<BlockView>
    decreases s.len(),
{
    if s.len() == 0 {
        s
    } else if s.last().round >= cutoff {
        rounds_from(s.drop_last(), cutoff).push(s.last())
    } else {
        rounds_from(s.drop_last(), cutoff)
    }
}

/// The references of the blocks of `s` at `round`, in order.
pub open spec fn refs_at_round(s: Seq<BlockView>, round: RoundNumber) -> Seq<BlockReference>
    decreases s.len(),
{
    if s.len() == 0 {
        seq![]
    } else if s.last().round == round {
        refs_at_round(s.drop_last(), round).push(ref_of(s.last()))
    } else {
        refs_at_round(s.drop_last(), round)
    }
}

/// The highest round of a block of `s` created by `a`, if any.
pub open spec fn max_round_of(s: Seq<BlockView>, a: AuthorityIndex) -> Option<RoundNumber>
    decreases s.len(),
{
    if s.len() == 0 {
        None
    } else {
        let prev = max_round_of(s.drop_last(), a);
        let b = s.last();
        if b.creator == a {
            match prev {
                Some(m) => if m >= b.round {
                    Some(m)
                } else {
                    Some(b.round)
                },
                None => Some(b.round),
            }
        } else {
            prev
        }
    }
}

/// The highest round of an authority is that of one of its stored blocks and no
/// stored block of it is higher; there is none exactly when it has no stored block.
pub proof fn lemma_max_round_of(s: Seq<BlockView>, a: AuthorityIndex)
    ensures
        max_round_of(s, a) is None <==> forall|k: int| 0 <= k < s.len() ==> (#[trigger] s[k]).creator != a,
        max_round_of(s, a) matches Some(m) ==> exists|k: int| 0 <= k < s.len() && (#[trigger] s[k]).creator == a && s[k].round == m,
        max_round_of(s, a) matches Some(m) ==> forall|k: int| 0 <= k < s.len() && (#[trigger] s[k]).creator == a ==> s[k].round <= m,
    decreases s.len(),
{
    if s.len() > 0 {
        let p = s.drop_last();
        lemma_max_round_of(p, a);
        assert(forall|k: int| 0 <= k < p.len() ==> p[k] == s[k]);
        assert(s[s.len() - 1] == s.last());
        if max_round_of(p, a) is Some {
            let k = choose|k: int| 0 <= k < p.len() && (#[trigger] p[k]).creator == a && p[k].round == max_round_of(p, a)->0;
            assert(s[k] == p[k]);
        }
    }
}

/// In-memory block store keyed by block reference.
pub struct BlockStore {
    blocks: Vec<Data<StatementBlock>>,
}

/// The views of a vector of blocks.
pub open spec fn views(v: Seq<Data<StatementBlock>>) -> Seq<BlockView> {
    v.map_values(|d: Data<StatementBlock>| d@)
}

impl View for BlockStore {
    type V = Seq<BlockView>;

    closed spec fn view(&self) -> Seq<BlockView> {
        views(self.blocks@)
    }
}

/// Storing a block makes it the block found under its reference and leaves every
/// other reference's block as it was; the store keeps one block per reference.
pub proof fn lemma_insert_then_lookup(s: Seq<BlockView>, b: BlockView, r: BlockReference)
    requires
        refs_distinct(s),
    ensures
        refs_distinct(store_insert(s, b)),
        lookup(store_insert(s, b), r) == (if r == ref_of(b) {
            Some(b)
        } else {
            lookup(s, r)
        }),
{
    let t = store_insert(s, b);
    if has_ref(s, ref_of(b)) {
        let p = position_of(s, ref_of(b));
        assert(t[p] == b);
        if r == ref_of(b) {
            assert(has_ref(t, r));
            let q = position_of(t, r);
            assert(q == p);
        } else if has_ref(s, r) {
            let q = position_of(s, r);
            assert(q != p);
            assert(t[q] == s[q]);
            assert(has_ref(t, r));
            let q2 = position_of(t, r);
            assert(q2 != p);
            assert(q2 == q);
        } else {
            if has_ref(t, r) {
                let q2 = position_of(t, r);
                assert(q2 != p);
                assert(ref_of(s[q2]) == r);
            }
        }
    } else {
        let n = s.len() as int;
        assert(t[n] == b);
        if r == ref_of(b) {
            assert(has_ref(t, r));
            let q = position_of(t, r);
            assert(q == n);
        } else if has_ref(s, r) {
            let q = position_of(s, r);
            assert(t[q] == s[q]);
            assert(has_ref(t, r));
            let q2 = position_of(t, r);
            assert(q2 == q);
        } else {
            if has_ref(t, r) {
                let q2 = position_of(t, r);
                assert(q2 != n);
                assert(ref_of(s[q2]) == r);
            }
        }
    }
}

proof fn lemma_rounds_from(s: Seq<BlockView>, cutoff: RoundNumber)
    ensures
        forall|i: int| 0 <= i < rounds_from(s, cutoff).len() ==> exists|j: int|
            0 <= j < s.len() && #[trigger] rounds_from(s, cutoff)[i] == s[j],
        refs_distinct(s) ==> refs_distinct(rounds_from(s, cutoff)),
        forall|i: int| 0 <= i < rounds_from(s, cutoff).len() ==> #[trigger] rounds_from(s, cutoff)[i].round >= cutoff,
    decreases s.len(),
{
    if s.len() > 0 {
        let p = s.drop_last();
        lemma_rounds_from(p, cutoff);
        assert(forall|j: int| 0 <= j < p.len() ==> p[j] == s[j]);
        let rp = rounds_from(p, cutoff);
        let r = rounds_from(s, cutoff);
        if s.last().round >= cutoff {
            assert(forall|i: int| 0 <= i < rp.len() ==> r[i] == rp[i]);
            assert(r[rp.len() as int] == s[s.len() - 1]);
            if refs_distinct(s) {
                assert forall|i: int, j: int| 0 <= i < r.len() && 0 <= j < r.len() && i != j
                    implies ref_of(r[i]) != ref_of(r[j]) by {
                    if i < rp.len() && j < rp.len() {
                        assert(r[i] == rp[i] && r[j] == rp[j]);
                    } else if i < rp.len() {
                        let k = choose|k: int| 0 <= k < p.len() && rp[i] == p[k];
                        assert(r[i] == s[k]);
                    } else {
                        let k = choose|k: int| 0 <= k < p.len() && rp[j] == p[k];
                        assert(r[j] == s[k]);
                    }
                }
            }
        }
    }
}

/// The same blocks in reverse order (so that popping yields them in the order they were given in).
pub(crate) fn into_reversed(blocks: Vec<Data<StatementBlock>>) -> (r: Vec<Data<StatementBlock>>)
    ensures
        views(r@) == views(blocks@).reverse(),
        r@.len() == blocks@.len(),
{
    let ghost vs = views(blocks@);
    let mut blocks = blocks;
    let mut pending: Vec<Data<StatementBlock>> = Vec::new();
    while blocks.len() > 0
        invariant
            views(pending@) + views(blocks@).reverse() == vs.reverse(),
        decreases blocks@.len(),
    {
        let ghost before_p = views(pending@);
        let ghost before_b = views(blocks@);
        let b = blocks.pop().unwrap();
        pending.push(b);
        assert(views(blocks@) =~= before_b.drop_last());
        assert(views(pending@) =~= before_p.push(before_b.last()));
        assert(before_b.reverse() =~= seq![before_b.last()] + before_b.drop_last().reverse());
        assert(views(pending@) + views(blocks@).reverse() =~= before_p + before_b.reverse());
    }
    assert(views(blocks@) =~= Seq::<BlockView>::empty());
    assert(views(pending@) =~= vs.reverse());
    pending
}

impl BlockStore {
    /// The blocks stored have pairwise distinct references.
    pub closed spec fn wf(&self) -> bool {
        refs_distinct(self@)
    }

    /// A well-formed store holds each reference at most once.
    pub proof fn lemma_wf_distinct(&self)
        requires
            self.wf(),
        ensures
            refs_distinct(self@),
    {
    }

    pub fn new() -> (r: Self)
        ensures
            r@ == Seq::<BlockView>::empty(),
            r.wf(),
    {
        let r = BlockStore { blocks: Vec::new() };
        assert(r@ =~= Seq::<BlockView>::empty());
        r
    }

    /// Number of stored blocks.
    pub(crate) fn len(&self) -> (r: usize)
        ensures
            r == self@.len(),
    {
        self.blocks.len()
    }

    /// The `i`-th stored block.
    pub(crate) fn block_at(&self, i: usize) -> (r: &Data<StatementBlock>)
        requires
            i < self@.len(),
        ensures
            r@ == self@[i as int],
    {
        &self.blocks[i]
    }

    /// Position of the block with reference `reference`.
    fn find(&self, reference: &BlockReference) -> (r: Option<usize>)
        ensures
            match r {
                Some(i) => i < self@.len() && ref_of(self@[i as int]) == *reference,
                None => !has_ref(self@, *reference),
            },
    {
        let mut i: usize = 0;
        while i < self.blocks.len()
            invariant
                i <= self@.len(),
                self@.len() == self.blocks@.len(),
                forall|k: int| 0 <= k < i ==> ref_of(#[trigger] self@[k]) != *reference,
            decreases self.blocks@.len() - i,
        {
            let r = self.blocks[i].inner().reference();
            if same_reference(&r, reference) {
                return Some(i);
            }
            i = i + 1;
        }
        None
    }

    pub fn get(&self, reference: &BlockReference) -> (r: Option<Data<StatementBlock>>)
        requires
            self.wf(),
        ensures
            match r {
                Some(d) => lookup(self@, *reference) == Some(d@),
                None => lookup(self@, *reference) is None,
            },
    {
        match self.find(reference) {
            Some(i) => {
                let ghost p = position_of(self@, *reference);
                assert(p == i);
                Some(self.blocks[i].clone())
            },
            None => None,
        }
    }

    pub fn contains(&self, reference: &BlockReference) -> (r: bool)
        ensures
            r == has_ref(self@, *reference),
    {
        self.find(reference).is_some()
    }

    pub fn insert(&mut self, block: Data<StatementBlock>)
        requires
            old(self).wf(),
        ensures
            final(self).wf(),
            final(self)@ == store_insert(old(self)@, block@),
    {
        let reference = block.inner().reference();
        let ghost s = self@;
        proof {
            lemma_insert_then_lookup(s, block@, reference);
        }
        match self.find(&reference) {
            Some(i) => {
                let ghost p = position_of(s, reference);
                assert(p == i);
                self.blocks.set(i, block);
                assert(self@ =~= s.update(p, block@));
            },
            None => {
                self.blocks.push(block);
                assert(self@ =~= s.push(block@));
            },
        }
    }

    pub fn insert_many(&mut self, blocks: Vec<Data<StatementBlock>>)
        requires
            old(self).wf(),
        ensures
            final(self).wf(),
            final(self)@ == store_insert_all(old(self)@, views(blocks@)),
    {
        let ghost start = self@;
        let ghost vs = views(blocks@);
        let mut pending = into_reversed(blocks);
        assert(views(pending@) =~= vs.reverse());
        assert(pending@.len() == vs.len());
        assert(pending.len() == pending@.len());
        let mut done: usize = 0;
        while pending.len() > 0
            invariant
                self.wf(),
                views(pending@) == vs.reverse().take(vs.len() - done),
                done <= vs.len(),
                pending@.len() + done == vs.len(),
                vs.len() <= usize::MAX,
                self@ == store_insert_all(start, vs.take(done as int)),
            decreases pending@.len(),
        {
            let ghost before_p = views(pending@);
            let b = pending.pop().unwrap();
            proof {
                assert(b@ == before_p.last());
                assert(before_p.last() == vs.reverse()[vs.len() - done - 1]);
                assert(vs.take(done + 1).drop_last() =~= vs.take(done as int));
                assert(vs.take(done + 1).last() == vs[done as int]);
            }
            self.insert(b);
            done = done + 1;
            assert(views(pending@) =~= vs.reverse().take(vs.len() - done));
        }
        assert(vs.take(vs.len() as int) =~= vs);
    }

    /// Remove the blocks whose round is below `current_round - retain_rounds`
    /// (saturating at 0).
    pub fn cleanup_old_rounds(&mut self, current_round: RoundNumber, retain_rounds: u64)
        requires
            old(self).wf(),
        ensures
            final(self).wf(),
            final(self)@ == rounds_from(
                old(self)@,
                if current_round >= retain_rounds {
                    (current_round - retain_rounds) as u64
                } else {
                    0
                },
            ),
    {
        let cutoff = current_round.saturating_sub(retain_rounds);
        let ghost s = self@;
        let mut kept: Vec<Data<StatementBlock>> = Vec::new();
        let mut i: usize = 0;
        while i < self.blocks.len()
            invariant
                i <= self.blocks@.len(),
                s == self@,
                self@.len() == self.blocks@.len(),
                views(kept@) == rounds_from(s.take(i as int), cutoff),
            decreases self.blocks@.len() - i,
        {
            proof {
                assert(s.take(i + 1).drop_last() =~= s.take(i as int));
                assert(s.take(i + 1).last() == s[i as int]);
            }
            if self.blocks[i].inner().round >= cutoff {
                let ghost before = views(kept@);
                kept.push(self.blocks[i].clone());
                assert(views(kept@) =~= before.push(s[i as int]));
            }
            i = i + 1;
        }
        assert(s.take(i as int) =~= s);
        proof {
            lemma_rounds_from(s, cutoff);
        }
        self.blocks = kept;
    }

    /// References of the stored blocks at `round`.
    pub fn references_at_round(&self, round: RoundNumber) -> (r: Vec<BlockReference>)
        ensures
            r@ == refs_at_round(self@, round),
    {
        let ghost s = self@;
        let mut out: Vec<BlockReference> = Vec::new();
        let mut i: usize = 0;
        while i < self.blocks.len()
            invariant
                i <= self.blocks@.len(),
                s == self@,
                self@.len() == self.blocks@.len(),
                out@ == refs_at_round(s.take(i as int), round),
            decreases self.blocks@.len() - i,
        {
            proof {
                assert(s.take(i + 1).drop_last() =~= s.take(i as int));
            }
            if self.blocks[i].inner().round == round {
                out.push(self.blocks[i].inner().reference());
            }
            i = i + 1;
        }
        assert(s.take(i as int) =~= s);
        out
    }

    /// Highest round stored for the given authority.
    pub fn max_round_for_authority(&self, authority: AuthorityIndex) -> (r: Option<RoundNumber>)
        ensures
            r == max_round_of(self@, authority),
    {
        let ghost s = self@;
        let mut best: Option<RoundNumber> = None;
        let mut i: usize = 0;
        while i < self.blocks.len()
            invariant
                i <= self.blocks@.len(),
                s == self@,
                self@.len() == self.blocks@.len(),
                best == max_round_of(s.take(i as int), authority),
            decreases self.blocks@.len() - i,
        {
            proof {
                assert(s.take(i + 1).drop_last() =~= s.take(i as int));
            }
            let b = self.blocks[i].inner();
            if b.creator.0 == authority.0 {
                best = match best {
                    Some(m) => if m >= b.round {
                        Some(m)
                    } else {
                        Some(b.round)
                    },
                    None => Some(b.round),
                };
            }
            i = i + 1;
        }
        assert(s.take(i as int) =~= s);
        best
    }
}

} // verus!
