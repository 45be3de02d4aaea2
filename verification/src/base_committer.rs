//! Base committer: the wave-based commit rule for one leader slot.

use vstd::prelude::*;

use crate::block_store::BlockStore;
use crate::committee::{elected, weight, Committee, CommitteeView};
use crate::data::Data;
use crate::types::{contains_reference, ref_of, same_reference, AuthorityIndex, BlockReference, BlockView, RoundNumber, StatementBlock};

verus! {

/// Status of a leader in a wave: committed block, skipped, or undecided.
#[derive(Debug)]
pub enum LeaderStatus {
    Commit(Data<StatementBlock>),
    Skip(AuthorityIndex, RoundNumber),
    Undecided(AuthorityIndex, RoundNumber),
}

/// Mathematical model of a leader status.
pub enum Decision {
    Commit(BlockView),
    Skip(AuthorityIndex, RoundNumber),
    Undecided(AuthorityIndex, RoundNumber),
}

impl View for LeaderStatus {
    type V = Decision;

    open spec fn view(&self) -> Decision {
        match self {
            LeaderStatus::Commit(b) => Decision::Commit(b@),
            LeaderStatus::Skip(a, r) => Decision::Skip(*a, *r),
            LeaderStatus::Undecided(a, r) => Decision::Undecided(*a, *r),
        }
    }
}

impl Clone for LeaderStatus {
    fn clone(&self) -> (r: Self)
        ensures
            r@ == self@,
    {
        match self {
            LeaderStatus::Commit(b) => LeaderStatus::Commit(b.clone()),
            LeaderStatus::Skip(a, r) => LeaderStatus::Skip(*a, *r),
            LeaderStatus::Undecided(a, r) => LeaderStatus::Undecided(*a, *r),
        }
    }
}

/// The first block of `s` at `round` created by `a`, in store order.
pub open spec fn first_block_by(s: Seq<BlockView>, round: int, a: AuthorityIndex) -> Option<BlockView>
    decreases s.len(),
{
    if s.len() == 0 {
        None
    } else {
        match first_block_by(s.drop_last(), round, a) {
            Some(b) => Some(b),
            None => if s.last().round == round && s.last().creator == a {
                Some(s.last())
            } else {
                None
            },
        }
    }
}

/// Some block of `s` at `round`, created by `a`, includes `leader`.
pub open spec fn supports(s: Seq<BlockView>, round: int, leader: BlockReference, a: AuthorityIndex) -> bool {
    exists|i: int| 0 <= i < s.len() && s[i].round == round && s[i].creator == a && s[i].includes.contains(leader)
}

/// Some block of `s` at `round` is created by `a`.
pub open spec fn present(s: Seq<BlockView>, round: int, a: AuthorityIndex) -> bool {
    exists|i: int| 0 <= i < s.len() && s[i].round == round && s[i].creator == a
}

/// Stake of the authorities among the first `m` members of `c` that support
/// `leader` at `round` (each authority counted once).
pub open spec fn support_stake(c: CommitteeView, s: Seq<BlockView>, round: int, leader: BlockReference, m: nat) -> int
    decreases m,
{
    if m == 0 {
        0
    } else {
        support_stake(c, s, round, leader, (m - 1) as nat) + if supports(s, round, leader, AuthorityIndex((m - 1) as u64)) {
            c.authorities[m - 1].stake as int
        } else {
            0
        }
    }
}

/// Stake of the authorities among the first `m` members of `c` that have a block
/// at `round` (each authority counted once).
pub open spec fn presence_stake(c: CommitteeView, s: Seq<BlockView>, round: int, m: nat) -> int
    decreases m,
{
    if m == 0 {
        0
    } else {
        presence_stake(c, s, round, (m - 1) as nat) + if present(s, round, AuthorityIndex((m - 1) as u64)) {
            c.authorities[m - 1].stake as int
        } else {
            0
        }
    }
}

/// Stake of the distinct committee members with a block at `round` that includes `leader`.
pub open spec fn certificate_stake(c: CommitteeView, s: Seq<BlockView>, round: int, leader: BlockReference) -> int {
    support_stake(c, s, round, leader, c.authorities.len())
}

/// Stake of the distinct committee members with a block at `round`.
pub open spec fn round_stake(c: CommitteeView, s: Seq<BlockView>, round: int) -> int {
    presence_stake(c, s, round, c.authorities.len())
}

/// The direct decision for the leader of `wave` with leader offset `offset`, over
/// the blocks `s`. The leader round is `wave * wl` and the decision round is the
/// last round of the wave. The leader is committed when the members with a
/// decision-round block that includes its block hold a quorum of stake; it is
/// skipped when the members with a decision-round block hold a quorum; otherwise
/// it is undecided.
pub open spec fn decide_direct(c: CommitteeView, wl: u64, offset: u32, s: Seq<BlockView>, wave: int) -> Option<Decision> {
    let lr = wave * wl;
    let dr = wave * wl + wl - 1;
    let leader = elected(c, lr as u64, offset);
    let lb = first_block_by(s, lr, leader);
    let certs = match lb {
        Some(b) => certificate_stake(c, s, dr, ref_of(b)),
        None => 0,
    };
    if certs >= c.quorum_threshold {
        match lb {
            Some(b) => Some(Decision::Commit(b)),
            None => None,
        }
    } else if round_stake(c, s, dr) >= c.quorum_threshold {
        Some(Decision::Skip(leader, lr as u64))
    } else {
        Some(Decision::Undecided(leader, lr as u64))
    }
}

/// The highest round of a block of `s` (-1 when `s` is empty).
pub open spec fn top_round(s: Seq<BlockView>) -> int
    decreases s.len(),
{
    if s.len() == 0 {
        -1
    } else {
        let t = top_round(s.drop_last());
        if s.last().round > t {
            s.last().round as int
        } else {
            t
        }
    }
}

/// The anchor for waves before `w`: the leader block of the first wave from `w` on
/// whose decision round is at most `top` and whose leader is directly committed.
pub open spec fn anchor_from(c: CommitteeView, wl: u64, offset: u32, s: Seq<BlockView>, w: int, top: int) -> Option<BlockView>
    decreases top + 1 - w,
{
    if wl == 0 || w < 0 || w * wl + wl - 1 > top {
        None
    } else {
        proof {
            assert(w * wl >= w) by (nonlinear_arith)
                requires
                    wl >= 1,
                    w >= 0,
            ;
        }
        match decide_direct(c, wl, offset, s, w) {
            Some(Decision::Commit(b)) => Some(b),
            _ => anchor_from(c, wl, offset, s, w + 1, top),
        }
    }
}

/// The positions of the blocks of `s` reachable from the block(s) named `start`
/// by following includes at most `k` times.
pub open spec fn reach(s: Seq<BlockView>, start: BlockReference, k: nat) -> Set<int>
    decreases k,
{
    if k == 0 {
        Set::new(|j: int| 0 <= j < s.len() && ref_of(s[j]) == start)
    } else {
        let h = reach(s, start, (k - 1) as nat);
        Set::new(
            |j: int|
                h.contains(j) || (0 <= j < s.len() && exists|i: int|
                    0 <= i < s.len() && #[trigger] h.contains(i) && s[i].includes.contains(ref_of(s[j]))),
        )
    }
}

/// The causal history of the block named `start` within `s`: every stored block
/// it reaches through includes.
pub open spec fn history(s: Seq<BlockView>, start: BlockReference) -> Set<int> {
    reach(s, start, s.len())
}

/// Some block of the positions `h` is at `round` and includes `leader`.
pub open spec fn certified_in(s: Seq<BlockView>, h: Set<int>, round: int, leader: BlockReference) -> bool {
    exists|j: int| 0 <= j < s.len() && #[trigger] h.contains(j) && s[j].round == round && s[j].includes.contains(leader)
}

/// The decision for the leader of `wave` with offset `offset` over the blocks `s`.
/// A leader that the direct rule leaves undecided is decided indirectly through its
/// anchor (the first later directly committed leader of the same slot): committed
/// when the anchor's causal history holds a decision-round block of `wave` that
/// includes the leader's block, skipped otherwise; without an anchor it stays
/// undecided.
pub open spec fn decide(c: CommitteeView, wl: u64, offset: u32, s: Seq<BlockView>, wave: int) -> Option<Decision> {
    match decide_direct(c, wl, offset, s, wave) {
        Some(Decision::Undecided(a, r)) => match anchor_from(c, wl, offset, s, wave + 1, top_round(s)) {
            Some(anchor) => match first_block_by(s, wave * wl, a) {
                Some(b) => if certified_in(s, history(s, ref_of(anchor)), wave * wl + wl - 1, ref_of(b)) {
                    Some(Decision::Commit(b))
                } else {
                    Some(Decision::Skip(a, r))
                },
                None => Some(Decision::Skip(a, r)),
            },
            None => Some(Decision::Undecided(a, r)),
        },
        d => d,
    }
}

/// The stake of the members with a block at `round`, counted over positions.
proof fn lemma_presence_weight(c: CommitteeView, s: Seq<BlockView>, round: int, m: nat)
    requires
        m <= c.authorities.len(),
        c.authorities.len() <= u64::MAX,
    ensures
        presence_stake(c, s, round, m) == weight(
            c.authorities.take(m as int),
            |i: int| exists|k: int| 0 <= k < s.len() && (#[trigger] s[k]).round == round && s[k].creator.0 == i,
        ),
    decreases m,
{
    let p = |i: int| exists|k: int| 0 <= k < s.len() && (#[trigger] s[k]).round == round && s[k].creator.0 == i;
    let t = c.authorities.take(m as int);
    if m == 0 {
        assert(t.len() == 0);
    } else {
        lemma_presence_weight(c, s, round, (m - 1) as nat);
        assert(t.drop_last() =~= c.authorities.take(m - 1));
        assert(t.last() == c.authorities[m - 1]);
        let a = AuthorityIndex((m - 1) as u64);
        if present(s, round, a) {
            let k = choose|k: int| 0 <= k < s.len() && s[k].round == round && s[k].creator == a;
            assert(s[k].creator.0 == m - 1);
            assert(p(m - 1));
        }
        if p(m - 1) {
            let k = choose|k: int| 0 <= k < s.len() && (#[trigger] s[k]).round == round && s[k].creator.0 == m - 1;
            assert(s[k].creator == a);
        }
    }
}

/// The stake of the members with a block at `round` that includes `leader`,
/// counted over positions.
proof fn lemma_support_weight(c: CommitteeView, s: Seq<BlockView>, round: int, leader: BlockReference, m: nat)
    requires
        m <= c.authorities.len(),
        c.authorities.len() <= u64::MAX,
    ensures
        support_stake(c, s, round, leader, m) == weight(
            c.authorities.take(m as int),
            |i: int|
                exists|k: int|
                    0 <= k < s.len() && (#[trigger] s[k]).round == round && s[k].creator.0 == i && s[k].includes.contains(leader),
        ),
    decreases m,
{
    let p = |i: int|
        exists|k: int| 0 <= k < s.len() && (#[trigger] s[k]).round == round && s[k].creator.0 == i && s[k].includes.contains(leader);
    let t = c.authorities.take(m as int);
    if m == 0 {
        assert(t.len() == 0);
    } else {
        lemma_support_weight(c, s, round, leader, (m - 1) as nat);
        assert(t.drop_last() =~= c.authorities.take(m - 1));
        assert(t.last() == c.authorities[m - 1]);
        let a = AuthorityIndex((m - 1) as u64);
        if supports(s, round, leader, a) {
            let k = choose|k: int| 0 <= k < s.len() && s[k].round == round && s[k].creator == a && s[k].includes.contains(leader);
            assert(s[k].creator.0 == m - 1);
            assert(p(m - 1));
        }
        if p(m - 1) {
            let k = choose|k: int|
                0 <= k < s.len() && (#[trigger] s[k]).round == round && s[k].creator.0 == m - 1 && s[k].includes.contains(leader);
            assert(s[k].creator == a);
        }
    }
}

/// A leader whose block is stored is committed when the members with a block at
/// its wave's decision round that includes the leader's block hold a quorum of
/// stake, each member counted once.
pub proof fn lemma_supported_leader_commits(c: CommitteeView, wl: u64, offset: u32, s: Seq<BlockView>, wave: int, lb: BlockView)
    requires
        c.authorities.len() <= u64::MAX,
        first_block_by(s, wave * wl, elected(c, (wave * wl) as u64, offset)) == Some(lb),
        weight(
            c.authorities,
            |i: int|
                exists|k: int|
                    0 <= k < s.len() && (#[trigger] s[k]).round == wave * wl + wl - 1 && s[k].creator.0 == i
                        && s[k].includes.contains(ref_of(lb)),
        ) >= c.quorum_threshold,
    ensures
        decide(c, wl, offset, s, wave) == Some(Decision::Commit(lb)),
{
    let dr = wave * wl + wl - 1;
    lemma_support_weight(c, s, dr, ref_of(lb), c.authorities.len());
    assert(c.authorities.take(c.authorities.len() as int) =~= c.authorities);
}

/// A leader is decided (committed or skipped, never undecided) as soon as the
/// members with a block at its wave's decision round hold a quorum of stake, each
/// member counted once; with a positive quorum a decision is then always made.
pub proof fn lemma_decision_quorum_decides(c: CommitteeView, wl: u64, offset: u32, s: Seq<BlockView>, wave: int)
    requires
        c.authorities.len() <= u64::MAX,
        weight(
            c.authorities,
            |i: int| exists|k: int| 0 <= k < s.len() && (#[trigger] s[k]).round == wave * wl + wl - 1 && s[k].creator.0 == i,
        ) >= c.quorum_threshold,
    ensures
        !(decide(c, wl, offset, s, wave) matches Some(Decision::Undecided(_, _))),
        c.quorum_threshold > 0 ==> decide(c, wl, offset, s, wave) is Some,
{
    let dr = wave * wl + wl - 1;
    lemma_presence_weight(c, s, dr, c.authorities.len());
    assert(c.authorities.take(c.authorities.len() as int) =~= c.authorities);
    assert(round_stake(c, s, dr) >= c.quorum_threshold);
    lemma_stake_needs_block(c, s, dr, arbitrary());
}

/// Indirect commit: a leader that the direct rule leaves undecided is committed
/// when its anchor (the first later directly committed leader of the slot) holds in
/// its causal history a decision-round block of the leader's wave that includes
/// the leader's block.
pub proof fn lemma_indirect_commit(c: CommitteeView, wl: u64, offset: u32, s: Seq<BlockView>, wave: int, anchor: BlockView, lb: BlockView)
    requires
        decide_direct(c, wl, offset, s, wave) matches Some(Decision::Undecided(_, _)),
        anchor_from(c, wl, offset, s, wave + 1, top_round(s)) == Some(anchor),
        first_block_by(s, wave * wl, elected(c, (wave * wl) as u64, offset)) == Some(lb),
        certified_in(s, history(s, ref_of(anchor)), wave * wl + wl - 1, ref_of(lb)),
    ensures
        decide(c, wl, offset, s, wave) == Some(Decision::Commit(lb)),
{
}

proof fn lemma_support_stake(c: CommitteeView, s: Seq<BlockView>, round: int, leader: BlockReference, m: nat)
    requires
        m <= c.authorities.len(),
    ensures
        support_stake(c, s, round, leader, m) >= 0,
        support_stake(c, s, round, leader, m) > 0 ==> exists|i: int| 0 <= i < s.len() && s[i].round == round,
    decreases m,
{
    if m > 0 {
        lemma_support_stake(c, s, round, leader, (m - 1) as nat);
    }
}

proof fn lemma_presence_stake(c: CommitteeView, s: Seq<BlockView>, round: int, m: nat)
    requires
        m <= c.authorities.len(),
    ensures
        presence_stake(c, s, round, m) >= 0,
        presence_stake(c, s, round, m) > 0 ==> exists|i: int| 0 <= i < s.len() && s[i].round == round,
    decreases m,
{
    if m > 0 {
        lemma_presence_stake(c, s, round, (m - 1) as nat);
    }
}

/// A positive stake at a round needs a block at that round.
pub proof fn lemma_stake_needs_block(c: CommitteeView, s: Seq<BlockView>, round: int, leader: BlockReference)
    ensures
        certificate_stake(c, s, round, leader) >= 0,
        round_stake(c, s, round) >= 0,
        certificate_stake(c, s, round, leader) > 0 ==> exists|i: int| 0 <= i < s.len() && s[i].round == round,
        round_stake(c, s, round) > 0 ==> exists|i: int| 0 <= i < s.len() && s[i].round == round,
{
    lemma_support_stake(c, s, round, leader, c.authorities.len());
    lemma_presence_stake(c, s, round, c.authorities.len());
}

/// A non-empty store holds a block at its top round.
pub proof fn lemma_top_round(s: Seq<BlockView>)
    ensures
        s.len() == 0 <==> top_round(s) == -1,
        s.len() > 0 ==> exists|i: int| 0 <= i < s.len() && s[i].round == top_round(s),
        forall|i: int| 0 <= i < s.len() ==> s[i].round <= top_round(s),
    decreases s.len(),
{
    if s.len() > 0 {
        let p = s.drop_last();
        lemma_top_round(p);
        if p.len() > 0 {
            let i = choose|i: int| 0 <= i < p.len() && p[i].round == top_round(p);
            assert(s[i] == p[i]);
        }
        assert(forall|i: int| 0 <= i < p.len() ==> s[i] == p[i]);
        assert(s[s.len() - 1] == s.last());
    }
}

/// An anchor comes from a wave whose decision round is at most `top`.
pub proof fn lemma_anchor_in_range(c: CommitteeView, wl: u64, offset: u32, s: Seq<BlockView>, w: int, top: int)
    ensures
        anchor_from(c, wl, offset, s, w, top) is Some ==> wl > 0 && w >= 0 && w * wl + wl - 1 <= top,
    decreases top + 1 - w,
{
    if !(wl == 0 || w < 0 || w * wl + wl - 1 > top) {
        assert(w * wl >= w) by (nonlinear_arith)
            requires
                wl >= 1,
                w >= 0,
        ;
        if !(decide_direct(c, wl, offset, s, w) matches Some(Decision::Commit(_))) {
            lemma_anchor_in_range(c, wl, offset, s, w + 1, top);
            if anchor_from(c, wl, offset, s, w + 1, top) is Some {
                assert((w + 1) * wl == w * wl + wl) by (nonlinear_arith);
            }
        }
    }
}

/// A decided (not undecided) leader of `wave` has a stored block at or above the
/// wave's decision round, given a positive quorum.
pub proof fn lemma_decided_needs_block(c: CommitteeView, wl: u64, offset: u32, s: Seq<BlockView>, wave: int)
    requires
        c.quorum_threshold > 0,
        wl > 0,
        wave >= 0,
        decide(c, wl, offset, s, wave) is Some,
        !(decide(c, wl, offset, s, wave)->0 is Undecided),
    ensures
        exists|i: int| 0 <= i < s.len() && s[i].round >= wave * wl + wl - 1,
{
    let lr = wave * wl;
    let dr = wave * wl + wl - 1;
    let leader = elected(c, lr as u64, offset);
    let lb = first_block_by(s, lr, leader);
    match lb {
        Some(b) => lemma_stake_needs_block(c, s, dr, ref_of(b)),
        None => lemma_stake_needs_block(c, s, dr, arbitrary()),
    }
    match decide_direct(c, wl, offset, s, wave) {
        Some(Decision::Undecided(a, r)) => {
            let top = top_round(s);
            lemma_anchor_in_range(c, wl, offset, s, wave + 1, top);
            lemma_top_round(s);
            assert((wave + 1) * wl == wave * wl + wl) by (nonlinear_arith);
            let i = choose|i: int| 0 <= i < s.len() && s[i].round == top_round(s);
            assert(s[i].round >= dr);
        },
        _ => {
            if round_stake(c, s, dr) >= c.quorum_threshold {
            } else {
                assert(certificate_stake(c, s, dr, ref_of(lb.unwrap())) >= c.quorum_threshold);
            }
        },
    }
}

/// The position of the first stored block at `round` created by `a`.
fn first_block_index(store: &BlockStore, round: RoundNumber, a: AuthorityIndex) -> (r: Option<usize>)
    ensures
        match r {
            Some(j) => j < store@.len() && first_block_by(store@, round as int, a) == Some(store@[j as int]),
            None => first_block_by(store@, round as int, a) is None,
        },
{
    let ghost s = store@;
    let n = store.len();
    let mut found: Option<usize> = None;
    let mut i: usize = 0;
    while i < n
        invariant
            i <= n,
            n == s.len(),
            s == store@,
            found is None ==> first_block_by(s.take(i as int), round as int, a) is None,
            found matches Some(j) ==> j < i && first_block_by(s.take(i as int), round as int, a) == Some(s[j as int]),
        decreases n - i,
    {
        proof {
            assert(s.take(i + 1).drop_last() =~= s.take(i as int));
        }
        if found.is_none() {
            let b = store.block_at(i).inner();
            if b.round == round && b.creator.0 == a.0 {
                found = Some(i);
            }
        }
        i = i + 1;
    }
    assert(s.take(n as int) =~= s);
    found
}

/// Whether some stored block at `round` by `a` includes `leader` (any block at
/// `round` by `a` when `leader` is `None`).
fn block_by_at(store: &BlockStore, round: RoundNumber, a: AuthorityIndex, leader: Option<&BlockReference>) -> (r: bool)
    ensures
        match leader {
            Some(l) => r == supports(store@, round as int, *l, a),
            None => r == present(store@, round as int, a),
        },
{
    let ghost s = store@;
    let n = store.len();
    let mut i: usize = 0;
    while i < n
        invariant
            i <= n,
            n == s.len(),
            s == store@,
            forall|j: int|
                0 <= j < i ==> !(s[j].round == round && s[j].creator == a && match leader {
                    Some(l) => s[j].includes.contains(*l),
                    None => true,
                }),
        decreases n - i,
    {
        let b = store.block_at(i).inner();
        if b.round == round && b.creator.0 == a.0 {
            let hit = match leader {
                Some(l) => contains_reference(&b.includes, l),
                None => true,
            };
            if hit {
                assert(s[i as int].creator == a);
                return true;
            }
        }
        i = i + 1;
    }
    false
}

/// The highest round of a stored block, if any.
fn top_round_of(store: &BlockStore) -> (r: Option<RoundNumber>)
    ensures
        match r {
            Some(t) => top_round(store@) == t,
            None => top_round(store@) == -1,
        },
{
    let ghost s = store@;
    let n = store.len();
    let mut top: Option<RoundNumber> = None;
    let mut i: usize = 0;
    while i < n
        invariant
            i <= n,
            n == s.len(),
            s == store@,
            match top {
                Some(t) => top_round(s.take(i as int)) == t,
                None => top_round(s.take(i as int)) == -1,
            },
        decreases n - i,
    {
        proof {
            assert(s.take(i + 1).drop_last() =~= s.take(i as int));
        }
        let round = store.block_at(i).inner().round;
        top = match top {
            Some(t) => if round > t {
                Some(round)
            } else {
                Some(t)
            },
            None => Some(round),
        };
        i = i + 1;
    }
    assert(s.take(n as int) =~= s);
    top
}

/// Whether the decision round of wave `w` is at most `top`.
fn wave_fits(w: u64, wl: u64, top: u64) -> (r: bool)
    requires
        wl > 0,
    ensures
        r == (w * wl + wl - 1 <= top),
{
    let w128 = w as u128;
    let wl128 = wl as u128;
    assert(w128 * wl128 <= 0xffff_ffff_ffff_ffffu128 * 0xffff_ffff_ffff_ffffu128) by (nonlinear_arith)
        requires
            w128 <= 0xffff_ffff_ffff_ffffu128,
            wl128 <= 0xffff_ffff_ffff_ffffu128,
    ;
    w128 * wl128 + wl128 - 1 <= top as u128
}

/// The positions of the blocks reachable from the block(s) named `start`.
fn history_marks(store: &BlockStore, start: &BlockReference) -> (r: Vec<bool>)
    ensures
        r@.len() == store@.len(),
        forall|j: int| 0 <= j < store@.len() ==> r@[j] == history(store@, *start).contains(j),
{
    let ghost s = store@;
    let n = store.len();
    let mut marks: Vec<bool> = Vec::new();
    let mut j: usize = 0;
    while j < n
        invariant
            j <= n,
            n == s.len(),
            s == store@,
            marks@.len() == j,
            forall|q: int| 0 <= q < j ==> marks@[q] == reach(s, *start, 0).contains(q),
        decreases n - j,
    {
        let rj = store.block_at(j).inner().reference();
        marks.push(same_reference(&rj, start));
        j = j + 1;
    }
    let mut k: usize = 0;
    while k < n
        invariant
            k <= n,
            n == s.len(),
            s == store@,
            marks@.len() == n,
            forall|q: int| 0 <= q < n ==> marks@[q] == reach(s, *start, k as nat).contains(q),
        decreases n - k,
    {
        let ghost h = reach(s, *start, k as nat);
        let mut next: Vec<bool> = Vec::new();
        let mut j: usize = 0;
        while j < n
            invariant
                j <= n,
                n == s.len(),
                s == store@,
                marks@.len() == n,
                h == reach(s, *start, k as nat),
                forall|q: int| 0 <= q < n ==> marks@[q] == h.contains(q),
                next@.len() == j,
                forall|q: int| 0 <= q < j ==> next@[q] == reach(s, *start, (k + 1) as nat).contains(q),
            decreases n - j,
        {
            let rj = store.block_at(j).inner().reference();
            let mut m = marks[j];
            let mut i: usize = 0;
            while i < n
                invariant
                    i <= n,
                    n == s.len(),
                    s == store@,
                    j < n,
                    rj == ref_of(s[j as int]),
                    marks@.len() == n,
                    forall|q: int| 0 <= q < n ==> marks@[q] == h.contains(q),
                    m == (h.contains(j as int) || exists|i2: int|
                        0 <= i2 < i && #[trigger] h.contains(i2) && s[i2].includes.contains(rj)),
                decreases n - i,
            {
                if !m && marks[i] && contains_reference(&store.block_at(i).inner().includes, &rj) {
                    assert(h.contains(i as int) && s[i as int].includes.contains(rj));
                    m = true;
                }
                i = i + 1;
            }
            proof {
                assert(m == reach(s, *start, (k + 1) as nat).contains(j as int));
            }
            next.push(m);
            j = j + 1;
        }
        marks = next;
        k = k + 1;
    }
    marks
}

/// Wave-based committer for one leader slot: direct commit when a quorum of the
/// decision round includes the leader's block, indirect decision through a later
/// committed leader of the same slot otherwise.
pub struct BaseCommitter {
    committee: Committee,
    wave_length: u64,
    leader_offset: u32,
}

impl BaseCommitter {
    pub closed spec fn committee_view(&self) -> CommitteeView {
        self.committee@
    }

    pub closed spec fn wave_length_view(&self) -> u64 {
        self.wave_length
    }

    pub closed spec fn offset_view(&self) -> u32 {
        self.leader_offset
    }

    pub fn new(committee: Committee, wave_length: u64, leader_offset: u32) -> (r: Self)
        ensures
            r.committee_view() == committee@,
            r.wave_length_view() == wave_length,
            r.offset_view() == leader_offset,
    {
        BaseCommitter { committee, wave_length, leader_offset }
    }

    /// The first round of `wave`, where its leader proposes.
    pub fn leader_round(&self, wave: u64) -> (r: RoundNumber)
        requires
            wave * self.wave_length_view() <= u64::MAX,
        ensures
            r == wave * self.wave_length_view(),
    {
        wave * self.wave_length
    }

    /// The last round of `wave`, whose blocks decide its leader.
    pub fn decision_round(&self, wave: u64) -> (r: RoundNumber)
        requires
            self.wave_length_view() > 0,
            wave * self.wave_length_view() + self.wave_length_view() - 1 <= u64::MAX,
        ensures
            r == wave * self.wave_length_view() + self.wave_length_view() - 1,
    {
        wave * self.wave_length + (self.wave_length - 1)
    }

    /// Stake of the distinct members with a block at `round` by them that
    /// includes `leader` (that has any block at `round` when `leader` is `None`).
    fn members_stake(&self, store: &BlockStore, round: RoundNumber, leader: Option<&BlockReference>) -> (r: u128)
        ensures
            match leader {
                Some(l) => r == certificate_stake(self.committee@, store@, round as int, *l),
                None => r == round_stake(self.committee@, store@, round as int),
            },
    {
        let n = self.committee.authorities.len();
        let mut total: u128 = 0;
        let mut i: usize = 0;
        while i < n
            invariant
                i <= n,
                n == self.committee@.authorities.len(),
                total <= i * 0xffff_ffff_ffff_ffffu128,
                match leader {
                    Some(l) => total == support_stake(self.committee@, store@, round as int, *l, i as nat),
                    None => total == presence_stake(self.committee@, store@, round as int, i as nat),
                },
            decreases n - i,
        {
            if block_by_at(store, round, AuthorityIndex(i as u64), leader) {
                total = total + self.committee.authorities[i].stake as u128;
            }
            i = i + 1;
        }
        total
    }

    /// The direct decision of the leader of `wave`.
    fn try_decide_direct(&self, wave: u64, store: &BlockStore) -> (r: Option<LeaderStatus>)
        requires
            self.wave_length_view() > 0,
            wave * self.wave_length_view() + self.wave_length_view() - 1 <= u64::MAX,
        ensures
            match r {
                Some(st) => decide_direct(self.committee_view(), self.wave_length_view(), self.offset_view(), store@, wave as int) == Some(st@),
                None => decide_direct(self.committee_view(), self.wave_length_view(), self.offset_view(), store@, wave as int) is None,
            },
    {
        let leader_round = self.leader_round(wave);
        let decision_round = self.decision_round(wave);
        let leader_authority = self.committee.elect_leader(leader_round, self.leader_offset);
        let leader_index = first_block_index(store, leader_round, leader_authority);
        let certificates: u128 = match leader_index {
            Some(j) => {
                let lref = store.block_at(j).inner().reference();
                self.members_stake(store, decision_round, Some(&lref))
            },
            None => 0,
        };
        if certificates >= self.committee.quorum_threshold as u128 {
            return match leader_index {
                Some(j) => Some(LeaderStatus::Commit(store.block_at(j).clone())),
                None => None,
            };
        }
        let blame_stake = self.members_stake(store, decision_round, None);
        if blame_stake >= self.committee.quorum_threshold as u128 {
            return Some(LeaderStatus::Skip(leader_authority, leader_round));
        }
        Some(LeaderStatus::Undecided(leader_authority, leader_round))
    }

    /// Decide the leader of `wave` from the blocks in `store`: directly from the
    /// wave's decision round, or else indirectly through its anchor.
    pub fn try_decide(&self, wave: u64, store: &BlockStore) -> (r: Option<LeaderStatus>)
        requires
            store.wf(),
            self.wave_length_view() > 0,
            wave * self.wave_length_view() + self.wave_length_view() - 1 <= u64::MAX,
        ensures
            match r {
                Some(st) => decide(self.committee_view(), self.wave_length_view(), self.offset_view(), store@, wave as int) == Some(st@),
                None => decide(self.committee_view(), self.wave_length_view(), self.offset_view(), store@, wave as int) is None,
            },
    {
        let ghost c = self.committee_view();
        let ghost s = store@;
        let wl = self.wave_length;
        let ghost off = self.leader_offset;
        let direct = self.try_decide_direct(wave, store);
        let (leader, leader_round) = match &direct {
            Some(LeaderStatus::Undecided(a, r)) => (*a, *r),
            _ => {
                return direct;
            },
        };
        let top = match top_round_of(store) {
            Some(t) => t,
            None => {
                assert(anchor_from(c, wl, off, s, wave + 1, top_round(s)) is None);
                return direct;
            },
        };
        let ghost topi = top as int;
        assert(wave * wl >= wave) by (nonlinear_arith)
            requires
                wl >= 1,
        ;
        if wave == u64::MAX {
            assert((wave + 1) * wl + wl - 1 > topi) by (nonlinear_arith)
                requires
                    wl >= 1,
                    wave + 1 > topi,
            ;
            return direct;
        }
        if !wave_fits(wave + 1, wl, top) {
            return direct;
        }
        assert((wave + 1) * wl >= wave + 1) by (nonlinear_arith)
            requires
                wl >= 1,
        ;
        let mut w2: u64 = wave + 1;
        let mut anchor: Option<Data<StatementBlock>> = None;
        loop
            invariant_except_break
                anchor is None,
                wave + 1 <= w2,
                w2 <= topi + 1,
                anchor_from(c, wl, off, s, wave + 1, topi) == anchor_from(c, wl, off, s, w2 as int, topi),
            invariant
                c == self.committee_view(),
                s == store@,
                wl == self.wave_length_view(),
                off == self.offset_view(),
                wl > 0,
                topi == top,
            ensures
                match anchor {
                    Some(b) => anchor_from(c, wl, off, s, wave + 1, topi) == Some(b@),
                    None => anchor_from(c, wl, off, s, wave + 1, topi) is None,
                },
            decreases topi + 1 - w2,
        {
            if !wave_fits(w2, wl, top) {
                break;
            }
            assert(w2 * wl >= w2) by (nonlinear_arith)
                requires
                    wl >= 1,
            ;
            match self.try_decide_direct(w2, store) {
                Some(LeaderStatus::Commit(b)) => {
                    anchor = Some(b);
                    break;
                },
                _ => {},
            }
            if w2 == u64::MAX {
                assert((w2 + 1) * wl + wl - 1 > topi) by (nonlinear_arith)
                    requires
                        wl >= 1,
                        w2 + 1 > topi,
                ;
                assert(anchor_from(c, wl, off, s, w2 + 1, topi) is None);
                break;
            }
            w2 = w2 + 1;
        }
        let a = match anchor {
            Some(a) => a,
            None => {
                return direct;
            },
        };
        let leader_index = match first_block_index(store, leader_round, leader) {
            Some(j) => j,
            None => {
                return Some(LeaderStatus::Skip(leader, leader_round));
            },
        };
        let lref = store.block_at(leader_index).inner().reference();
        let decision_round = self.decision_round(wave);
        let marks = history_marks(store, &a.inner().reference());
        let n = store.len();
        let mut certified = false;
        let mut j: usize = 0;
        while j < n
            invariant
                j <= n,
                n == s.len(),
                s == store@,
                marks@.len() == n,
                forall|q: int| 0 <= q < n ==> marks@[q] == history(s, ref_of(a@)).contains(q),
                certified == exists|q: int|
                    0 <= q < j && #[trigger] history(s, ref_of(a@)).contains(q) && s[q].round == decision_round
                        && s[q].includes.contains(lref),
            decreases n - j,
        {
            let b = store.block_at(j).inner();
            if !certified && marks[j] && b.round == decision_round && contains_reference(&b.includes, &lref) {
                certified = true;
            }
            j = j + 1;
        }
        if certified {
            Some(LeaderStatus::Commit(store.block_at(leader_index).clone()))
        } else {
            Some(LeaderStatus::Skip(leader, leader_round))
        }
    }
}

} // verus!
