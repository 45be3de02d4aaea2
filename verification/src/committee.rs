//! Committee: validator set, stake, quorum thresholds, leader election, genesis.

use vstd::prelude::*;

use crate::crypto::PublicKey;
use crate::data::Data;
use crate::types::{
    AuthorityIndex, BlockDigest, BlockSignature, BlockView, EpochNumber, RoundNumber,
    StatementBlock,
};

verus! {

/// One authority of the committee: stake, public key and a hostname for logging.
#[derive(Debug)]
pub struct Authority {
    pub stake: u64,
    pub public_key: PublicKey,
    pub hostname: String,
}

impl Clone for Authority {
    fn clone(&self) -> (r: Self)
        ensures
            r == *self,
    {
        Authority { stake: self.stake, public_key: self.public_key, hostname: self.hostname.clone() }
    }
}

/// Committee: list of authorities, epoch and thresholds.
#[derive(Debug)]
pub struct Committee {
    pub authorities: Vec<Authority>,
    pub epoch: EpochNumber,
    /// f+1 (validity)
    pub validity_threshold: u64,
    /// 2f+1 (quorum)
    pub quorum_threshold: u64,
}

/// Mathematical model of a committee.
pub struct CommitteeView {
    pub authorities: Seq<Authority>,
    pub epoch: EpochNumber,
    pub validity_threshold: u64,
    pub quorum_threshold: u64,
}

impl View for Committee {
    type V = CommitteeView;

    open spec fn view(&self) -> CommitteeView {
        CommitteeView {
            authorities: self.authorities@,
            epoch: self.epoch,
            validity_threshold: self.validity_threshold,
            quorum_threshold: self.quorum_threshold,
        }
    }
}

impl Clone for Committee {
    fn clone(&self) -> (r: Self)
        ensures
            r@ == self@,
    {
        let authorities = self.authorities.clone();
        assert(authorities@ =~= self.authorities@);
        Committee {
            authorities,
            epoch: self.epoch,
            validity_threshold: self.validity_threshold,
            quorum_threshold: self.quorum_threshold,
        }
    }
}

/// Sum of the stakes of `auths`.
pub open spec fn stake_sum(auths: Seq<Authority>) -> int
    decreases auths.len(),
{
    if auths.len() == 0 {
        0
    } else {
        stake_sum(auths.drop_last()) + auths.last().stake
    }
}

/// The total stake of the members of `auths` whose position satisfies `p`.
pub open spec fn weight(auths: Seq<Authority>, p: spec_fn(int) -> bool) -> int
    decreases auths.len(),
{
    if auths.len() == 0 {
        0
    } else {
        weight(auths.drop_last(), p) + if p(auths.len() - 1) {
            auths.last().stake as int
        } else {
            0
        }
    }
}

/// The stake of authority `a` (0 when `a` is not in the committee).
pub open spec fn stake_of(c: CommitteeView, a: AuthorityIndex) -> int {
    if a.0 < c.authorities.len() {
        c.authorities[a.0 as int].stake as int
    } else {
        0
    }
}

/// The position picked by the stake point `t`, searching from position `i`: the
/// first position whose cumulative stake (with it included) exceeds `t` (the
/// last position when no earlier one does).
pub open spec fn pick_from(auths: Seq<Authority>, t: int, i: nat) -> nat
    decreases auths.len() - i,
{
    if i + 1 >= auths.len() {
        i
    } else if t < stake_sum(auths.take(i + 1 as int)) {
        i
    } else {
        pick_from(auths, t, i + 1)
    }
}

/// Number of members of `auths` with positive stake.
pub open spec fn positive_count(auths: Seq<Authority>) -> nat
    decreases auths.len(),
{
    if auths.len() == 0 {
        0
    } else {
        positive_count(auths.drop_last()) + if auths.last().stake > 0 {
            1nat
        } else {
            0nat
        }
    }
}

/// The position of the member with positive stake of rank `r` (counting from 0)
/// among those at positions `i` and later (`auths.len()` when there is none).
pub open spec fn nth_positive_from(auths: Seq<Authority>, r: int, i: nat) -> nat
    decreases auths.len() - i,
{
    if i >= auths.len() {
        auths.len()
    } else if auths[i as int].stake > 0 {
        if r <= 0 {
            i
        } else {
            nth_positive_from(auths, r - 1, i + 1)
        }
    } else {
        nth_positive_from(auths, r, i + 1)
    }
}

/// How many leader slots of one round get distinct leaders: the members with
/// stake, or all members when no one has stake.
pub open spec fn leader_slots(c: CommitteeView) -> nat {
    if stake_sum(c.authorities) == 0 {
        c.authorities.len()
    } else {
        positive_count(c.authorities)
    }
}

/// The authority elected for `round` with leader offset `offset`. Offset 0 is
/// stake-weighted: the member whose share of the cumulative stake holds the point
/// `round % total`. Offset `o` takes the member with stake `o` places after it in
/// committee order (cyclically among the members with stake), so the offsets below
/// `leader_slots` elect distinct members. Without any stake the election rotates.
pub open spec fn elected(c: CommitteeView, round: RoundNumber, offset: u32) -> AuthorityIndex {
    let auths = c.authorities;
    let n = auths.len();
    let total = stake_sum(auths);
    if n == 0 {
        AuthorityIndex(0)
    } else if total == 0 {
        AuthorityIndex(((round + offset) % (n as int)) as u64)
    } else {
        let base = pick_from(auths, (round as int) % total, 0);
        let rank = positive_count(auths.take(base as int));
        AuthorityIndex(nth_positive_from(auths, (rank + offset) % (positive_count(auths) as int), 0) as u64)
    }
}

/// The first index whose authority has public key `pk`, if any.
pub open spec fn first_with_key(auths: Seq<Authority>, pk: PublicKey) -> Option<nat>
    decreases auths.len(),
{
    if auths.len() == 0 {
        None
    } else {
        match first_with_key(auths.drop_last(), pk) {
            Some(i) => Some(i),
            None => if auths.last().public_key == pk {
                Some((auths.len() - 1) as nat)
            } else {
                None
            },
        }
    }
}

/// Thirty-two zero bytes: the digest of a genesis block.
pub open spec fn zero_digest() -> Seq<u8> {
    Seq::new(32, |_i: int| 0u8)
}

/// `b` is the genesis block of authority `a`: the empty block at round 0.
pub open spec fn is_genesis_block(c: CommitteeView, a: AuthorityIndex, b: BlockView) -> bool {
    &&& b.creator == a
    &&& b.round == 0
    &&& b.digest.0@ == zero_digest()
    &&& b.includes == Seq::<crate::types::BlockReference>::empty()
    &&& b.statements == Seq::<crate::types::StatementView>::empty()
    &&& b.epoch == c.epoch
    &&& b.signature == Seq::<u8>::empty()
}

/// The index `known_authority` finds holds the key looked up and is the first one
/// that does; when it finds none, no authority holds the key.
pub proof fn lemma_first_with_key(auths: Seq<Authority>, pk: PublicKey)
    ensures
        match first_with_key(auths, pk) {
            Some(i) => i < auths.len() && auths[i as int].public_key == pk && forall|k: int|
                0 <= k < i ==> auths[k].public_key != pk,
            None => forall|k: int| 0 <= k < auths.len() ==> auths[k].public_key != pk,
        },
    decreases auths.len(),
{
    if auths.len() > 0 {
        let prefix = auths.drop_last();
        lemma_first_with_key(prefix, pk);
        assert(forall|k: int| 0 <= k < prefix.len() ==> prefix[k] == auths[k]);
    }
}

impl Committee {
    pub fn size(&self) -> (r: usize)
        ensures
            r == self.authorities@.len(),
    {
        self.authorities.len()
    }

    pub fn authority(&self, index: AuthorityIndex) -> (r: Option<&Authority>)
        ensures
            match r {
                Some(a) => index.0 < self.authorities@.len() && *a == self.authorities@[index.0 as int],
                None => index.0 >= self.authorities@.len(),
            },
    {
        if index.0 < self.authorities.len() as u64 {
            Some(&self.authorities[index.0 as usize])
        } else {
            None
        }
    }

    pub fn get_public_key(&self, index: AuthorityIndex) -> (r: Option<&PublicKey>)
        ensures
            match r {
                Some(k) => index.0 < self.authorities@.len() && *k == self.authorities@[index.0 as int].public_key,
                None => index.0 >= self.authorities@.len(),
            },
    {
        match self.authority(index) {
            Some(a) => Some(&a.public_key),
            None => None,
        }
    }

    /// The index of the first authority with this public key.
    pub fn known_authority(&self, public_key: &PublicKey) -> (r: Option<AuthorityIndex>)
        ensures
            r == (match first_with_key(self.authorities@, *public_key) {
                Some(i) => Some(AuthorityIndex(i as u64)),
                None => None::<AuthorityIndex>,
            }),
    {
        proof {
            lemma_first_with_key(self.authorities@, *public_key);
        }
        let mut i: usize = 0;
        while i < self.authorities.len()
            invariant
                i <= self.authorities@.len(),
                forall|k: int| 0 <= k < i ==> self.authorities@[k].public_key != *public_key,
                match first_with_key(self.authorities@, *public_key) {
                    Some(j) => j < self.authorities@.len() && self.authorities@[j as int].public_key
                        == *public_key && forall|k: int|
                        0 <= k < j ==> self.authorities@[k].public_key != *public_key,
                    None => forall|k: int|
                        0 <= k < self.authorities@.len() ==> self.authorities@[k].public_key
                            != *public_key,
                },
            decreases self.authorities@.len() - i,
        {
            if crate::types::bytes32_eq(&self.authorities[i].public_key.0, &public_key.0) {
                return Some(AuthorityIndex(i as u64));
            }
            i = i + 1;
        }
        None
    }

    /// Total stake in the committee.
    pub fn total_stake(&self) -> (r: u64)
        requires
            stake_sum(self.authorities@) <= u64::MAX,
        ensures
            r == stake_sum(self.authorities@),
    {
        let mut total: u64 = 0;
        let mut i: usize = 0;
        while i < self.authorities.len()
            invariant
                i <= self.authorities@.len(),
                stake_sum(self.authorities@) <= u64::MAX,
                total == stake_sum(self.authorities@.take(i as int)),
            decreases self.authorities@.len() - i,
        {
            proof {
                lemma_stake_sum_prefix(self.authorities@, (i + 1) as int);
                assert(self.authorities@.take(i + 1).drop_last() =~= self.authorities@.take(i as int));
            }
            total = total + self.authorities[i].stake;
            i = i + 1;
        }
        assert(self.authorities@.take(i as int) =~= self.authorities@);
        total
    }

    /// Elect the leader of a round (stake-weighted); `offset` allows several
    /// leaders per round.
    pub fn elect_leader(&self, round: RoundNumber, offset: u32) -> (r: AuthorityIndex)
        ensures
            r == elected(self@, round, offset),
    {
        let n = self.authorities.len();
        if n == 0 {
            return AuthorityIndex(0);
        }
        let ghost auths = self.authorities@;
        let mut total: u128 = 0;
        let mut i: usize = 0;
        while i < n
            invariant
                i <= n,
                n == auths.len(),
                auths == self.authorities@,
                total == stake_sum(auths.take(i as int)),
                total <= i * 0xffff_ffff_ffff_ffffu128,
            decreases n - i,
        {
            proof {
                assert(auths.take(i + 1 as int).drop_last() =~= auths.take(i as int));
            }
            total = total + self.authorities[i].stake as u128;
            i = i + 1;
        }
        assert(auths.take(n as int) =~= auths);
        if total == 0 {
            let index = ((round as u128 + offset as u128) % n as u128) as u64;
            return AuthorityIndex(index);
        }
        // The stake-weighted base member and its rank among the members with stake.
        let t: u128 = round as u128 % total;
        let mut acc: u128 = 0;
        let mut rank: usize = 0;
        let mut i: usize = 0;
        loop
            invariant_except_break
                acc == stake_sum(auths.take(i as int)),
                acc <= i * 0xffff_ffff_ffff_ffffu128,
            invariant
                i < n,
                n == auths.len(),
                auths == self.authorities@,
                rank == positive_count(auths.take(i as int)),
                rank <= i,
                stake_sum(auths) > 0,
                t == (round as int) % stake_sum(auths),
                pick_from(auths, t as int, 0) == pick_from(auths, t as int, i as nat),
            ensures
                i < n,
                rank == positive_count(auths.take(i as int)),
                pick_from(auths, t as int, 0) == i,
            decreases n - i,
        {
            proof {
                assert(auths.take(i + 1 as int).drop_last() =~= auths.take(i as int));
                lemma_positive_step(auths, i as int);
            }
            acc = acc + self.authorities[i].stake as u128;
            assert(acc == stake_sum(auths.take(i + 1 as int)));
            if i + 1 >= n || t < acc {
                break;
            }
            if self.authorities[i].stake > 0 {
                rank = rank + 1;
            }
            i = i + 1;
        }
        let ghost base = i;
        // The number of members with stake.
        let mut m: usize = 0;
        let mut j: usize = 0;
        while j < n
            invariant
                j <= n,
                n == auths.len(),
                auths == self.authorities@,
                m == positive_count(auths.take(j as int)),
                m <= j,
            decreases n - j,
        {
            proof {
                lemma_positive_step(auths, j as int);
            }
            if self.authorities[j].stake > 0 {
                m = m + 1;
            }
            j = j + 1;
        }
        proof {
            assert(auths.take(n as int) =~= auths);
            lemma_base_ranked(auths, round as int);
        }
        let target: usize = ((rank as u128 + offset as u128) % (m as u128)) as usize;
        // The member with stake of rank `target`.
        let mut k: usize = 0;
        let mut rem: usize = target;
        proof {
            assert(auths.take(0) =~= Seq::<Authority>::empty());
            assert(total == stake_sum(auths));
            assert(m == positive_count(auths));
        }
        let ghost want = AuthorityIndex(nth_positive_from(auths, target as int, 0) as u64);
        assert(want == elected(self@, round, offset));
        while k < n
            invariant
                want == elected(self@, round, offset),
                want == AuthorityIndex(nth_positive_from(auths, target as int, 0) as u64),
                k <= n,
                n == auths.len(),
                auths == self.authorities@,
                nth_positive_from(auths, target as int, 0) == nth_positive_from(auths, rem as int, k as nat),
                rem < positive_count(auths) - positive_count(auths.take(k as int)),
            decreases n - k,
        {
            proof {
                lemma_positive_step(auths, k as int);
            }
            if self.authorities[k].stake > 0 {
                if rem == 0 {
                    return AuthorityIndex(k as u64);
                }
                rem = rem - 1;
            }
            k = k + 1;
        }
        proof {
            assert(auths.take(n as int) =~= auths);
        }
        AuthorityIndex(0)
    }

    /// Genesis blocks for an authority: the empty block at round 0, or nothing when
    /// the authority is not in the committee.
    pub fn genesis_blocks(&self, for_authority: AuthorityIndex) -> (r: Vec<Data<StatementBlock>>)
        ensures
            for_authority.0 < self.authorities@.len() ==> r@.len() == 1 && is_genesis_block(
                self@,
                for_authority,
                r@[0]@,
            ),
            for_authority.0 >= self.authorities@.len() ==> r@.len() == 0,
    {
        if self.authority(for_authority).is_none() {
            return Vec::new();
        }
        let block = StatementBlock::new(
            for_authority,
            0,
            BlockDigest([0u8; 32]),
            Vec::new(),
            Vec::new(),
            self.epoch,
            BlockSignature(Vec::new()),
        );
        let mut out: Vec<Data<StatementBlock>> = Vec::new();
        out.push(Data::new(block));
        assert(out@[0]@.includes =~= seq![]);
        assert(out@[0]@.statements =~= seq![]);
        assert(out@[0]@.signature =~= seq![]);
        assert(out@[0]@.digest.0@ =~= zero_digest());
        out
    }
}

/// The position picked by a stake point below the total stake carries that point:
/// its cumulative stake range holds `t`.
proof fn lemma_pick(auths: Seq<Authority>, t: int, i: nat)
    requires
        0 <= t < stake_sum(auths),
        i < auths.len(),
        stake_sum(auths.take(i as int)) <= t,
    ensures
        i <= pick_from(auths, t, i) < auths.len(),
        stake_sum(auths.take(pick_from(auths, t, i) as int)) <= t < stake_sum(auths.take(pick_from(auths, t, i) + 1 as int)),
    decreases auths.len() - i,
{
    if i + 1 >= auths.len() {
        assert(auths.take(i + 1 as int) =~= auths);
    } else if t < stake_sum(auths.take(i + 1 as int)) {
    } else {
        lemma_pick(auths, t, i + 1);
    }
}

proof fn lemma_stake_sum_nonneg(auths: Seq<Authority>)
    ensures
        stake_sum(auths) >= 0,
    decreases auths.len(),
{
    if auths.len() > 0 {
        lemma_stake_sum_nonneg(auths.drop_last());
    }
}

/// Counting members with stake over one more position.
proof fn lemma_positive_step(auths: Seq<Authority>, i: int)
    requires
        0 <= i < auths.len(),
    ensures
        positive_count(auths.take(i + 1)) == positive_count(auths.take(i)) + if auths[i].stake > 0 {
            1int
        } else {
            0int
        },
{
    assert(auths.take(i + 1).drop_last() =~= auths.take(i));
    assert(auths.take(i + 1).last() == auths[i]);
}

/// The count of members with stake grows with the prefix.
proof fn lemma_positive_mono(auths: Seq<Authority>, i: int, j: int)
    requires
        0 <= i <= j <= auths.len(),
    ensures
        positive_count(auths.take(i)) <= positive_count(auths.take(j)),
    decreases j - i,
{
    if i < j {
        lemma_positive_step(auths, j - 1);
        lemma_positive_mono(auths, i, j - 1);
    }
}

/// The member of rank `r` among those with stake from position `i` on exists, has
/// stake, and has exactly `r` members with stake between `i` and it.
proof fn lemma_nth_positive(auths: Seq<Authority>, r: int, i: nat)
    requires
        0 <= r,
        i <= auths.len(),
        r < positive_count(auths) - positive_count(auths.take(i as int)),
    ensures
        i <= nth_positive_from(auths, r, i) < auths.len(),
        auths[nth_positive_from(auths, r, i) as int].stake > 0,
        positive_count(auths.take(nth_positive_from(auths, r, i) as int)) - positive_count(auths.take(i as int)) == r,
    decreases auths.len() - i,
{
    if i >= auths.len() {
        assert(auths.take(i as int) =~= auths);
    } else {
        lemma_positive_step(auths, i as int);
        if auths[i as int].stake > 0 {
            if r > 0 {
                lemma_nth_positive(auths, r - 1, i + 1);
            }
        } else {
            lemma_nth_positive(auths, r, i + 1);
        }
    }
}

/// The stake-weighted base member has stake, and its rank among the members with
/// stake is below their number.
proof fn lemma_base_ranked(auths: Seq<Authority>, round: int)
    requires
        stake_sum(auths) > 0,
        round >= 0,
    ensures
        auths.len() > 0,
        pick_from(auths, (round as int) % stake_sum(auths), 0) < auths.len(),
        auths[pick_from(auths, (round as int) % stake_sum(auths), 0) as int].stake > 0,
        positive_count(auths.take(pick_from(auths, (round as int) % stake_sum(auths), 0) as int)) < positive_count(auths),
{
    let t = (round as int) % stake_sum(auths);
    assert(auths.len() > 0) by {
        if auths.len() == 0 {
            assert(stake_sum(auths) == 0);
        }
    }
    assert(auths.take(0) =~= Seq::<Authority>::empty());
    lemma_pick(auths, t, 0);
    let p = pick_from(auths, t, 0);
    lemma_stake_sum_prefix(auths, p + 1 as int);
    lemma_positive_step(auths, p as int);
    lemma_positive_mono(auths, (p + 1) as int, auths.len() as int);
    assert(auths.take(auths.len() as int) =~= auths);
}

/// Two offsets below `m` land on distinct residues after the same shift.
proof fn lemma_shift_distinct(a: int, o1: int, o2: int, m: int)
    requires
        m > 0,
        a >= 0,
        0 <= o1 < m,
        0 <= o2 < m,
        o1 != o2,
    ensures
        (a + o1) % m != (a + o2) % m,
{
    let x = a + o1;
    let y = a + o2;
    vstd::arithmetic::div_mod::lemma_fundamental_div_mod(x, m);
    vstd::arithmetic::div_mod::lemma_fundamental_div_mod(y, m);
    if x % m == y % m {
        let qx = x / m;
        let qy = y / m;
        assert(o1 - o2 == m * (qx - qy)) by (nonlinear_arith)
            requires
                x == m * qx + x % m,
                y == m * qy + y % m,
                x % m == y % m,
                x == a + o1,
                y == a + o2,
        ;
        if qx - qy >= 1 {
            assert(m * (qx - qy) >= m) by (nonlinear_arith)
                requires
                    qx - qy >= 1,
                    m > 0,
            ;
        } else if qx - qy <= -1 {
            assert(m * (qx - qy) <= -m) by (nonlinear_arith)
                requires
                    qx - qy <= -1,
                    m > 0,
            ;
        } else {
            assert(qx - qy == 0);
            assert(m * (qx - qy) == 0) by (nonlinear_arith)
                requires
                    qx - qy == 0,
            ;
        }
    }
}

/// Election is stake-weighted: when the committee holds some stake, the elected
/// leader is a member with positive stake (a member without stake is never elected).
pub proof fn lemma_elected_has_stake(c: CommitteeView, round: RoundNumber, offset: u32)
    requires
        c.authorities.len() <= u64::MAX,
        stake_sum(c.authorities) > 0,
    ensures
        elected(c, round, offset).0 < c.authorities.len(),
        c.authorities[elected(c, round, offset).0 as int].stake > 0,
{
    let auths = c.authorities;
    lemma_base_ranked(auths, round as int);
    let m = positive_count(auths);
    let rank = positive_count(auths.take(pick_from(auths, (round as int) % stake_sum(auths), 0) as int));
    let target = (rank + offset) % (m as int);
    assert(auths.take(0) =~= Seq::<Authority>::empty());
    lemma_nth_positive(auths, target, 0);
}

/// The leaders of one round are distinct: two different offsets below
/// `leader_slots` (the members with stake, or all members when no one has stake)
/// elect different members.
pub proof fn lemma_elected_distinct(c: CommitteeView, round: RoundNumber, o1: u32, o2: u32)
    requires
        c.authorities.len() <= u64::MAX,
        o1 != o2,
        o1 < leader_slots(c),
        o2 < leader_slots(c),
    ensures
        elected(c, round, o1) != elected(c, round, o2),
{
    let auths = c.authorities;
    let n = auths.len() as int;
    lemma_stake_sum_nonneg(auths);
    if stake_sum(auths) == 0 {
        lemma_shift_distinct(round as int, o1 as int, o2 as int, n);
    } else {
        lemma_base_ranked(auths, round as int);
        let m = positive_count(auths) as int;
        let rank = positive_count(auths.take(pick_from(auths, (round as int) % stake_sum(auths), 0) as int));
        lemma_shift_distinct(rank as int, o1 as int, o2 as int, m);
        let t1 = (rank + o1) % m;
        let t2 = (rank + o2) % m;
        assert(auths.take(0) =~= Seq::<Authority>::empty());
        lemma_nth_positive(auths, t1, 0);
        lemma_nth_positive(auths, t2, 0);
    }
}

/// Sums over a prefix grow by the next stake and stay below the whole sum.
proof fn lemma_stake_sum_prefix(auths: Seq<Authority>, i: int)
    requires
        0 < i <= auths.len(),
    ensures
        stake_sum(auths.take(i)) == stake_sum(auths.take(i - 1)) + auths[i - 1].stake,
        stake_sum(auths.take(i)) <= stake_sum(auths),
    decreases auths.len() - i,
{
    assert(auths.take(i).drop_last() =~= auths.take(i - 1));
    if i < auths.len() {
        lemma_stake_sum_prefix(auths, i + 1);
    } else {
        assert(auths.take(i) =~= auths);
    }
}

} // verus!
