//! Universal committer: several leader slots per wave, decided slot after slot.

use vstd::prelude::*;

use crate::base_committer::{decide, lemma_decided_needs_block, BaseCommitter, Decision, LeaderStatus};
use crate::block_store::BlockStore;
use crate::committee::{Committee, CommitteeView};
use crate::types::BlockView;

verus! {

/// The decision of leader slot `i`, in the order of slots: slot `i` is the leader
/// with offset `i % n` of wave `i / n`.
pub open spec fn slot_decision(c: CommitteeView, wl: u64, n: nat, s: Seq<BlockView>, i: int) -> Option<Decision> {
    decide(c, wl, (i % (n as int)) as u32, s, i / (n as int))
}

/// The decisions of the slots `a..b`, in slot order (slots without a decision
/// contribute nothing).
pub open spec fn slot_decisions(c: CommitteeView, wl: u64, n: nat, s: Seq<BlockView>, a: int, b: int) -> Seq<Decision>
    decreases b - a,
{
    if b <= a {
        seq![]
    } else {
        slot_decisions(c, wl, n, s, a, b - 1) + match slot_decision(c, wl, n, s, b - 1) {
            Some(d) => seq![d],
            None => seq![],
        }
    }
}

/// A run from slot `a` over the blocks `s` that stops at slot `e`: every slot from
/// `a` up to (not including) `e` is decided, slot `e` is the first undecided one,
/// and `result` holds the decisions of the slots `a..e` in order.
pub open spec fn run_until(c: CommitteeView, wl: u64, n: nat, s: Seq<BlockView>, a: int, e: int, result: Seq<Decision>) -> bool {
    &&& a <= e
    &&& forall|i: int| a <= i < e ==> !(#[trigger] slot_decision(c, wl, n, s, i) matches Some(Decision::Undecided(_, _)))
    &&& slot_decision(c, wl, n, s, e) matches Some(Decision::Undecided(_, _))
    &&& result == slot_decisions(c, wl, n, s, a, e)
}

/// The views of a sequence of leader statuses.
pub open spec fn decision_views(v: Seq<LeaderStatus>) -> Seq<Decision> {
    v.map_values(|st: LeaderStatus| st@)
}

/// The first wave after `last_decided_wave` (wave 0 when it is `u64::MAX`, meaning none).
pub open spec fn first_wave(last_decided_wave: u64) -> int {
    if last_decided_wave == u64::MAX {
        0
    } else {
        last_decided_wave + 1
    }
}

/// The outcome of a commit run from the first slot of wave `from`: the decisions of
/// every slot, wave after wave and slot after slot, up to (not including) the first
/// slot whose leader is undecided.
pub open spec fn commit_run(c: CommitteeView, wl: u64, n: nat, s: Seq<BlockView>, from: int, result: Seq<Decision>) -> bool {
    exists|e: int| #[trigger] run_until(c, wl, n, s, from * n, e, result)
}

/// Slot `w * n + k` is leader `k` of wave `w`.
pub proof fn lemma_slot_position(n: nat, w: int, k: int)
    requires
        n > 0,
        0 <= k < n,
    ensures
        (w * n + k) / (n as int) == w,
        (w * n + k) % (n as int) == k,
{
    vstd::arithmetic::div_mod::lemma_fundamental_div_mod_converse(w * n + k, n as int, w, k);
}

/// Each decision of a run names a slot of the run that decided it.
pub proof fn lemma_slot_decisions_at(c: CommitteeView, wl: u64, n: nat, s: Seq<BlockView>, a: int, b: int, i: int)
    requires
        0 <= i < slot_decisions(c, wl, n, s, a, b).len(),
    ensures
        exists|j: int| a <= j < b && #[trigger] slot_decision(c, wl, n, s, j) == Some(slot_decisions(c, wl, n, s, a, b)[i]),
    decreases b - a,
{
    let ds = slot_decisions(c, wl, n, s, a, b);
    let p = slot_decisions(c, wl, n, s, a, b - 1);
    if i < p.len() {
        assert(ds[i] == p[i]);
        lemma_slot_decisions_at(c, wl, n, s, a, b - 1, i);
    } else {
        assert(slot_decision(c, wl, n, s, b - 1) == Some(ds[i]));
    }
}

/// A run holds only decided leaders: every status is a commit or a skip.
pub proof fn lemma_run_decided(c: CommitteeView, wl: u64, n: nat, s: Seq<BlockView>, a: int, e: int, ds: Seq<Decision>)
    requires
        run_until(c, wl, n, s, a, e, ds),
    ensures
        forall|i: int| 0 <= i < ds.len() ==> !(#[trigger] ds[i] is Undecided),
{
    assert forall|i: int| 0 <= i < ds.len() implies !(#[trigger] ds[i] is Undecided) by {
        lemma_slot_decisions_at(c, wl, n, s, a, e, i);
        let j = choose|j: int| a <= j < e && #[trigger] slot_decision(c, wl, n, s, j) == Some(ds[i]);
        assert(!(slot_decision(c, wl, n, s, j) matches Some(Decision::Undecided(_, _))));
    }
}

/// Composes several base committers (leader offsets `0..n`) to decide several leaders per wave.
pub struct UniversalCommitter {
    committers: Vec<BaseCommitter>,
}

impl UniversalCommitter {
    pub closed spec fn committee_view(&self) -> CommitteeView {
        if self.committers@.len() > 0 {
            self.committers@[0].committee_view()
        } else {
            arbitrary()
        }
    }

    pub closed spec fn wave_length_view(&self) -> u64 {
        if self.committers@.len() > 0 {
            self.committers@[0].wave_length_view()
        } else {
            arbitrary()
        }
    }

    pub closed spec fn number_of_leaders(&self) -> nat {
        self.committers@.len()
    }

    /// Slot `k` decides the leader with offset `k`; all slots share committee and wave length.
    pub closed spec fn wf(&self) -> bool {
        forall|k: int|
            0 <= k < self.committers@.len() ==> {
                &&& #[trigger] self.committers@[k].offset_view() == k
                &&& self.committers@[k].committee_view() == self.committee_view()
                &&& self.committers@[k].wave_length_view() == self.wave_length_view()
            }
    }

    pub fn new(committee: Committee, wave_length: u64, number_of_leaders: u32) -> (r: Self)
        ensures
            r.wf(),
            r.number_of_leaders() == number_of_leaders,
            number_of_leaders > 0 ==> r.committee_view() == committee@,
            number_of_leaders > 0 ==> r.wave_length_view() == wave_length,
    {
        let mut committers: Vec<BaseCommitter> = Vec::new();
        let mut offset: u32 = 0;
        while offset < number_of_leaders
            invariant
                offset <= number_of_leaders,
                committers@.len() == offset,
                forall|k: int|
                    0 <= k < offset ==> {
                        &&& #[trigger] committers@[k].offset_view() == k
                        &&& committers@[k].committee_view() == committee@
                        &&& committers@[k].wave_length_view() == wave_length
                    },
            decreases number_of_leaders - offset,
        {
            let ghost old_c = committers@;
            committers.push(BaseCommitter::new(committee.clone(), wave_length, offset));
            assert(forall|k: int| 0 <= k < offset ==> committers@[k] == old_c[k]);
            offset = offset + 1;
        }
        if number_of_leaders > 0 {
            assert(committers@[0].offset_view() == 0);
        }
        let r = UniversalCommitter { committers };
        if number_of_leaders > 0 {
            assert(r.committers@[0].committee_view() == committee@);
            assert(r.committee_view() == committee@);
            assert(r.wave_length_view() == wave_length);
        }
        r
    }

    /// Decide slots from leader `slot` of `wave` on, slot after slot and wave after
    /// wave, collecting each decision, and stop at the first slot whose leader is
    /// undecided; also returns that slot (its wave and offset), where the next run
    /// resumes.
    pub fn try_commit_from(&self, wave: u64, slot: u32, store: &BlockStore) -> (r: (Vec<LeaderStatus>, u64, u32))
        requires
            self.wf(),
            store.wf(),
            slot < self.number_of_leaders(),
            self.wave_length_view() > 0,
            self.committee_view().quorum_threshold > 0,
            wave * self.wave_length_view() + self.wave_length_view() <= u64::MAX,
            forall|i: int| 0 <= i < store@.len() ==> #[trigger] store@[i].round + self.wave_length_view() < u64::MAX,
        ensures
            r.2 < self.number_of_leaders(),
            r.1 * self.wave_length_view() + self.wave_length_view() <= u64::MAX,
            run_until(
                self.committee_view(),
                self.wave_length_view(),
                self.number_of_leaders(),
                store@,
                wave * self.number_of_leaders() + slot,
                r.1 * self.number_of_leaders() + r.2,
                decision_views(r.0@),
            ),
    {
        let ghost c = self.committee_view();
        let ghost wl = self.wave_length_view();
        let ghost n = self.number_of_leaders();
        let ghost s = store@;
        let ghost a = wave * n + slot;
        let n_exec = self.committers.len();
        let mut w: u64 = wave;
        let mut k: usize = slot as usize;
        let mut results: Vec<LeaderStatus> = Vec::new();
        assert(decision_views(results@) =~= slot_decisions(c, wl, n, s, a, a));
        loop
            invariant
                self.wf(),
                store.wf(),
                s == store@,
                c == self.committee_view(),
                wl == self.wave_length_view(),
                n == self.number_of_leaders(),
                n_exec == n,
                n > 0,
                wl > 0,
                c.quorum_threshold > 0,
                forall|i: int| 0 <= i < s.len() ==> #[trigger] s[i].round + wl < u64::MAX,
                a == wave * n + slot,
                k < n,
                w * wl + wl <= u64::MAX,
                a <= w * n + k,
                forall|i: int| a <= i < w * n + k ==> !(#[trigger] slot_decision(c, wl, n, s, i) matches Some(Decision::Undecided(_, _))),
                decision_views(results@) == slot_decisions(c, wl, n, s, a, w * n + k),
            decreases u64::MAX - w, n - k,
        {
            let ghost i = w * n + k;
            proof {
                lemma_slot_position(n, w as int, k as int);
            }
            let ghost before = decision_views(results@);
            let committer = &self.committers[k];
            assert(committer.offset_view() == k);
            let status = committer.try_decide(w, store);
            assert(slot_decision(c, wl, n, s, i) == decide(c, wl, k as u32, s, w as int));
            match status {
                Some(st) => {
                    let undecided = match &st {
                        LeaderStatus::Undecided(_, _) => true,
                        _ => false,
                    };
                    if undecided {
                        return (results, w, k as u32);
                    }
                    let ghost d = st@;
                    results.push(st);
                    assert(decision_views(results@) =~= before.push(d));
                    assert(slot_decisions(c, wl, n, s, a, i + 1) == before + seq![d]);
                },
                None => {
                    assert(slot_decisions(c, wl, n, s, a, i + 1) =~= before);
                },
            }
            proof {
                assert(decide(c, wl, k as u32, s, w as int) is Some) by {
                    let lr = w * wl;
                    let leader = crate::committee::elected(c, lr as u64, k as u32);
                    match crate::base_committer::first_block_by(s, lr, leader) {
                        Some(b) => crate::base_committer::lemma_stake_needs_block(c, s, w * wl + wl - 1, crate::types::ref_of(b)),
                        None => {},
                    }
                }
            }
            if k + 1 < n_exec {
                k = k + 1;
            } else {
                proof {
                    lemma_decided_needs_block(c, wl, k as u32, s, w as int);
                    let j = choose|j: int| 0 <= j < s.len() && s[j].round >= w * wl + wl - 1;
                    assert(s[j].round + wl < u64::MAX);
                    assert((w + 1) * wl == w * wl + wl) by (nonlinear_arith);
                    assert((w + 1) * n == w * n + n) by (nonlinear_arith);
                }
                w = w + 1;
                k = 0;
            }
        }
    }

    /// Decide waves from `last_decided_wave + 1` on (from wave 0 when it is
    /// `u64::MAX`), slot after slot, and stop at the first slot whose leader is
    /// undecided; returns the decisions made before it.
    pub fn try_commit(&self, last_decided_wave: u64, store: &BlockStore) -> (r: Vec<LeaderStatus>)
        requires
            self.wf(),
            store.wf(),
            self.number_of_leaders() > 0,
            self.wave_length_view() > 0,
            self.committee_view().quorum_threshold > 0,
            first_wave(last_decided_wave) * self.wave_length_view() + self.wave_length_view() <= u64::MAX,
            forall|i: int| 0 <= i < store@.len() ==> #[trigger] store@[i].round + self.wave_length_view() < u64::MAX,
        ensures
            commit_run(
                self.committee_view(),
                self.wave_length_view(),
                self.number_of_leaders(),
                store@,
                first_wave(last_decided_wave),
                decision_views(r@),
            ),
            forall|i: int| 0 <= i < r@.len() ==> !(#[trigger] decision_views(r@)[i] is Undecided),
    {
        let wave = last_decided_wave.wrapping_add(1);
        let (results, w, k) = self.try_commit_from(wave, 0, store);
        proof {
            let e = w * self.number_of_leaders() + k;
            lemma_run_decided(
                self.committee_view(),
                self.wave_length_view(),
                self.number_of_leaders(),
                store@,
                first_wave(last_decided_wave) * self.number_of_leaders(),
                e,
                decision_views(results@),
            );
        }
        results
    }
}

} // verus!
