use mysticeti::{
    Authority, AuthorityIndex, BaseCommitter, BlockDigest, BlockReference, BlockSignature,
    BlockStore, Committee, Data, EpochNumber, LeaderStatus, PublicKey, StatementBlock,
    UniversalCommitter,
};

fn committee() -> Committee {
    Committee {
        authorities: (0..4u8)
            .map(|i| Authority { stake: 1, public_key: PublicKey([i; 32]), hostname: format!("v{}", i) })
            .collect(),
        epoch: EpochNumber(0),
        validity_threshold: 2,
        quorum_threshold: 3,
    }
}

fn block(author: u64, round: u64, includes: Vec<BlockReference>) -> Data<StatementBlock> {
    Data::new(StatementBlock::new(
        AuthorityIndex(author),
        round,
        BlockDigest([author as u8; 32]),
        includes,
        vec![],
        EpochNumber(0),
        BlockSignature(vec![]),
    ))
}

/// Rounds 0..=2 where the decision-round blocks of `supporters` include the leader (authority 0).
fn wave_store(supporters: &[u64], voters: &[u64]) -> BlockStore {
    let mut store = BlockStore::new();
    let r0: Vec<_> = (0..4).map(|a| block(a, 0, vec![])).collect();
    let leader = r0[0].inner().reference();
    let others: Vec<_> = r0[1..].iter().map(|b| b.inner().reference()).collect();
    store.insert_many(r0);
    for a in voters {
        let includes = if supporters.contains(a) { vec![leader] } else { others.clone() };
        store.insert(block(*a, 2, includes));
    }
    store
}

#[test]
fn base_committer_commits_with_quorum_support() {
    let c = BaseCommitter::new(committee(), 3, 0);
    let store = wave_store(&[0, 1, 2], &[0, 1, 2, 3]);
    match c.try_decide(0, &store) {
        Some(LeaderStatus::Commit(b)) => assert_eq!(b.inner().creator, AuthorityIndex(0)),
        other => panic!("unexpected {:?}", other),
    }
}

#[test]
fn base_committer_skips_without_support() {
    let c = BaseCommitter::new(committee(), 3, 0);
    let store = wave_store(&[0], &[0, 1, 2, 3]);
    match c.try_decide(0, &store) {
        Some(LeaderStatus::Skip(a, r)) => {
            assert_eq!(a, AuthorityIndex(0));
            assert_eq!(r, 0);
        }
        other => panic!("unexpected {:?}", other),
    }
}

#[test]
fn base_committer_undecided_without_decision_quorum() {
    let c = BaseCommitter::new(committee(), 3, 0);
    let store = wave_store(&[0], &[0, 1]);
    match c.try_decide(0, &store) {
        Some(LeaderStatus::Undecided(a, r)) => {
            assert_eq!(a, AuthorityIndex(0));
            assert_eq!(r, 0);
        }
        other => panic!("unexpected {:?}", other),
    }
    // With offset 1 the leader of round 0 is authority 1.
    let c1 = BaseCommitter::new(committee(), 3, 1);
    match c1.try_decide(0, &store) {
        Some(LeaderStatus::Undecided(a, _)) => assert_eq!(a, AuthorityIndex(1)),
        other => panic!("unexpected {:?}", other),
    }
}

#[test]
fn universal_committer_stops_before_first_undecided_slot() {
    let u = UniversalCommitter::new(committee(), 3, 2);
    let store = wave_store(&[0, 1, 2], &[0, 1, 2, 3]);
    let results = u.try_commit(u64::MAX, &store);
    // Wave 0: slot 0 commits, slot 1 (authority 1) is skipped; wave 1's first slot
    // is undecided, so the run ends there.
    assert_eq!(results.len(), 2);
    assert!(matches!(results[0], LeaderStatus::Commit(_)));
    assert!(matches!(results[1], LeaderStatus::Skip(AuthorityIndex(1), 0)));
    // Starting after wave 0, wave 1's first slot is undecided: nothing is decided.
    let later = u.try_commit(0, &store);
    assert_eq!(later.len(), 0);
    // A run reports where it stopped, and a run can resume at any slot.
    let (all, w, k) = u.try_commit_from(0, 0, &store);
    assert_eq!((all.len(), w, k), (2, 1, 0));
    let (rest, w, k) = u.try_commit_from(0, 1, &store);
    assert_eq!((rest.len(), w, k), (1, 1, 0));
    assert!(matches!(rest[0], LeaderStatus::Skip(AuthorityIndex(1), 0)));
}

#[test]
fn equivocating_authority_counts_once() {
    let c = BaseCommitter::new(committee(), 3, 0);
    let mut store = BlockStore::new();
    let r0: Vec<_> = (0..4).map(|a| block(a, 0, vec![])).collect();
    let leader = r0[0].inner().reference();
    store.insert_many(r0);
    // Authority 1 has two decision-round blocks (different digests), authority 2 one.
    store.insert(block(1, 2, vec![leader]));
    let mut second = block(1, 2, vec![leader]).inner().clone();
    second.digest = BlockDigest([9; 32]);
    store.insert(Data::new(second));
    store.insert(block(2, 2, vec![leader]));
    // Two distinct supporters (stake 2) fall short of the quorum of 3.
    match c.try_decide(0, &store) {
        Some(LeaderStatus::Undecided(a, 0)) => assert_eq!(a, AuthorityIndex(0)),
        other => panic!("unexpected {:?}", other),
    }
}

#[test]
fn leader_is_committed_indirectly_through_anchor() {
    // Wave 0 (rounds 0..=2): only authorities 1 and 2 vote for the leader at round 2,
    // so it is undecided directly. Wave 1 (rounds 3..=5) commits its leader
    // (authority 3) directly, and that anchor's history holds the round-2 votes.
    let c = BaseCommitter::new(committee(), 3, 0);
    let mut store = BlockStore::new();
    let r0: Vec<_> = (0..4).map(|a| block(a, 0, vec![])).collect();
    let leader = r0[0].inner().reference();
    store.insert_many(r0);
    let r2: Vec<_> = (1..3).map(|a| block(a, 2, vec![leader])).collect();
    let refs2: Vec<_> = r2.iter().map(|b| b.inner().reference()).collect();
    store.insert_many(r2);
    let anchor = block(3, 3, refs2.clone());
    let anchor_ref = anchor.inner().reference();
    store.insert(anchor);
    for a in 0..3 {
        store.insert(block(a, 5, vec![anchor_ref]));
    }
    match c.try_decide(0, &store) {
        Some(LeaderStatus::Commit(b)) => assert_eq!(b.inner().reference(), leader),
        other => panic!("unexpected {:?}", other),
    }
    // Without the anchor's link to the votes the leader is skipped.
    let mut store2 = BlockStore::new();
    let r0: Vec<_> = (0..4).map(|a| block(a, 0, vec![])).collect();
    store2.insert_many(r0);
    let r2: Vec<_> = (1..3).map(|a| block(a, 2, vec![leader])).collect();
    store2.insert_many(r2);
    let anchor = block(3, 3, vec![]);
    let anchor_ref = anchor.inner().reference();
    store2.insert(anchor);
    for a in 0..3 {
        store2.insert(block(a, 5, vec![anchor_ref]));
    }
    match c.try_decide(0, &store2) {
        Some(LeaderStatus::Skip(a, 0)) => assert_eq!(a, AuthorityIndex(0)),
        other => panic!("unexpected {:?}", other),
    }
}

#[test]
fn wave_rounds_follow_wave_length() {
    let c = BaseCommitter::new(committee(), 3, 0);
    assert_eq!(c.leader_round(0), 0);
    assert_eq!(c.decision_round(0), 2);
    assert_eq!(c.leader_round(4), 12);
    assert_eq!(c.decision_round(4), 14);
}
