use ed25519_dalek::Signer;
use mysticeti::base_committer::LeaderStatus;
use mysticeti::{
    Authority, AuthorityIndex, BlockDigest, BlockSignature, Committee, Core, Data, EpochNumber,
    NoOpBlockHandler, Parameters, PublicKey, SecretKey, SimpleCommitObserver, StatementBlock,
};

fn test_committee() -> Committee {
    Committee {
        authorities: (0..4u8)
            .map(|i| Authority {
                stake: 1,
                public_key: PublicKey([i; 32]),
                hostname: format!("v{}", i),
            })
            .collect(),
        epoch: EpochNumber(0),
        validity_threshold: 2,
        quorum_threshold: 3,
    }
}

fn block(author: u64, round: u64, includes: Vec<mysticeti::BlockReference>) -> Data<StatementBlock> {
    Data::new(StatementBlock::new(
        AuthorityIndex(author),
        round,
        BlockDigest([0u8; 32]),
        includes,
        vec![],
        EpochNumber(0),
        BlockSignature(vec![]),
    ))
}

#[test]
fn try_commit_emits_commit_after_three_rounds() {
    let committee = test_committee();
    let params = Parameters {
        wave_length: 3,
        number_of_leaders: 1,
        ..Default::default()
    };
    let mut core = Core::new(params, committee, AuthorityIndex(0), None, NoOpBlockHandler);
    let r0: Vec<_> = (0..4u64)
        .map(|a| {
            Data::new(StatementBlock::new(
                AuthorityIndex(a),
                0,
                BlockDigest([0u8; 32]),
                vec![],
                vec![],
                EpochNumber(0),
                BlockSignature(vec![]),
            ))
        })
        .collect();
    core.add_blocks(r0.clone());
    let refs0: Vec<_> = r0.iter().map(|b| b.inner().reference()).collect();
    let r1: Vec<_> = (0..4u64)
        .map(|a| {
            Data::new(StatementBlock::new(
                AuthorityIndex(a),
                1,
                BlockDigest([0u8; 32]),
                refs0.clone(),
                vec![],
                EpochNumber(0),
                BlockSignature(vec![]),
            ))
        })
        .collect();
    core.add_blocks(r1.clone());
    let refs1: Vec<_> = r1.iter().map(|b| b.inner().reference()).collect();
    let mut refs_01 = refs0.clone();
    refs_01.extend(refs1);
    let r2: Vec<_> = (0..4u64)
        .map(|a| {
            Data::new(StatementBlock::new(
                AuthorityIndex(a),
                2,
                BlockDigest([0u8; 32]),
                refs_01.clone(),
                vec![],
                EpochNumber(0),
                BlockSignature(vec![]),
            ))
        })
        .collect();
    core.add_blocks(r2);
    let (tx, mut rx) = tokio::sync::mpsc::unbounded_channel();
    let mut observer = SimpleCommitObserver::new(tx);
    assert!(core.commit_in_range());
    let results = core.try_commit(&mut observer);
    let commits: Vec<_> = results
        .iter()
        .filter_map(|s| {
            if let LeaderStatus::Commit(_) = s {
                Some(())
            } else {
                None
            }
        })
        .collect();
    assert!(!commits.is_empty(), "expected at least one Commit, got {:?}", results);
    let _ = rx.try_recv();
}

#[test]
fn try_commit_reports_only_decided_leaders_and_sends_subdag() {
    let mut core = Core::new(Parameters::default(), test_committee(), AuthorityIndex(0), None, NoOpBlockHandler);
    let r0: Vec<_> = (0..4u64).map(|a| block(a, 0, vec![])).collect();
    let refs0: Vec<_> = r0.iter().map(|b| b.inner().reference()).collect();
    assert_eq!(core.add_blocks(r0).len(), 4);
    let r1: Vec<_> = (0..4u64).map(|a| block(a, 1, refs0.clone())).collect();
    let refs1: Vec<_> = r1.iter().map(|b| b.inner().reference()).collect();
    assert_eq!(core.add_blocks(r1).len(), 4);
    let mut refs01 = refs0.clone();
    refs01.extend(refs1);
    let r2: Vec<_> = (0..4u64).map(|a| block(a, 2, refs01.clone())).collect();
    assert_eq!(core.add_blocks(r2).len(), 4);
    let (tx, mut rx) = tokio::sync::mpsc::unbounded_channel();
    let mut observer = SimpleCommitObserver::new(tx);
    let results = core.try_commit(&mut observer);
    // Wave 1's leader (authority 3, round 3) is undecided: the run stops before it.
    assert_eq!(results.len(), 1);
    match &results[0] {
        LeaderStatus::Commit(b) => {
            assert_eq!(b.inner().creator, AuthorityIndex(0));
            assert_eq!(b.inner().round, 0);
        }
        other => panic!("expected a commit, got {:?}", other),
    }
    let subdag = rx.try_recv().expect("a sub-DAG is sent");
    assert_eq!(subdag.blocks.len(), 1);
    // The next run starts after the committed wave: wave 1's leader is still
    // undecided, so nothing is decided and nothing is sent.
    let again = core.try_commit(&mut observer);
    assert_eq!(again.len(), 0);
    assert!(rx.try_recv().is_err());
}

#[test]
fn try_new_block_proposes_successive_rounds() {
    let mut core = Core::new(Parameters::default(), test_committee(), AuthorityIndex(2), None, NoOpBlockHandler);
    assert!(core.propose_in_range());
    let b0 = core.try_new_block().unwrap();
    assert_eq!(b0.inner().round, 0);
    assert_eq!(b0.inner().creator, AuthorityIndex(2));
    assert!(b0.inner().includes.is_empty());
    assert!(b0.inner().signature.0.is_empty());
    // Without a signer the digest is the hash of the proposal bytes.
    let unsigned = StatementBlock::new(
        AuthorityIndex(2),
        0,
        BlockDigest([0u8; 32]),
        vec![],
        vec![],
        EpochNumber(0),
        BlockSignature(vec![]),
    );
    assert_eq!(b0.inner().digest.0, *blake3::hash(&unsigned.canonical_bytes()).as_bytes());
    // Its own round-0 block alone holds no quorum: no round-1 block yet.
    assert!(core.try_new_block().is_none());
    assert_eq!(core.manager().highest_round(AuthorityIndex(2)), Some(0));
    let others: Vec<_> = [0u64, 1, 3].iter().map(|a| block(*a, 0, vec![])).collect();
    assert_eq!(core.add_blocks(others).len(), 3);
    let b1 = core.try_new_block().unwrap();
    assert_eq!(b1.inner().round, 1);
    assert_eq!(b1.inner().includes.len(), 4);
    assert!(b1.inner().includes.contains(&b0.inner().reference()));
    assert_eq!(core.manager().highest_round(AuthorityIndex(2)), Some(1));
}

#[test]
fn try_new_block_signs_with_secret_key() {
    let sk = SecretKey::from_bytes(&[7u8; 32]).unwrap();
    let mut core = Core::new(Parameters::default(), test_committee(), AuthorityIndex(1), Some(sk), NoOpBlockHandler);
    let b0 = core.try_new_block().unwrap();
    let unsigned = StatementBlock::new(
        AuthorityIndex(1),
        0,
        BlockDigest([0u8; 32]),
        vec![],
        vec![],
        EpochNumber(0),
        BlockSignature(vec![]),
    );
    let message = unsigned.canonical_bytes();
    let signing = ed25519_dalek::SigningKey::from_bytes(&[7u8; 32]);
    let expected = signing.sign(&message).to_bytes().to_vec();
    assert_eq!(b0.inner().signature.0, expected);
    assert_eq!(b0.inner().digest.0, *blake3::hash(&message).as_bytes());
}

#[test]
fn cleanup_drops_rounds_outside_retention() {
    let params = Parameters {
        store_retain_rounds: 1,
        ..Default::default()
    };
    let mut core = Core::new(params, test_committee(), AuthorityIndex(0), None, NoOpBlockHandler);
    let r0: Vec<_> = (0..4u64).map(|a| block(a, 0, vec![])).collect();
    let refs0: Vec<_> = r0.iter().map(|b| b.inner().reference()).collect();
    core.add_blocks(r0);
    let r1: Vec<_> = (0..4u64).map(|a| block(a, 1, refs0.clone())).collect();
    let refs1: Vec<_> = r1.iter().map(|b| b.inner().reference()).collect();
    core.add_blocks(r1);
    let r2: Vec<_> = (0..4u64).map(|a| block(a, 2, refs1.clone())).collect();
    core.add_blocks(r2);
    let (tx, _rx) = tokio::sync::mpsc::unbounded_channel();
    let mut observer = SimpleCommitObserver::new(tx);
    core.try_commit(&mut observer);
    // Highest own round is 2, so blocks below round 1 are dropped.
    let store = core.manager().store();
    assert!(store.references_at_round(0).is_empty());
    assert_eq!(store.references_at_round(1).len(), 4);
    assert_eq!(store.references_at_round(2).len(), 4);
}

#[test]
fn add_blocks_rejects_duplicates_and_invalid() {
    let mut core = Core::new(Parameters::default(), test_committee(), AuthorityIndex(0), None, NoOpBlockHandler);
    let b = block(0, 0, vec![]);
    assert_eq!(core.add_blocks(vec![b.clone(), b.clone()]).len(), 1);
    assert_eq!(core.add_blocks(vec![b]).len(), 0);
    // Creator outside the committee.
    assert_eq!(core.add_blocks(vec![block(9, 0, vec![])]).len(), 0);
}

#[test]
fn try_commit_resumes_at_the_first_undecided_slot() {
    let params = Parameters { number_of_leaders: 2, ..Default::default() };
    let mut core = Core::new(params, test_committee(), AuthorityIndex(0), None, NoOpBlockHandler);
    let r0: Vec<_> = (0..4u64).map(|a| block(a, 0, vec![])).collect();
    let refs0: Vec<_> = r0.iter().map(|b| b.inner().reference()).collect();
    core.add_blocks(r0);
    let r1: Vec<_> = (0..4u64).map(|a| block(a, 1, refs0.clone())).collect();
    let refs1: Vec<_> = r1.iter().map(|b| b.inner().reference()).collect();
    core.add_blocks(r1);
    let mut refs01 = refs0.clone();
    refs01.extend(refs1);
    let r2: Vec<_> = (0..4u64).map(|a| block(a, 2, refs01.clone())).collect();
    core.add_blocks(r2);
    let (tx, _rx) = tokio::sync::mpsc::unbounded_channel();
    let mut observer = SimpleCommitObserver::new(tx);
    assert!(core.commit_in_range());
    let first = core.try_commit(&mut observer);
    // Both leaders of wave 0 (authorities 0 and 1) are committed; wave 1 is undecided.
    assert_eq!(first.len(), 2);
    let leaders: Vec<_> = first
        .iter()
        .map(|s| match s {
            LeaderStatus::Commit(b) => b.inner().creator,
            other => panic!("expected a commit, got {:?}", other),
        })
        .collect();
    assert_eq!(leaders, vec![AuthorityIndex(0), AuthorityIndex(1)]);
    // The next run resumes at wave 1 and commits nothing twice.
    assert!(core.try_commit(&mut observer).is_empty());
}
