use mysticeti::{
    Authority, AuthorityIndex, BaseStatement, BlockDigest, BlockManager, BlockSignature,
    BlockStore, BlockValidator, Committee, Data, EpochNumber, PublicKey, StatementBlock,
    Transaction, TransactionLocator, TransactionLocatorRange, Vote,
};

fn committee(stakes: &[u64], quorum: u64) -> Committee {
    Committee {
        authorities: stakes
            .iter()
            .enumerate()
            .map(|(i, s)| Authority { stake: *s, public_key: PublicKey([i as u8; 32]), hostname: format!("v{}", i) })
            .collect(),
        epoch: EpochNumber(0),
        validity_threshold: 1,
        quorum_threshold: quorum,
    }
}

fn block(author: u64, round: u64, includes: Vec<mysticeti::BlockReference>, statements: Vec<BaseStatement>) -> StatementBlock {
    StatementBlock::new(
        AuthorityIndex(author),
        round,
        BlockDigest([round as u8; 32]),
        includes,
        statements,
        EpochNumber(0),
        BlockSignature(vec![]),
    )
}

fn genesis_store(n: u64) -> (BlockStore, Vec<mysticeti::BlockReference>) {
    let mut store = BlockStore::new();
    let mut refs = Vec::new();
    for a in 0..n {
        let b = block(a, 0, vec![], vec![]);
        refs.push(b.reference());
        store.insert(Data::new(b));
    }
    (store, refs)
}

#[test]
fn genesis_blocks_are_valid() {
    let c = committee(&[1, 1, 1, 1], 3);
    let v = BlockValidator::new(c.clone());
    let store = BlockStore::new();
    for a in 0..4 {
        let g = c.genesis_blocks(AuthorityIndex(a));
        assert_eq!(g.len(), 1);
        assert!(v.validate(g[0].inner(), &store));
    }
    assert!(c.genesis_blocks(AuthorityIndex(4)).is_empty());
}

#[test]
fn rejects_unknown_creator() {
    let v = BlockValidator::new(committee(&[1, 1, 1, 1], 3));
    assert!(!v.validate(&block(4, 0, vec![], vec![]), &BlockStore::new()));
}

#[test]
fn rejects_include_from_same_round_or_missing() {
    let v = BlockValidator::new(committee(&[1, 1, 1, 1], 3));
    let (store, refs) = genesis_store(4);
    let same_round = block(0, 0, vec![refs[1]], vec![]);
    assert!(!v.validate(&same_round, &store));
    let mut missing = refs.clone();
    missing.push(block(3, 0, vec![], vec![]).reference());
    missing[3].digest = BlockDigest([9u8; 32]);
    assert!(!v.validate(&block(0, 1, missing, vec![]), &store));
    assert!(v.validate(&block(0, 1, refs, vec![]), &store));
}

#[test]
fn requires_quorum_stake_at_previous_round() {
    let v = BlockValidator::new(committee(&[5, 1, 1, 1], 6));
    let (store, refs) = genesis_store(4);
    assert!(!v.validate(&block(1, 1, refs[1..].to_vec(), vec![]), &store));
    assert!(v.validate(&block(1, 1, vec![refs[0], refs[1]], vec![]), &store));
    // Two references from one authority count its stake once.
    assert!(!v.validate(&block(1, 1, vec![refs[1], refs[1], refs[2]], vec![]), &store));
}

#[test]
fn checks_votes() {
    let v = BlockValidator::new(committee(&[1, 1, 1, 1], 3));
    let (store, refs) = genesis_store(4);
    let own = mysticeti::BlockReference { authority: AuthorityIndex(0), round: 1, digest: BlockDigest([0u8; 32]) };
    let share = BaseStatement::Share(Transaction(vec![1, 2]));
    let vote_own = BaseStatement::Vote(TransactionLocator { block: own, index: 0 }, Vote::Accept);
    let vote_own_out = BaseStatement::Vote(TransactionLocator { block: own, index: 2 }, Vote::Reject);
    let vote_included = BaseStatement::Vote(TransactionLocator { block: refs[2], index: 5 }, Vote::Accept);
    let outsider = mysticeti::BlockReference { authority: AuthorityIndex(3), round: 0, digest: BlockDigest([7u8; 32]) };
    let vote_outside = BaseStatement::Vote(TransactionLocator { block: outsider, index: 0 }, Vote::Accept);
    let range_ok = BaseStatement::VoteRange(TransactionLocatorRange { start: TransactionLocator { block: refs[1], index: 0 }, count: 3 });
    let range_empty = BaseStatement::VoteRange(TransactionLocatorRange { start: TransactionLocator { block: refs[1], index: 0 }, count: 0 });
    assert!(v.validate(&block(0, 1, refs.clone(), vec![share.clone(), vote_own.clone(), vote_included.clone(), range_ok.clone()]), &store));
    assert!(!v.validate(&block(0, 1, refs.clone(), vec![share.clone(), vote_own_out]), &store));
    assert!(!v.validate(&block(0, 1, refs.clone(), vec![vote_outside]), &store));
    assert!(!v.validate(&block(0, 1, refs.clone(), vec![range_empty]), &store));
}

#[test]
fn manager_accepts_in_order_and_reports_includes() {
    let mut m = BlockManager::new(committee(&[1, 1, 1, 1], 3));
    let genesis: Vec<_> = (0..4).map(|a| Data::new(block(a, 0, vec![], vec![]))).collect();
    let refs: Vec<_> = genesis.iter().map(|b| b.inner().reference()).collect();
    // A round-1 block offered before the genesis blocks is rejected; after them it is accepted.
    let early = Data::new(block(0, 1, refs.clone(), vec![]));
    let mut batch = vec![early.clone()];
    batch.extend(genesis.iter().cloned());
    batch.push(early);
    let accepted = m.add_blocks(batch);
    assert_eq!(accepted.len(), 5);
    assert_eq!(accepted[4].inner().round, 1);
    assert_eq!(m.highest_round(AuthorityIndex(0)), Some(1));
    assert_eq!(m.required_includes_for_round(AuthorityIndex(0), 1), refs);
    assert!(m.required_includes_for_round(AuthorityIndex(0), 0).is_empty());
    assert_eq!(m.committee().size(), 4);
}

#[test]
fn manager_accepts_a_repeated_batch_once() {
    let mut m = BlockManager::new(committee(&[1, 1, 1, 1], 3));
    let genesis: Vec<_> = (0..4).map(|a| Data::new(block(a, 0, vec![], vec![]))).collect();
    let refs: Vec<_> = genesis.iter().map(|b| b.inner().reference()).collect();
    let mut batch = genesis.clone();
    batch.push(Data::new(block(0, 1, refs.clone(), vec![])));
    assert_eq!(m.add_blocks(batch.clone()).len(), 5);
    assert!(m.add_blocks(batch).is_empty());
    assert_eq!(m.highest_round(AuthorityIndex(0)), Some(1));
    assert_eq!(m.required_includes_for_round(AuthorityIndex(0), 1), refs);
    // The includes of a round-2 block name each round-1 block once.
    assert_eq!(m.required_includes_for_round(AuthorityIndex(1), 2).len(), 1);
}
