use mysticeti::{
    AuthorityIndex, BlockDigest, BlockSignature, BlockStore, Data, EpochNumber, StatementBlock,
};

fn block(author: u64, round: u64, digest: u8) -> Data<StatementBlock> {
    Data::new(StatementBlock::new(
        AuthorityIndex(author),
        round,
        BlockDigest([digest; 32]),
        vec![],
        vec![],
        EpochNumber(0),
        BlockSignature(vec![]),
    ))
}

#[test]
fn insert_then_get_returns_the_block() {
    let mut store = BlockStore::new();
    let b = block(1, 4, 7);
    let r = b.inner().reference();
    assert!(!store.contains(&r));
    assert!(store.get(&r).is_none());
    store.insert(b);
    assert!(store.contains(&r));
    let got = store.get(&r).unwrap();
    assert_eq!(got.inner().reference(), r);
    assert!(!store.contains(&block(1, 4, 8).inner().reference()));
}

#[test]
fn insert_replaces_the_block_with_the_same_reference() {
    let mut store = BlockStore::new();
    let b = block(1, 4, 7);
    store.insert(b.clone());
    let mut other = b.inner().clone();
    other.signature = BlockSignature(vec![1, 2, 3]);
    store.insert(Data::new(other));
    assert_eq!(store.references_at_round(4).len(), 1);
    assert_eq!(store.get(&b.inner().reference()).unwrap().inner().signature.0, vec![1, 2, 3]);
}

#[test]
fn insert_many_and_queries() {
    let mut store = BlockStore::new();
    store.insert_many(vec![block(0, 0, 1), block(1, 0, 2), block(0, 1, 3), block(0, 5, 4)]);
    let at0 = store.references_at_round(0);
    assert_eq!(at0, vec![block(0, 0, 1).inner().reference(), block(1, 0, 2).inner().reference()]);
    assert_eq!(store.max_round_for_authority(AuthorityIndex(0)), Some(5));
    assert_eq!(store.max_round_for_authority(AuthorityIndex(1)), Some(0));
    assert_eq!(store.max_round_for_authority(AuthorityIndex(2)), None);
}

#[test]
fn cleanup_keeps_rounds_from_the_cutoff() {
    let mut store = BlockStore::new();
    store.insert_many(vec![block(0, 0, 1), block(0, 1, 2), block(0, 2, 3), block(0, 3, 4)]);
    store.cleanup_old_rounds(3, 1);
    assert!(store.references_at_round(0).is_empty());
    assert!(store.references_at_round(1).is_empty());
    assert_eq!(store.references_at_round(2).len(), 1);
    assert_eq!(store.references_at_round(3).len(), 1);
    // The cutoff saturates at zero.
    store.cleanup_old_rounds(1, 10);
    assert_eq!(store.references_at_round(2).len(), 1);
}
