use mysticeti::{
    AuthorityIndex, BlockDigest, BlockReference, BlockSignature, BlockStore, Data, EpochNumber,
    NetworkMessage, StatementBlock, Syncer,
};

fn block(author: u64, round: u64) -> Data<StatementBlock> {
    Data::new(StatementBlock::new(
        AuthorityIndex(author),
        round,
        BlockDigest([1u8; 32]),
        vec![],
        vec![],
        EpochNumber(0),
        BlockSignature(vec![]),
    ))
}

fn unknown() -> BlockReference {
    BlockReference { authority: AuthorityIndex(9), round: 9, digest: BlockDigest([9u8; 32]) }
}

#[test]
fn subscribe_message_carries_round() {
    let mut s = Syncer::new();
    match s.subscribe_message(12) {
        NetworkMessage::SubscribeOwnFrom(r) => assert_eq!(r, 12),
        other => panic!("unexpected {:?}", other),
    }
    let _ = Syncer::default();
}

#[test]
fn request_answers() {
    let mut store = BlockStore::new();
    let a = block(0, 1);
    let b = block(1, 1);
    store.insert(a.clone());
    store.insert(b.clone());
    let s = Syncer::new();
    match s.handle_request_blocks(&store, &[b.inner().reference(), a.inner().reference()]) {
        NetworkMessage::RequestBlocksResponse(v) => {
            let refs: Vec<_> = v.iter().map(|d| d.inner().reference()).collect();
            assert_eq!(refs, vec![b.inner().reference(), a.inner().reference()]);
        }
        other => panic!("unexpected {:?}", other),
    }
    match s.handle_request_blocks(&store, &[unknown()]) {
        NetworkMessage::BlockNotFound(v) => assert_eq!(v, vec![unknown()]),
        other => panic!("unexpected {:?}", other),
    }
    match s.handle_request_blocks(&store, &[unknown(), a.inner().reference()]) {
        NetworkMessage::RequestBlocksResponse(v) => assert_eq!(v.len(), 1),
        other => panic!("unexpected {:?}", other),
    }
    match s.handle_request_blocks(&store, &[]) {
        NetworkMessage::RequestBlocksResponse(v) => assert!(v.is_empty()),
        other => panic!("unexpected {:?}", other),
    }
}
