use mysticeti::{AuthorityIndex, BlockDigest, BlockSignature, Data, EpochNumber, StatementBlock};

#[test]
fn data_wraps_and_clones_the_block() {
    let b = StatementBlock::new(
        AuthorityIndex(1),
        2,
        BlockDigest([3u8; 32]),
        vec![],
        vec![],
        EpochNumber(4),
        BlockSignature(vec![5]),
    );
    let r = b.reference();
    let d = Data::block(b);
    let e = d.clone();
    assert_eq!(d.inner().reference(), r);
    assert_eq!(e.inner().reference(), r);
    assert_eq!(e.inner().signature.0, vec![5]);
    assert_eq!(AuthorityIndex::new(7), AuthorityIndex(7));
}
