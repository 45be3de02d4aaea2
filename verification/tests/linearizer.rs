use mysticeti::{
    AuthorityIndex, BlockDigest, BlockReference, BlockSignature, Data, EpochNumber, Linearizer,
    StatementBlock,
};

fn block(author: u64, round: u64, digest: u8, includes: Vec<BlockReference>) -> Data<StatementBlock> {
    Data::new(StatementBlock::new(
        AuthorityIndex(author),
        round,
        BlockDigest([digest; 32]),
        includes,
        vec![],
        EpochNumber(0),
        BlockSignature(vec![]),
    ))
}

fn refs(blocks: &[Data<StatementBlock>]) -> Vec<BlockReference> {
    blocks.iter().map(|b| b.inner().reference()).collect()
}

#[test]
fn linearize_empty() {
    let l = Linearizer::new();
    let subdag = l.linearize(vec![]);
    assert!(subdag.blocks.is_empty());
}

#[test]
fn linearize_single() {
    let block = StatementBlock::new(
        AuthorityIndex(0),
        0,
        BlockDigest([0u8; 32]),
        vec![],
        vec![],
        EpochNumber(0),
        BlockSignature(vec![]),
    );
    let l = Linearizer::new();
    let subdag = l.linearize(vec![Data::new(block)]);
    assert_eq!(subdag.blocks.len(), 1);
}

#[test]
fn linearize_puts_dependencies_first() {
    let a = block(0, 0, 1, vec![]);
    let b = block(1, 1, 2, vec![a.inner().reference()]);
    let c = block(2, 2, 3, vec![b.inner().reference(), a.inner().reference()]);
    let out = Linearizer::new().linearize(vec![c.clone(), b.clone(), a.clone()]);
    assert_eq!(refs(&out.blocks), refs(&[a, b, c]));
}

#[test]
fn linearize_ignores_includes_outside_the_batch() {
    let outside = block(3, 0, 9, vec![]).inner().reference();
    let a = block(0, 1, 1, vec![outside]);
    let out = Linearizer::new().linearize(vec![a.clone()]);
    assert_eq!(refs(&out.blocks), refs(&[a]));
}

#[test]
fn linearize_drops_self_including_block_and_its_dependents() {
    let a = block(0, 0, 1, vec![]);
    let mut looping = block(1, 1, 2, vec![]).inner().clone();
    looping.includes.push(looping.reference());
    let looping = Data::new(looping);
    let b = block(2, 2, 3, vec![looping.inner().reference()]);
    let out = Linearizer::new().linearize(vec![b, looping, a.clone()]);
    assert_eq!(refs(&out.blocks), refs(&[a]));
}

#[test]
fn linearize_keeps_block_including_a_reference_twice() {
    let a = block(0, 0, 1, vec![]);
    let r = a.inner().reference();
    let twice = block(1, 1, 2, vec![r, r]);
    let out = Linearizer::new().linearize(vec![twice.clone(), a.clone()]);
    assert_eq!(refs(&out.blocks), refs(&[a, twice]));
}

#[test]
fn linearize_takes_ready_blocks_in_input_order() {
    let a = block(0, 0, 1, vec![]);
    let b = block(1, 0, 2, vec![]);
    let c = block(2, 1, 3, vec![a.inner().reference(), b.inner().reference()]);
    let out = Linearizer::new().linearize(vec![c.clone(), b.clone(), a.clone()]);
    assert_eq!(refs(&out.blocks), refs(&[b, a, c]));
}

#[test]
fn linearize_outputs_each_reference_once() {
    let a = block(0, 0, 1, vec![]);
    let out = Linearizer::new().linearize(vec![a.clone(), a.clone()]);
    assert_eq!(refs(&out.blocks), refs(&[a]));
}

#[test]
fn default_linearizer_orders_the_same_way() {
    let a = block(0, 0, 1, vec![]);
    let b = block(1, 1, 2, vec![a.inner().reference()]);
    let out = Linearizer::default().linearize(vec![b.clone(), a.clone()]);
    assert_eq!(refs(&out.blocks), refs(&[a, b]));
}
