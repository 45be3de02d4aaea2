use ed25519_dalek::Signer;
use mysticeti::{
    block_digest, verify_block, AuthorityIndex, BaseStatement, BlockDigest, BlockReference,
    BlockSignature, CryptoError, EpochNumber, SecretKey, StatementBlock, Transaction,
    TransactionLocator, TransactionLocatorRange, Vote,
};

fn sample_block(statements: Vec<BaseStatement>) -> StatementBlock {
    StatementBlock::new(
        AuthorityIndex(2),
        7,
        BlockDigest([4u8; 32]),
        vec![BlockReference { authority: AuthorityIndex(1), round: 6, digest: BlockDigest([3u8; 32]) }],
        statements,
        EpochNumber(9),
        BlockSignature(vec![1, 2]),
    )
}

type Ref = (u64, u64, [u8; 32]);

fn mirror_ref(r: &BlockReference) -> Ref {
    (r.authority.0, r.round, r.digest.0)
}

#[test]
fn canonical_bytes_follow_the_fixed_width_layout() {
    let b = sample_block(vec![]);
    let mirror: (u64, u64, [u8; 32], Vec<Ref>, Vec<u8>, u64, Vec<u8>) = (
        2,
        7,
        [4u8; 32],
        b.includes.iter().map(mirror_ref).collect(),
        vec![],
        9,
        vec![1, 2],
    );
    assert_eq!(b.canonical_bytes(), bincode::serialize(&mirror).unwrap());
}

#[test]
fn canonical_bytes_of_statements() {
    let loc = TransactionLocator { block: BlockReference { authority: AuthorityIndex(5), round: 1, digest: BlockDigest([8u8; 32]) }, index: 4 };
    let share = sample_block(vec![BaseStatement::Share(Transaction(vec![7, 7, 7]))]);
    let share_mirror: (u64, u64, [u8; 32], Vec<Ref>, Vec<(u32, Vec<u8>)>, u64, Vec<u8>) =
        (2, 7, [4u8; 32], share.includes.iter().map(mirror_ref).collect(), vec![(0, vec![7, 7, 7])], 9, vec![1, 2]);
    assert_eq!(share.canonical_bytes(), bincode::serialize(&share_mirror).unwrap());
    let vote = sample_block(vec![BaseStatement::Vote(loc, Vote::Reject)]);
    let vote_mirror: (u64, u64, [u8; 32], Vec<Ref>, Vec<(u32, (Ref, u32), u32)>, u64, Vec<u8>) =
        (2, 7, [4u8; 32], vote.includes.iter().map(mirror_ref).collect(), vec![(1, (mirror_ref(&loc.block), 4), 1)], 9, vec![1, 2]);
    assert_eq!(vote.canonical_bytes(), bincode::serialize(&vote_mirror).unwrap());
    let range = sample_block(vec![BaseStatement::VoteRange(TransactionLocatorRange { start: loc, count: 11 })]);
    let range_mirror: (u64, u64, [u8; 32], Vec<Ref>, Vec<(u32, (Ref, u32), u32)>, u64, Vec<u8>) =
        (2, 7, [4u8; 32], range.includes.iter().map(mirror_ref).collect(), vec![(2, (mirror_ref(&loc.block), 4), 11)], 9, vec![1, 2]);
    assert_eq!(range.canonical_bytes(), bincode::serialize(&range_mirror).unwrap());
}

#[test]
fn digest_hashes_canonical_bytes() {
    let b = sample_block(vec![]);
    let d = block_digest(&b);
    assert_eq!(d.0, *blake3::hash(&b.canonical_bytes()).as_bytes());
    assert_ne!(d.0, b.digest.0);
    assert_eq!(d.as_bytes(), &d.0);
}

#[test]
fn secret_key_bytes_and_public_key() {
    assert_eq!(SecretKey::from_bytes(&[1u8; 31]).err(), Some(CryptoError::InvalidKeyLength));
    let sk = SecretKey::from_bytes(&[1u8; 32]).unwrap();
    assert_eq!(sk.to_bytes(), [1u8; 32]);
    let expected = ed25519_dalek::SigningKey::from_bytes(&[1u8; 32]).verifying_key().to_bytes();
    assert_eq!(sk.public_key().0, expected);
    assert_ne!(sk.public_key().0, [1u8; 32]);
}

#[test]
fn sign_block_signs_canonical_bytes() {
    let sk = SecretKey::from_bytes(&[3u8; 32]).unwrap();
    let b = sample_block(vec![]);
    let (digest, sig) = sk.sign_block(&b);
    let message = b.canonical_bytes();
    assert_eq!(digest.0, *blake3::hash(&message).as_bytes());
    let expected = ed25519_dalek::SigningKey::from_bytes(&[3u8; 32]).sign(&message).to_bytes().to_vec();
    assert_eq!(sig.0, expected);
}

#[test]
fn verify_block_checks_signature_length_and_validity() {
    let sk = SecretKey::from_bytes(&[3u8; 32]).unwrap();
    let pk = sk.public_key();
    let b = sample_block(vec![]);
    assert_eq!(verify_block(&b, &pk), Err(CryptoError::InvalidSignatureLength));
    let mut bad = b.clone();
    bad.signature = BlockSignature(vec![0u8; 64]);
    assert_eq!(verify_block(&bad, &pk), Err(CryptoError::Rejected));
}

#[test]
fn signed_block_verifies() {
    let sk = SecretKey::from_bytes(&[3u8; 32]).unwrap();
    let pk = sk.public_key();
    // Seal a block the way a core does: sign it with a zero digest and no signature.
    let mut block = sample_block(vec![]);
    block.digest = BlockDigest([0u8; 32]);
    block.signature = BlockSignature(vec![]);
    let (digest, sig) = sk.sign_block(&block);
    block.digest = digest;
    block.signature = sig;
    assert_eq!(verify_block(&block, &pk), Ok(()));
    // Another key's public key rejects it, and so does a changed block.
    let other = SecretKey::from_bytes(&[4u8; 32]).unwrap().public_key();
    assert_eq!(verify_block(&block, &other), Err(CryptoError::Rejected));
    let mut changed = block.clone();
    changed.round = 8;
    assert_eq!(verify_block(&changed, &pk), Err(CryptoError::Rejected));
}
