//! Signing and verification of blocks, block digests and key types.

use ed25519_dalek::{Signer, Verifier};
use vstd::prelude::*;

use crate::committee::zero_digest;
use crate::encoding::{block_bytes, encode_fields};
use crate::types::{BlockDigest, BlockSignature, BlockView, StatementBlock};

verus! {

/// BLAKE3 hash (32-byte output) of `data`.
pub uninterp spec fn blake3_digest(data: Seq<u8>) -> Seq<u8>;

/// Ed25519 signature (64 bytes) of `message` under the 32-byte secret key `secret`.
pub uninterp spec fn ed25519_signature(secret: Seq<u8>, message: Seq<u8>) -> Seq<u8>;

/// The 32-byte Ed25519 public key that belongs to the secret key `secret`.
pub uninterp spec fn ed25519_public_key(secret: Seq<u8>) -> Seq<u8>;

/// Whether `public_key` decodes to a curve point and `signature` is a valid Ed25519
/// signature of `message` under it.
pub uninterp spec fn ed25519_accepts(public_key: Seq<u8>, message: Seq<u8>, signature: Seq<u8>) -> bool;

#[verifier::external_type_specification]
#[verifier::external_body]
pub struct ExSignatureError(ed25519_dalek::SignatureError);

/// Calls `blake3::hash` and returns the bytes of the hash. The contract names
/// the result `blake3_digest(data)`; nothing else about BLAKE3 is stated.
#[verifier::external_body]
fn blake3_hash(data: &[u8]) -> (r: [u8; 32])
    ensures
        r@ == blake3_digest(data@),
{
    *blake3::hash(data).as_bytes()
}

/// Builds an `ed25519_dalek::SigningKey` from the secret bytes and calls its
/// `Signer::sign`. Ed25519 signing is deterministic, so the contract names the
/// result `ed25519_signature(secret, message)`.
#[verifier::external_body]
fn ed25519_sign(secret: &[u8; 32], message: &[u8]) -> (r: [u8; 64])
    ensures
        r@ == ed25519_signature(secret@, message@),
{
    ed25519_dalek::SigningKey::from_bytes(secret).sign(message).to_bytes()
}

/// Builds an `ed25519_dalek::SigningKey` from the secret bytes and returns the
/// bytes of its `verifying_key()`, named `ed25519_public_key(secret)`.
#[verifier::external_body]
fn ed25519_public(secret: &[u8; 32]) -> (r: [u8; 32])
    ensures
        r@ == ed25519_public_key(secret@),
{
    ed25519_dalek::SigningKey::from_bytes(secret).verifying_key().to_bytes()
}

/// Decodes the public key with `ed25519_dalek::VerifyingKey::from_bytes` and
/// checks the signature with its `Verifier::verify`. The contract states that the
/// result is `Ok` exactly when `ed25519_accepts` holds, and that a signature made
/// by `SigningKey::sign` with a secret key is accepted under that key's public key
/// (Ed25519 correctness); which error value comes back is not stated.
#[verifier::external_body]
fn ed25519_verify(public_key: &[u8; 32], message: &[u8], signature: &[u8; 64]) -> (r: Result<
    (),
    ed25519_dalek::SignatureError,
>)
    ensures
        r.is_ok() == ed25519_accepts(public_key@, message@, signature@),
        forall|sk: Seq<u8>|
            sk.len() == 32 && #[trigger] ed25519_public_key(sk) == public_key@ && ed25519_signature(sk, message@)
                == signature@ ==> r.is_ok(),
{
    let key = ed25519_dalek::VerifyingKey::from_bytes(public_key)?;
    key.verify(message, &ed25519_dalek::Signature::from_bytes(signature))
}

/// Errors of key handling and signature checks.
#[derive(Clone, Copy, Debug, PartialEq, Eq, Structural)]
pub enum CryptoError {
    /// A secret key must be exactly 32 bytes.
    InvalidKeyLength,
    /// A signature must be exactly 64 bytes.
    InvalidSignatureLength,
    /// The public key does not decode or the signature does not verify.
    Rejected,
}

/// Public key for an authority (32 bytes).
#[derive(Clone, Copy, Debug, PartialEq, Eq, Hash)]
pub struct PublicKey(pub [u8; 32]);

/// Secret key for signing blocks (the 32 bytes of an Ed25519 secret key).
#[derive(Clone, Copy)]
pub struct SecretKey {
    bytes: [u8; 32],
}

impl View for SecretKey {
    type V = Seq<u8>;

    closed spec fn view(&self) -> Seq<u8> {
        self.bytes@
    }
}

/// The bytes a block's signature covers: its canonical bytes with an all-zero
/// digest and an empty signature (the block as it is before it is sealed).
pub open spec fn signed_message(b: BlockView) -> Seq<u8> {
    encode_fields(b.creator, b.round, zero_digest(), b.includes, b.statements, b.epoch, seq![])
}

/// The digest that a block with these contents gets.
pub open spec fn digest_of(b: BlockView) -> Seq<u8> {
    blake3_digest(block_bytes(b))
}

impl SecretKey {
    /// A secret key from exactly 32 bytes.
    pub fn from_bytes(bytes: &[u8]) -> (r: Result<SecretKey, CryptoError>)
        ensures
            bytes@.len() == 32 <==> r is Ok,
            r matches Ok(k) ==> k@ == bytes@,
            r matches Err(e) ==> e == CryptoError::InvalidKeyLength,
    {
        if bytes.len() != 32 {
            return Err(CryptoError::InvalidKeyLength);
        }
        let mut arr: [u8; 32] = [0u8; 32];
        let mut i: usize = 0;
        while i < 32
            invariant
                i <= 32,
                bytes@.len() == 32,
                forall|k: int| 0 <= k < i ==> arr@[k] == bytes@[k],
            decreases 32 - i,
        {
            arr[i] = bytes[i];
            i = i + 1;
        }
        assert(arr@ =~= bytes@);
        Ok(SecretKey { bytes: arr })
    }

    /// A secret key is 32 bytes long.
    pub proof fn lemma_key_len(&self)
        ensures
            self@.len() == 32,
    {
    }

    pub fn to_bytes(&self) -> (r: [u8; 32])
        ensures
            r@ == self@,
    {
        self.bytes
    }

    pub fn public_key(&self) -> (r: PublicKey)
        ensures
            r.0@ == ed25519_public_key(self@),
    {
        PublicKey(ed25519_public(&self.bytes))
    }

    /// Digest and signature of the canonical bytes of `block`.
    pub fn sign_block(&self, block: &StatementBlock) -> (r: (BlockDigest, BlockSignature))
        ensures
            r.0.0@ == digest_of(block@),
            r.1.0@ == ed25519_signature(self@, block_bytes(block@)),
            r.1.0@.len() == 64,
    {
        let message = block.canonical_bytes();
        let digest = BlockDigest(blake3_hash(message.as_slice()));
        let sig = ed25519_sign(&self.bytes, message.as_slice());
        let mut sig_bytes: Vec<u8> = Vec::new();
        let mut i: usize = 0;
        while i < 64
            invariant
                i <= 64,
                sig_bytes@ == sig@.take(i as int),
            decreases 64 - i,
        {
            sig_bytes.push(sig[i]);
            i = i + 1;
            assert(sig_bytes@ =~= sig@.take(i as int));
        }
        assert(sig@.take(64) =~= sig@);
        (digest, BlockSignature(sig_bytes))
    }
}

/// Verify a block's signature with the creator's public key. The signature covers
/// the block as it was signed: with an all-zero digest and an empty signature.
/// A block whose signature was made by the secret key of `public_key` over that
/// message verifies.
pub fn verify_block(block: &StatementBlock, public_key: &PublicKey) -> (r: Result<(), CryptoError>)
    ensures
        r is Ok <==> (block@.signature.len() == 64 && ed25519_accepts(
            public_key.0@,
            signed_message(block@),
            block@.signature,
        )),
        r matches Err(e) ==> (e == CryptoError::InvalidSignatureLength <==> block@.signature.len()
            != 64),
        r matches Err(e) ==> (e == CryptoError::InvalidSignatureLength || e == CryptoError::Rejected),
        (block@.signature.len() == 64 && exists|sk: Seq<u8>|
            sk.len() == 32 && #[trigger] ed25519_public_key(sk) == public_key.0@ && ed25519_signature(
                sk,
                signed_message(block@),
            ) == block@.signature) ==> r is Ok,
{
    let zero: [u8; 32] = [0u8; 32];
    let empty: Vec<u8> = Vec::new();
    let message = block.bytes_with(&zero, empty.as_slice());
    proof {
        assert(zero@ =~= zero_digest());
        assert(empty@ =~= Seq::<u8>::empty());
        assert(message@ == signed_message(block@));
    }
    if block.signature.0.len() != 64 {
        return Err(CryptoError::InvalidSignatureLength);
    }
    let mut sig: [u8; 64] = [0u8; 64];
    let mut i: usize = 0;
    while i < 64
        invariant
            i <= 64,
            block.signature.0@.len() == 64,
            forall|k: int| 0 <= k < i ==> sig@[k] == block.signature.0@[k],
        decreases 64 - i,
    {
        sig[i] = block.signature.0[i];
        i = i + 1;
    }
    assert(sig@ =~= block.signature.0@);
    match ed25519_verify(&public_key.0, message.as_slice(), &sig) {
        Ok(()) => Ok(()),
        Err(_) => Err(CryptoError::Rejected),
    }
}

/// Compute the digest of a block (without signing).
pub fn block_digest(block: &StatementBlock) -> (r: BlockDigest)
    ensures
        r.0@ == digest_of(block@),
{
    let message = block.canonical_bytes();
    BlockDigest(blake3_hash(message.as_slice()))
}

} // verus!
