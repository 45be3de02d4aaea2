//! Protocol types: blocks, references, statements and round numbers.

use vstd::prelude::*;

verus! {

/// Maximum number of authorities in the committee.
pub const MAX_AUTHORITIES: usize = 512;

/// Round number in the DAG (monotonically increasing per authority).
pub type RoundNumber = u64;

/// Index of an authority in the committee (0..n).
#[derive(Clone, Copy, Debug, PartialEq, Eq, PartialOrd, Ord, Hash, Default, Structural)]
pub struct AuthorityIndex(pub u64);

impl AuthorityIndex {
    pub fn new(value: u64) -> (r: Self)
        ensures
            r.0 == value,
    {
        AuthorityIndex(value)
    }
}

/// Digest of a block (hash or content-based identifier).
#[derive(Clone, Copy, Debug, PartialEq, Eq, Hash)]
pub struct BlockDigest(pub [u8; 32]);

impl BlockDigest {
    pub fn as_bytes(&self) -> (r: &[u8; 32])
        ensures
            r@ == self.0@,
    {
        &self.0
    }
}

} // verus!

verus! {

/// Reference to a block: (authority, round, digest).
#[derive(Clone, Copy, Debug, PartialEq, Eq, Hash)]
pub struct BlockReference {
    pub authority: AuthorityIndex,
    pub round: RoundNumber,
    pub digest: BlockDigest,
}

/// Opaque transaction payload (application-defined).
#[derive(Debug, PartialEq, Eq)]
pub struct Transaction(pub Vec<u8>);

/// Locator for a transaction within a block's statements (block reference + index).
#[derive(Clone, Copy, Debug, PartialEq, Eq, Hash)]
pub struct TransactionLocator {
    pub block: BlockReference,
    pub index: u32,
}

/// Range of transaction locators (for batched votes).
#[derive(Clone, Copy, Debug, PartialEq, Eq)]
pub struct TransactionLocatorRange {
    pub start: TransactionLocator,
    pub count: u32,
}

/// Vote on a transaction.
#[derive(Clone, Copy, Debug, PartialEq, Eq, Structural)]
pub enum Vote {
    Accept,
    Reject,
}

/// Statement in a block: a transaction share, a vote, or a batch of accept votes.
#[derive(Debug, PartialEq, Eq)]
pub enum BaseStatement {
    /// Share a transaction (the proposer includes it in its block).
    Share(Transaction),
    /// Vote on a single transaction.
    Vote(TransactionLocator, Vote),
    /// Batched accept votes for a range of transactions.
    VoteRange(TransactionLocatorRange),
}

/// Epoch number (for reconfiguration).
#[derive(Clone, Copy, Debug, PartialEq, Eq, PartialOrd, Ord, Hash, Structural)]
pub struct EpochNumber(pub u64);

/// Signature over the canonical bytes of a block.
#[derive(Debug, PartialEq, Eq)]
pub struct BlockSignature(pub Vec<u8>);

/// A block in the DAG: creator, round, digest, included references to earlier
/// blocks, statements, epoch and signature.
#[derive(Debug)]
pub struct StatementBlock {
    pub creator: AuthorityIndex,
    pub round: RoundNumber,
    pub digest: BlockDigest,
    /// References to blocks from strictly lower rounds that this block includes.
    pub includes: Vec<BlockReference>,
    /// Statements: transaction shares and votes.
    pub statements: Vec<BaseStatement>,
    pub epoch: EpochNumber,
    pub signature: BlockSignature,
}

/// Mathematical model of a statement.
pub enum StatementView {
    Share(Seq<u8>),
    Vote(TransactionLocator, Vote),
    VoteRange(TransactionLocatorRange),
}

impl View for BaseStatement {
    type V = StatementView;

    open spec fn view(&self) -> StatementView {
        match self {
            BaseStatement::Share(t) => StatementView::Share(t.0@),
            BaseStatement::Vote(loc, v) => StatementView::Vote(*loc, *v),
            BaseStatement::VoteRange(range) => StatementView::VoteRange(*range),
        }
    }
}

/// Mathematical model of a block.
pub struct BlockView {
    pub creator: AuthorityIndex,
    pub round: RoundNumber,
    pub digest: BlockDigest,
    pub includes: Seq<BlockReference>,
    pub statements: Seq<StatementView>,
    pub epoch: EpochNumber,
    pub signature: Seq<u8>,
}

impl View for StatementBlock {
    type V = BlockView;

    open spec fn view(&self) -> BlockView {
        BlockView {
            creator: self.creator,
            round: self.round,
            digest: self.digest,
            includes: self.includes@,
            statements: self.statements@.map_values(|s: BaseStatement| s@),
            epoch: self.epoch,
            signature: self.signature.0@,
        }
    }
}

/// The reference that names a block.
pub open spec fn ref_of(b: BlockView) -> BlockReference {
    BlockReference { authority: b.creator, round: b.round, digest: b.digest }
}

/// Copies a byte vector element by element.
pub(crate) fn copy_bytes(v: &Vec<u8>) -> (r: Vec<u8>)
    ensures
        r@ == v@,
{
    let mut out: Vec<u8> = Vec::new();
    let mut i: usize = 0;
    while i < v.len()
        invariant
            i <= v.len(),
            out@ == v@.take(i as int),
        decreases v.len() - i,
    {
        out.push(v[i]);
        i = i + 1;
        assert(out@ =~= v@.take(i as int));
    }
    assert(out@ =~= v@);
    out
}

impl Clone for Transaction {
    fn clone(&self) -> (r: Self)
        ensures
            r.0@ == self.0@,
    {
        Transaction(copy_bytes(&self.0))
    }
}

impl Clone for BlockSignature {
    fn clone(&self) -> (r: Self)
        ensures
            r.0@ == self.0@,
    {
        BlockSignature(copy_bytes(&self.0))
    }
}

impl Clone for BaseStatement {
    fn clone(&self) -> (r: Self)
        ensures
            r@ == self@,
    {
        match self {
            BaseStatement::Share(t) => BaseStatement::Share(t.clone()),
            BaseStatement::Vote(loc, v) => BaseStatement::Vote(*loc, *v),
            BaseStatement::VoteRange(range) => BaseStatement::VoteRange(*range),
        }
    }
}

/// Copies a vector of references.
pub(crate) fn copy_refs(v: &Vec<BlockReference>) -> (r: Vec<BlockReference>)
    ensures
        r@ == v@,
{
    let mut out: Vec<BlockReference> = Vec::new();
    let mut i: usize = 0;
    while i < v.len()
        invariant
            i <= v.len(),
            out@ == v@.take(i as int),
        decreases v.len() - i,
    {
        out.push(v[i]);
        i = i + 1;
        assert(out@ =~= v@.take(i as int));
    }
    assert(out@ =~= v@);
    out
}

/// Copies a vector of statements.
pub(crate) fn copy_statements(v: &Vec<BaseStatement>) -> (r: Vec<BaseStatement>)
    ensures
        r@.map_values(|s: BaseStatement| s@) == v@.map_values(|s: BaseStatement| s@),
{
    let mut out: Vec<BaseStatement> = Vec::new();
    let mut i: usize = 0;
    while i < v.len()
        invariant
            i <= v.len(),
            out@.len() == i,
            forall|k: int| 0 <= k < i ==> out@[k]@ == v@[k]@,
        decreases v.len() - i,
    {
        out.push(v[i].clone());
        i = i + 1;
    }
    assert(out@.map_values(|s: BaseStatement| s@) =~= v@.map_values(|s: BaseStatement| s@));
    out
}

impl Clone for StatementBlock {
    fn clone(&self) -> (r: Self)
        ensures
            r@ == self@,
    {
        StatementBlock {
            creator: self.creator,
            round: self.round,
            digest: self.digest,
            includes: copy_refs(&self.includes),
            statements: copy_statements(&self.statements),
            epoch: self.epoch,
            signature: self.signature.clone(),
        }
    }
}

impl StatementBlock {
    /// Create a new block (digest and signature are normally set by the crypto layer).
    pub fn new(
        creator: AuthorityIndex,
        round: RoundNumber,
        digest: BlockDigest,
        includes: Vec<BlockReference>,
        statements: Vec<BaseStatement>,
        epoch: EpochNumber,
        signature: BlockSignature,
    ) -> (r: Self)
        ensures
            r.creator == creator,
            r.round == round,
            r.digest == digest,
            r.includes == includes,
            r.statements == statements,
            r.epoch == epoch,
            r.signature == signature,
    {
        StatementBlock { creator, round, digest, includes, statements, epoch, signature }
    }

    /// The reference (creator, round, digest) of this block.
    pub fn reference(&self) -> (r: BlockReference)
        ensures
            r == ref_of(self@),
    {
        BlockReference { authority: self.creator, round: self.round, digest: self.digest }
    }
}

/// Byte-wise equality of two 32-byte arrays.
pub(crate) fn bytes32_eq(a: &[u8; 32], b: &[u8; 32]) -> (r: bool)
    ensures
        r == (*a == *b),
{
    let mut i: usize = 0;
    while i < 32
        invariant
            i <= 32,
            forall|k: int| 0 <= k < i ==> a@[k] == b@[k],
        decreases 32 - i,
    {
        if a[i] != b[i] {
            return false;
        }
        i = i + 1;
    }
    assert(a@ =~= b@);
    proof {
        vstd::array::axiom_array_ext_equal(*a, *b);
    }
    true
}

/// Equality of two block references.
pub(crate) fn same_reference(a: &BlockReference, b: &BlockReference) -> (r: bool)
    ensures
        r == (*a == *b),
{
    a.authority.0 == b.authority.0 && a.round == b.round && bytes32_eq(&a.digest.0, &b.digest.0)
}

/// Whether `refs` holds `r`.
pub(crate) fn contains_reference(refs: &Vec<BlockReference>, r: &BlockReference) -> (b: bool)
    ensures
        b == refs@.contains(*r),
{
    let mut i: usize = 0;
    while i < refs.len()
        invariant
            i <= refs.len(),
            forall|k: int| 0 <= k < i ==> refs@[k] != *r,
        decreases refs.len() - i,
    {
        if same_reference(&refs[i], r) {
            assert(refs@[i as int] == *r);
            return true;
        }
        i = i + 1;
    }
    false
}

} // verus!
