//! Canonical byte encoding of a block: the message that is hashed into its
//! digest and signed by its creator.
//!
//! Integers are little-endian and fixed width (`u64`: 8 bytes, `u32`: 4 bytes),
//! a sequence is its length as a `u64` followed by its elements, a 32-byte digest
//! is its raw bytes and an enum is its variant index as a `u32` followed by its
//! fields.

use vstd::prelude::*;

use crate::types::{AuthorityIndex, EpochNumber, BaseStatement, BlockReference, BlockView, StatementBlock, StatementView, TransactionLocator, Vote};

verus! {

/// The `n` low-order bytes of `x`, least significant first.
pub open spec fn le_bytes(x: nat, n: nat) -> Seq<u8>
    decreases n,
{
    if n == 0 {
        seq![]
    } else {
        seq![(x % 256) as u8] + le_bytes(x / 256, (n - 1) as nat)
    }
}

pub open spec fn u64_bytes(x: u64) -> Seq<u8> {
    le_bytes(x as nat, 8)
}

pub open spec fn u32_bytes(x: u32) -> Seq<u8> {
    le_bytes(x as nat, 4)
}

pub open spec fn len_bytes(n: nat) -> Seq<u8> {
    le_bytes(n, 8)
}

pub open spec fn reference_bytes(r: BlockReference) -> Seq<u8> {
    u64_bytes(r.authority.0) + u64_bytes(r.round) + r.digest.0@
}

pub open spec fn references_body(s: Seq<BlockReference>) -> Seq<u8>
    decreases s.len(),
{
    if s.len() == 0 {
        seq![]
    } else {
        references_body(s.drop_last()) + reference_bytes(s.last())
    }
}

pub open spec fn locator_bytes(l: TransactionLocator) -> Seq<u8> {
    reference_bytes(l.block) + u32_bytes(l.index)
}

pub open spec fn vote_bytes(v: Vote) -> Seq<u8> {
    match v {
        Vote::Accept => u32_bytes(0),
        Vote::Reject => u32_bytes(1),
    }
}

pub open spec fn statement_bytes(s: StatementView) -> Seq<u8> {
    match s {
        StatementView::Share(t) => u32_bytes(0) + len_bytes(t.len()) + t,
        StatementView::Vote(loc, v) => u32_bytes(1) + locator_bytes(loc) + vote_bytes(v),
        StatementView::VoteRange(range) => u32_bytes(2) + locator_bytes(range.start) + u32_bytes(
            range.count,
        ),
    }
}

pub open spec fn statements_body(s: Seq<StatementView>) -> Seq<u8>
    decreases s.len(),
{
    if s.len() == 0 {
        seq![]
    } else {
        statements_body(s.drop_last()) + statement_bytes(s.last())
    }
}

/// The canonical bytes of a block with these fields.
pub open spec fn encode_fields(
    creator: AuthorityIndex,
    round: u64,
    digest: Seq<u8>,
    includes: Seq<BlockReference>,
    statements: Seq<StatementView>,
    epoch: EpochNumber,
    signature: Seq<u8>,
) -> Seq<u8> {
    u64_bytes(creator.0) + u64_bytes(round) + digest + len_bytes(includes.len()) + references_body(
        includes,
    ) + len_bytes(statements.len()) + statements_body(statements) + u64_bytes(epoch.0)
        + len_bytes(signature.len()) + signature
}

/// The canonical bytes of a block.
pub open spec fn block_bytes(b: BlockView) -> Seq<u8> {
    encode_fields(b.creator, b.round, b.digest.0@, b.includes, b.statements, b.epoch, b.signature)
}

/// Appends the `n` low-order bytes of `x`, least significant first.
pub(crate) fn push_le(out: &mut Vec<u8>, x: u64, n: usize)
    ensures
        final(out)@ == old(out)@ + le_bytes(x as nat, n as nat),
{
    let ghost start = out@;
    let mut v: u64 = x;
    let mut i: usize = 0;
    while i < n
        invariant
            i <= n,
            out@ + le_bytes(v as nat, (n - i) as nat) == start + le_bytes(x as nat, n as nat),
        decreases n - i,
    {
        let ghost before = out@;
        out.push((v % 256) as u8);
        assert(le_bytes(v as nat, (n - i) as nat) == seq![(v % 256) as u8] + le_bytes(
            (v / 256) as nat,
            (n - i - 1) as nat,
        ));
        assert(out@ + le_bytes((v / 256) as nat, (n - i - 1) as nat) =~= before + le_bytes(
            v as nat,
            (n - i) as nat,
        ));
        v = v / 256;
        i = i + 1;
    }
    assert(le_bytes(v as nat, 0) =~= seq![]);
    assert(out@ =~= out@ + le_bytes(v as nat, 0));
}

/// Appends all of `data`.
pub(crate) fn push_all(out: &mut Vec<u8>, data: &[u8])
    ensures
        final(out)@ == old(out)@ + data@,
{
    let ghost start = out@;
    let mut i: usize = 0;
    while i < data.len()
        invariant
            i <= data@.len(),
            out@ == start + data@.take(i as int),
        decreases data@.len() - i,
    {
        out.push(data[i]);
        i = i + 1;
        assert(out@ =~= start + data@.take(i as int));
    }
    assert(data@.take(data@.len() as int) =~= data@);
}

fn push_reference(out: &mut Vec<u8>, r: &BlockReference)
    ensures
        final(out)@ == old(out)@ + reference_bytes(*r),
{
    let ghost start = out@;
    push_le(out, r.authority.0, 8);
    push_le(out, r.round, 8);
    push_all(out, r.digest.0.as_slice());
    assert(out@ =~= start + reference_bytes(*r));
}

fn push_locator(out: &mut Vec<u8>, l: &TransactionLocator)
    ensures
        final(out)@ == old(out)@ + locator_bytes(*l),
{
    let ghost start = out@;
    push_reference(out, &l.block);
    push_le(out, l.index as u64, 4);
    assert(out@ =~= start + locator_bytes(*l));
}

fn push_statement(out: &mut Vec<u8>, s: &BaseStatement)
    ensures
        final(out)@ == old(out)@ + statement_bytes(s@),
{
    let ghost start = out@;
    match s {
        BaseStatement::Share(t) => {
            push_le(out, 0, 4);
            push_le(out, t.0.len() as u64, 8);
            push_all(out, t.0.as_slice());
        },
        BaseStatement::Vote(loc, v) => {
            push_le(out, 1, 4);
            push_locator(out, loc);
            match v {
                Vote::Accept => push_le(out, 0, 4),
                Vote::Reject => push_le(out, 1, 4),
            }
        },
        BaseStatement::VoteRange(range) => {
            push_le(out, 2, 4);
            push_locator(out, &range.start);
            push_le(out, range.count as u64, 4);
        },
    }
    assert(out@ =~= start + statement_bytes(s@));
}

impl StatementBlock {
    /// The canonical bytes of this block: what its digest hashes.
    pub fn canonical_bytes(&self) -> (r: Vec<u8>)
        ensures
            r@ == block_bytes(self@),
    {
        self.bytes_with(&self.digest.0, self.signature.0.as_slice())
    }

    /// The canonical bytes of this block with `digest` and `signature` in place of
    /// its own.
    pub(crate) fn bytes_with(&self, digest: &[u8; 32], signature: &[u8]) -> (r: Vec<u8>)
        ensures
            r@ == encode_fields(self@.creator, self@.round, digest@, self@.includes, self@.statements, self@.epoch, signature@),
    {
        let mut out: Vec<u8> = Vec::new();
        push_le(&mut out, self.creator.0, 8);
        push_le(&mut out, self.round, 8);
        push_all(&mut out, digest.as_slice());
        push_le(&mut out, self.includes.len() as u64, 8);
        let ghost head = out@;
        let mut i: usize = 0;
        while i < self.includes.len()
            invariant
                i <= self.includes@.len(),
                out@ == head + references_body(self.includes@.take(i as int)),
            decreases self.includes@.len() - i,
        {
            push_reference(&mut out, &self.includes[i]);
            i = i + 1;
            assert(self.includes@.take(i as int).drop_last() =~= self.includes@.take(
                (i - 1) as int,
            ));
            assert(out@ =~= head + references_body(self.includes@.take(i as int)));
        }
        assert(self.includes@.take(self.includes@.len() as int) =~= self.includes@);
        push_le(&mut out, self.statements.len() as u64, 8);
        let ghost views = self.statements@.map_values(|s: BaseStatement| s@);
        let ghost mid = out@;
        let mut j: usize = 0;
        while j < self.statements.len()
            invariant
                j <= self.statements@.len(),
                views == self.statements@.map_values(|s: BaseStatement| s@),
                out@ == mid + statements_body(views.take(j as int)),
            decreases self.statements@.len() - j,
        {
            push_statement(&mut out, &self.statements[j]);
            j = j + 1;
            assert(views.take(j as int).drop_last() =~= views.take((j - 1) as int));
            assert(out@ =~= mid + statements_body(views.take(j as int)));
        }
        assert(views.take(views.len() as int) =~= views);
        push_le(&mut out, self.epoch.0, 8);
        push_le(&mut out, signature.len() as u64, 8);
        push_all(&mut out, signature);
        assert(out@ =~= encode_fields(self@.creator, self@.round, digest@, self@.includes, self@.statements, self@.epoch, signature@));
        out
    }
}

} // verus!
