//! Blocks as the chain sees them: what it is linked by, and nothing of the payload.

use vstd::prelude::*;

verus! {

/// A block hash, as its two halves of 128 bits, each read with the least significant byte first.
/// Pairs of integers have an equality and an order that the verifier knows, so hashes can be
/// compared, and kept in ordered sets, without further assumptions.
pub type H256 = (u128, u128);

/// The hash of which every byte is zero: it stands for "no block".
pub const NO_HASH: H256 = (0u128, 0u128);

/// Whether two hashes are the same.
pub fn same_hash(a: H256, b: H256) -> (same: bool)
    ensures
        same == (a == b),
{
    a.0 == b.0 && a.1 == b.1
}

/// What a proposer block refers to.
#[derive(Debug)]
pub struct ProposerContent {
    pub transaction_refs: Vec<H256>,
    pub proposer_refs: Vec<H256>,
}

/// The place of a voter block on its chain, and its votes.
#[derive(Debug)]
pub struct VoterContent {
    pub voter_parent: H256,
    pub votes: Vec<H256>,
}

/// The part of a block that differs between the three kinds of block.
#[derive(Debug)]
pub enum Content {
    Proposer(ProposerContent),
    Voter(VoterContent),
    Transaction,
}

/// A block: its hash, the proposer block that it was mined on, and its content.
#[derive(Debug)]
pub struct Block {
    pub hash: H256,
    pub parent: H256,
    pub content: Content,
}

/// The blocks that every chain starts with.
#[derive(Debug)]
pub struct Genesis {
    pub proposer: H256,
    pub voters: Vec<H256>,
}

} // verus!
