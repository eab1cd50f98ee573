//! The chain: what it keeps in memory, how it starts, and how blocks enter it.

use vstd::prelude::*;

use crate::block::{Block, Content, Genesis, H256, NO_HASH};
use crate::change::{changes_of, Change, Op};
use crate::consistency::consistent;
use crate::insertion::{law_insert, law_insert_keeps_ledger, valid_block};
use crate::laws::{ledger_of, lemma_ledger_exists, reports_difference, transactions_in_ledger};
use crate::sets::BlockSet;
use crate::start::law_genesis;
use crate::store::{
    answers, callable, chain_under, level_under, required, settles, Column, Error, Records,
};

verus! {

/// What the chain keeps in memory.
#[verifier::ext_equal]
pub struct ChainState {
    /// The proposer block of the highest level, the first that was heard, and its level.
    pub proposer_best: (H256, u64),
    /// For each voter chain the block of the highest level, the first that was heard, and its
    /// level.
    pub voter_best: Seq<(H256, u64)>,
    /// The transaction blocks that no proposer block refers to.
    pub unreferred_transactions: Set<H256>,
    /// The proposer blocks that no proposer block refers to.
    pub unreferred_proposers: Set<H256>,
    /// The proposer blocks that are not in the ledger.
    pub unconfirmed_proposers: Set<H256>,
    /// The last level that has blocks in the ledger.
    pub proposer_ledger_tip: u64,
    /// For each voter chain the tip up to which its votes are counted.
    pub voter_ledger_tips: Seq<H256>,
}

/// The chain.
#[derive(Debug)]
pub struct BlockChain {
    pub(crate) proposer_best: (H256, u64),
    pub(crate) voter_best: Vec<(H256, u64)>,
    pub(crate) unreferred_transactions: BlockSet,
    pub(crate) unreferred_proposers: BlockSet,
    pub(crate) unconfirmed_proposers: BlockSet,
    pub(crate) proposer_ledger_tip: u64,
    pub(crate) voter_ledger_tips: Vec<H256>,
}

impl BlockChain {
    /// What the chain keeps in memory.
    pub open(crate) spec fn view(&self) -> ChainState {
        ChainState {
            proposer_best: self.proposer_best,
            voter_best: self.voter_best@,
            unreferred_transactions: self.unreferred_transactions@,
            unreferred_proposers: self.unreferred_proposers@,
            unconfirmed_proposers: self.unconfirmed_proposers@,
            proposer_ledger_tip: self.proposer_ledger_tip,
            voter_ledger_tips: self.voter_ledger_tips@,
        }
    }

    /// Whether the parts of the chain fit together: every voter chain has a best block and a tip,
    /// chain numbers fit their type, and sets are finite.
    pub open spec fn wf(&self) -> bool {
        self@.wf()
    }
}

impl ChainState {
    /// Whether the parts of the chain fit together.
    pub open spec fn wf(self) -> bool {
        &&& self.voter_best.len() == self.voter_ledger_tips.len()
        &&& self.voter_best.len() <= u16::MAX
        &&& self.unconfirmed_proposers.finite()
        &&& self.unreferred_proposers.finite()
        &&& self.unreferred_transactions.finite()
    }
}

/// A copy of a list of hashes.
pub(crate) fn copy_hashes(list: &Vec<H256>) -> (copy: Vec<H256>)
    ensures
        copy@ == list@,
{
    let mut copy: Vec<H256> = Vec::with_capacity(list.len());
    for i in 0..list.len()
        invariant
            copy@ == list@.subrange(0, i as int),
    {
        copy.push(list[i]);
        assert(copy@ =~= list@.subrange(0, i + 1));
    }
    assert(list@.subrange(0, list@.len() as int) =~= list@);
    copy
}

/// What the chain keeps in memory when it starts.
pub open spec fn genesis_state(proposer: H256, voters: Seq<H256>) -> ChainState {
    ChainState {
        proposer_best: (proposer, 0),
        voter_best: voters.map_values(|voter: H256| (voter, 0u64)),
        unreferred_transactions: Set::empty(),
        unreferred_proposers: set![proposer],
        unconfirmed_proposers: Set::empty(),
        proposer_ledger_tip: 0,
        voter_ledger_tips: voters,
    }
}

/// The records of the proposer genesis block.
pub open spec fn proposer_genesis_changes(proposer: H256) -> Seq<Change> {
    seq![
        Change::ProposerLevel(proposer, 0),
        Change::TreeBlock(0, proposer),
        Change::Leader(0, proposer),
        Change::Order(0, seq![proposer]),
        Change::ProposerRefs(proposer, Seq::empty()),
        Change::TransactionRefs(proposer, Seq::empty()),
    ]
}

/// The records of the genesis block of one voter chain: it votes for the proposer genesis block.
pub open spec fn voter_genesis_changes(proposer: H256, voter: H256, chain: u16) -> Seq<Change> {
    seq![
        Change::Parent(voter, proposer),
        Change::OneMoreVote(voter, proposer),
        Change::NodeVote(proposer, true, chain, 0),
        Change::VoterLevel(voter, 0),
        Change::VotedLevel(voter, 0),
        Change::VoterChain(voter, chain),
    ]
}

/// The records of the proposer genesis block and of the first `n` voter chains.
pub open spec fn genesis_changes(proposer: H256, voters: Seq<H256>, n: nat) -> Seq<Change>
    decreases n,
{
    if n == 0 {
        proposer_genesis_changes(proposer)
    } else {
        genesis_changes(proposer, voters, (n - 1) as nat) + voter_genesis_changes(
            proposer,
            voters[n - 1],
            (n - 1) as u16,
        )
    }
}

/// The chain and the records after a proposer block: its level is one above its parent's, and the
/// blocks that it refers to, its parent first, are no longer unreferred.
pub open spec fn insert_proposer(
    state: ChainState,
    t: Records,
    block: H256,
    parent: H256,
    transaction_refs: Seq<H256>,
    proposer_refs: Seq<H256>,
) -> Option<(ChainState, Seq<Change>)> {
    if t.proposer_level.contains_key(parent) && t.proposer_level[parent] < u64::MAX {
        let level = (t.proposer_level[parent] + 1) as u64;
        Some(
            (
                ChainState {
                    unreferred_proposers: state.unreferred_proposers.difference(
                        proposer_refs.to_set(),
                    ).remove(parent).insert(block),
                    unreferred_transactions: state.unreferred_transactions.difference(
                        transaction_refs.to_set(),
                    ),
                    proposer_best: if level > state.proposer_best.1 {
                        (block, level)
                    } else {
                        state.proposer_best
                    },
                    unconfirmed_proposers: state.unconfirmed_proposers.insert(block),
                    ..state
                },
                seq![
                    Change::Parent(block, parent),
                    Change::ProposerRefs(block, seq![parent] + proposer_refs),
                    Change::TransactionRefs(block, transaction_refs),
                    Change::ProposerLevel(block, level),
                    Change::TreeBlock(level, block),
                ],
            ),
        )
    } else {
        None
    }
}

/// The chain and the records after a voter block: it is on its voter parent's chain, one level
/// above it, and counts as having voted up to the level of its proposer parent.
pub open spec fn insert_voter(
    state: ChainState,
    t: Records,
    block: H256,
    parent: H256,
    voter_parent: H256,
    votes: Seq<H256>,
) -> Option<(ChainState, Seq<Change>)> {
    if t.voter_level.contains_key(voter_parent) && t.voter_chain.contains_key(voter_parent)
        && t.voter_level[voter_parent] < u64::MAX && t.proposer_level.contains_key(parent)
        && t.voter_chain[voter_parent] < state.voter_best.len() {
        let level = (t.voter_level[voter_parent] + 1) as u64;
        let chain = t.voter_chain[voter_parent];
        Some(
            (
                ChainState {
                    voter_best: if level > state.voter_best[chain as int].1 {
                        state.voter_best.update(chain as int, (block, level))
                    } else {
                        state.voter_best
                    },
                    ..state
                },
                seq![
                    Change::Parent(block, parent),
                    Change::VoterParent(block, voter_parent),
                    Change::VoterLevel(block, level),
                    Change::VoterChain(block, chain),
                    Change::Votes(block, votes),
                    Change::VotedLevel(block, t.proposer_level[parent]),
                ],
            ),
        )
    } else {
        None
    }
}

/// The chain and the changes to the records after a block is inserted, if its parents are known
/// and its level is in range.
pub open spec fn insert(state: ChainState, t: Records, block: Block) -> Option<
    (ChainState, Seq<Change>),
> {
    match block.content {
        Content::Proposer(content) => insert_proposer(
            state,
            t,
            block.hash,
            block.parent,
            content.transaction_refs@,
            content.proposer_refs@,
        ),
        Content::Voter(content) => insert_voter(
            state,
            t,
            block.hash,
            block.parent,
            content.voter_parent,
            content.votes@,
        ),
        Content::Transaction => Some(
            (
                ChainState {
                    unreferred_transactions: state.unreferred_transactions.insert(block.hash),
                    ..state
                },
                seq![Change::Parent(block.hash, block.parent)],
            ),
        ),
    }
}

/// Whether the blocks are known that a block is mined on.
pub open spec fn parents_known(t: Records, block: Block) -> bool {
    match block.content {
        Content::Proposer(_) => t.proposer_level.contains_key(block.parent),
        Content::Voter(content) => t.proposer_level.contains_key(block.parent)
            && t.voter_level.contains_key(content.voter_parent),
        Content::Transaction => true,
    }
}

/// What the insertion of a block did, for the caller to commit and to pass on.
#[derive(Debug)]
pub struct Insertion {
    /// The changes to the records, to be committed together.
    pub ops: Vec<Op>,
    /// The transaction blocks that entered the ledger.
    pub added: Vec<H256>,
    /// The transaction blocks that left the ledger.
    pub removed: Vec<H256>,
}

/// A result of inserting a block, together with the chain after it.
pub open spec fn inserted<E>(result: Result<Insertion, Error<E>>, state: ChainState) -> Result<
    (ChainState, Seq<Change>),
    Error<E>,
> {
    match result {
        Ok(done) => Ok((state, changes_of(done.ops@))),
        Err(error) => Err(error),
    }
}

impl BlockChain {
    /// A chain without blocks, for the given number of voter chains.
    fn open(chains: u16) -> (chain: BlockChain)
        ensures
            chain.wf(),
            chain@ == (ChainState {
                proposer_best: (NO_HASH, 0),
                voter_best: Seq::new(chains as nat, |i: int| (NO_HASH, 0u64)),
                unreferred_transactions: Set::empty(),
                unreferred_proposers: Set::empty(),
                unconfirmed_proposers: Set::empty(),
                proposer_ledger_tip: 0,
                voter_ledger_tips: Seq::new(chains as nat, |i: int| NO_HASH),
            }),
    {
        let mut voter_best: Vec<(H256, u64)> = Vec::new();
        let mut voter_ledger_tips: Vec<H256> = Vec::new();
        for i in 0..chains
            invariant
                voter_best@ =~= Seq::new(i as nat, |i: int| (NO_HASH, 0u64)),
                voter_ledger_tips@ =~= Seq::new(i as nat, |i: int| NO_HASH),
        {
            voter_best.push((NO_HASH, 0));
            voter_ledger_tips.push(NO_HASH);
        }
        BlockChain {
            proposer_best: (NO_HASH, 0),
            voter_best,
            unreferred_transactions: BlockSet::new(),
            unreferred_proposers: BlockSet::new(),
            unconfirmed_proposers: BlockSet::new(),
            proposer_ledger_tip: 0,
            voter_ledger_tips,
        }
    }

    /// A chain that holds the genesis blocks, and the records to write to an empty database. It
    /// is consistent if there is a voter chain, and no two of them have the same genesis block.
    pub fn new(genesis: &Genesis) -> (result: (BlockChain, Vec<Op>))
        requires
            genesis.voters@.len() <= u16::MAX,
        ensures
            result.0.wf(),
            result.0@ == genesis_state(genesis.proposer, genesis.voters@),
            changes_of(result.1@) == genesis_changes(
                genesis.proposer,
                genesis.voters@,
                genesis.voters@.len(),
            ),
            genesis.voters@.len() > 0 && genesis.voters@.no_duplicates() ==> consistent(
                result.0@,
                Records::empty().apply_all(changes_of(result.1@)),
            ),
    {
        let proposer = genesis.proposer;
        let chains: u16 = genesis.voters.len() as u16;
        let mut chain = BlockChain::open(chains);
        let mut ops: Vec<Op> = Vec::new();
        let mut ledger: Vec<H256> = Vec::new();
        ledger.push(proposer);
        assert(ledger@ =~= seq![proposer]);

        ops.push(Op::ProposerLevel(proposer, 0));
        ops.push(Op::TreeBlock(0, proposer));
        chain.proposer_best.0 = proposer;
        chain.unreferred_proposers.insert(proposer);
        ops.push(Op::Leader(0, proposer));
        ops.push(Op::Order(0, ledger));
        ops.push(Op::ProposerRefs(proposer, Vec::new()));
        ops.push(Op::TransactionRefs(proposer, Vec::new()));
        assert(changes_of(ops@) =~= proposer_genesis_changes(proposer));

        let ghost voters = genesis.voters@;
        for i in 0..chains
            invariant
                voters == genesis.voters@,
                chains == voters.len(),
                proposer == genesis.proposer,
                changes_of(ops@) == genesis_changes(proposer, voters, i as nat),
                chain.voter_best@.len() == chains,
                chain.voter_ledger_tips@.len() == chains,
                forall|j: int| 0 <= j < chains ==> chain.voter_best@[j].1 == 0,
                forall|j: int| 0 <= j < i ==> chain.voter_best@[j].0 == voters[j],
                forall|j: int| 0 <= j < i ==> chain.voter_ledger_tips@[j] == voters[j],
                chain.proposer_best == (proposer, 0u64),
                chain.unreferred_transactions@ == Set::<H256>::empty(),
                chain.unreferred_proposers@ == set![proposer],
                chain.unconfirmed_proposers@ == Set::<H256>::empty(),
                chain.proposer_ledger_tip == 0,
        {
            let voter = genesis.voters[i as usize];
            let ghost before = ops@;
            ops.push(Op::Parent(voter, proposer));
            ops.push(Op::OneMoreVote(voter, proposer));
            ops.push(Op::NodeVote(proposer, true, i, 0));
            ops.push(Op::VoterLevel(voter, 0));
            ops.push(Op::VotedLevel(voter, 0));
            ops.push(Op::VoterChain(voter, i));
            chain.voter_best[i as usize].0 = voter;
            chain.voter_ledger_tips[i as usize] = voter;
            assert(changes_of(ops@) =~= changes_of(before) + voter_genesis_changes(
                proposer,
                voters[i as int],
                i,
            ));
        }
        assert(chain@.voter_best =~= genesis_state(proposer, voters).voter_best);
        assert(chain@.voter_ledger_tips =~= voters);
        assert(chain@ =~= genesis_state(proposer, voters));
        proof {
            if voters.len() > 0 && voters.no_duplicates() {
                law_genesis(proposer, voters);
            }
        }
        (chain, ops)
    }

    /// Inserts a block, whose parents are known. Gives back the changes to the records, to be
    /// committed by the caller, and the transaction blocks that enter and leave the ledger: none,
    /// since the ledger changes with the next update only. Nothing changes on an error. A valid
    /// block leaves a consistent chain consistent, and only a read can fail on it.
    pub fn insert_block<R, E>(&mut self, read: &R, block: &Block) -> (result: Result<
        Insertion,
        Error<E>,
    >) where R: Fn(Column, Vec<u8>) -> Result<Option<Vec<u8>>, E>
        requires
            old(self).wf(),
            callable(*read),
            forall|t: Records| #[trigger] answers(*read, t) ==> parents_known(t, *block),
        ensures
            final(self).wf(),
            result is Err ==> final(self)@ == old(self)@,
            forall|t: Records| #[trigger]
                answers(*read, t) ==> settles(
                    *read,
                    inserted(result, final(self)@),
                    insert(old(self)@, t, *block),
                ),
            forall|t: Records| #[trigger]
                answers(*read, t) ==> (result matches Ok(done) ==> insert(old(self)@, t, *block)
                    matches Some((now, changes)) && final(self)@ == now && done.ops@.len()
                    == changes.len() && forall|i: int|
                    0 <= i < changes.len() ==> #[trigger] done.ops@[i]@ == changes[i]),
            block.content is Transaction ==> result is Ok,
            result matches Ok(done) ==> done.added@ == Seq::<H256>::empty() && done.removed@
                == Seq::<H256>::empty(),
            forall|t: Records| #[trigger]
                answers(*read, t) && consistent(old(self)@, t) && valid_block(t, *block)
                    ==> match result {
                    Ok(done) => {
                        let after = t.apply_all(changes_of(done.ops@));
                        &&& consistent(final(self)@, after)
                        &&& reports_difference(
                            transactions_in_ledger(old(self)@, t),
                            transactions_in_ledger(final(self)@, after),
                            done.added@,
                            done.removed@,
                        )
                    },
                    Err(error) => error is Read,
                },
    {
        let added: Vec<H256> = Vec::new();
        let removed: Vec<H256> = Vec::new();
        assert forall|t: Records| #[trigger] answers(*read, t) && consistent(self@, t)
            && valid_block(t, *block) implies insert(self@, t, *block) matches Some((now, changes))
            && consistent(now, t.apply_all(changes)) && reports_difference(
            transactions_in_ledger(self@, t),
            transactions_in_ledger(now, t.apply_all(changes)),
            added@,
            removed@,
        ) by {
            law_insert(self@, t, *block);
            lemma_ledger_exists(self@, t);
            if block.content is Proposer && ledger_of(self@, t).contains(block.hash) {
                assert(ledger_of(self@, t).to_set().contains(block.hash));
                assert(t.proposer_level.contains_key(block.hash));
            }
            law_insert_keeps_ledger(self@, t, *block);
            let kept = transactions_in_ledger(self@, t);
            assert(kept =~= kept + added@);
            assert(kept =~= kept + removed@);
        }
        let hash = block.hash;
        let parent = block.parent;
        let mut ops: Vec<Op> = Vec::new();
        ops.push(Op::Parent(hash, parent));
        match &block.content {
            Content::Proposer(content) => {
                // the parent is the first proposer block that the block refers to
                let mut refs: Vec<H256> = Vec::new();
                refs.push(parent);
                for i in 0..content.proposer_refs.len()
                    invariant
                        refs@ =~= seq![parent] + content.proposer_refs@.subrange(0, i as int),
                {
                    refs.push(content.proposer_refs[i]);
                }
                assert(refs@ =~= seq![parent] + content.proposer_refs@);
                ops.push(Op::ProposerRefs(hash, refs));
                ops.push(Op::TransactionRefs(hash, copy_hashes(&content.transaction_refs)));
                let parent_level = match required(
                    level_under(read, Column::ProposerNodeLevel, parent),
                ) {
                    Ok(level) => level,
                    Err(error) => {
                        return Err(error);
                    },
                };
                if parent_level == u64::MAX {
                    return Err(Error::Inconsistent);
                }
                let level: u64 = parent_level + 1;
                ops.push(Op::ProposerLevel(hash, level));
                ops.push(Op::TreeBlock(level, hash));

                // the blocks referred to are no longer unreferred, the new block is
                self.unreferred_proposers.remove_all(&content.proposer_refs);
                self.unreferred_proposers.remove(parent);
                self.unreferred_proposers.insert(hash);
                self.unreferred_transactions.remove_all(&content.transaction_refs);
                if level > self.proposer_best.1 {
                    self.proposer_best = (hash, level);
                }
                self.unconfirmed_proposers.insert(hash);
                assert forall|t: Records| #[trigger] answers(*read, t) implies insert(
                    old(self)@,
                    t,
                    *block,
                ) == Some((self@, changes_of(ops@))) by {
                    let want = insert(old(self)@, t, *block).unwrap();
                    assert(changes_of(ops@) =~= want.1);
                    assert(self@ =~= want.0);
                }
            },
            Content::Voter(content) => {
                let voter_parent = content.voter_parent;
                ops.push(Op::VoterParent(hash, voter_parent));
                let voter_parent_level = match required(
                    level_under(read, Column::VoterNodeLevel, voter_parent),
                ) {
                    Ok(level) => level,
                    Err(error) => {
                        return Err(error);
                    },
                };
                let chain = match required(chain_under(read, voter_parent)) {
                    Ok(chain) => chain,
                    Err(error) => {
                        return Err(error);
                    },
                };
                if voter_parent_level == u64::MAX {
                    return Err(Error::Inconsistent);
                }
                let level: u64 = voter_parent_level + 1;
                ops.push(Op::VoterLevel(hash, level));
                ops.push(Op::VoterChain(hash, chain));
                ops.push(Op::Votes(hash, copy_hashes(&content.votes)));
                // the block counts as having voted up to its proposer parent
                let voted_level = match required(
                    level_under(read, Column::ProposerNodeLevel, parent),
                ) {
                    Ok(level) => level,
                    Err(error) => {
                        return Err(error);
                    },
                };
                ops.push(Op::VotedLevel(hash, voted_level));
                if chain as usize >= self.voter_best.len() {
                    return Err(Error::Inconsistent);
                }
                if level > self.voter_best[chain as usize].1 {
                    self.voter_best[chain as usize] = (hash, level);
                }
                assert forall|t: Records| #[trigger] answers(*read, t) implies insert(
                    old(self)@,
                    t,
                    *block,
                ) == Some((self@, changes_of(ops@))) by {
                    let want = insert(old(self)@, t, *block).unwrap();
                    assert(changes_of(ops@) =~= want.1);
                    assert(self@ =~= want.0);
                }
            },
            Content::Transaction => {
                self.unreferred_transactions.insert(hash);
                assert forall|t: Records| #[trigger] answers(*read, t) implies insert(
                    old(self)@,
                    t,
                    *block,
                ) == Some((self@, changes_of(ops@))) by {
                    let want = insert(old(self)@, t, *block).unwrap();
                    assert(changes_of(ops@) =~= want.1);
                    assert(self@ =~= want.0);
                }
            },
        }
        Ok(Insertion { ops, added, removed })
    }
}

} // verus!
