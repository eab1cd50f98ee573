//! What holds of a chain and its records at all times, as long as only blocks enter it that
//! refer to known blocks and no voter chain votes twice for one block.

use vstd::prelude::*;

use crate::block::H256;
use crate::chain::ChainState;
use crate::ledger::{elect, rebuild};
use crate::store::{at, list_at, Records};
use crate::votes::chain_votes;

verus! {

/// The proposer genesis block: the first block of level 0.
pub open spec fn genesis_of(t: Records) -> H256 {
    t.tree[0][0]
}

/// Whether a proposer block is on its level, one above its parent, which is the first block that
/// it refers to, and what it refers to is known.
pub open spec fn proposer_fits(t: Records, block: H256) -> bool {
    &&& t.proposer_level[block] > 0 ==> t.proposer_refs[block].len() > 0
        && t.proposer_level[t.proposer_refs[block][0]] == t.proposer_level[block] - 1
    &&& t.tree.contains_key(t.proposer_level[block])
    &&& t.tree[t.proposer_level[block]].contains(block)
    &&& t.transaction_refs.contains_key(block)
    &&& t.proposer_refs.contains_key(block)
    &&& forall|i: int|
        0 <= i < t.proposer_refs[block].len() ==> t.proposer_level.contains_key(
            #[trigger] t.proposer_refs[block][i],
        )
}

/// Whether a level has blocks, each once, and they are of that level.
pub open spec fn level_fits(t: Records, level: u64) -> bool {
    &&& t.tree[level].len() > 0
    &&& t.tree[level].no_duplicates()
    &&& forall|i: int|
        0 <= i < t.tree[level].len() ==> at(t.proposer_level, #[trigger] t.tree[level][i]) == Some(
            level,
        )
}

/// Whether the proposer blocks form levels without a gap, from the genesis block, which refers to
/// no block, up to the level of the best block, which is the first that was heard on that level.
pub open spec fn proposers_fit(state: ChainState, t: Records) -> bool {
    &&& t.proposer_level.dom().finite()
    &&& forall|block: H256| #[trigger]
        t.proposer_level.contains_key(block) ==> proposer_fits(t, block)
    &&& forall|level: u64| #[trigger]
        t.tree.contains_key(level) <==> level <= state.proposer_best.1
    &&& forall|level: u64| #[trigger] t.tree.contains_key(level) ==> level_fits(t, level)
    &&& t.tree[0].len() == 1
    &&& t.proposer_refs[genesis_of(t)].len() == 0
    &&& t.transaction_refs[genesis_of(t)].len() == 0
    &&& t.tree[state.proposer_best.1][0] == state.proposer_best.0
    &&& state.proposer_best.1 < u64::MAX
}

/// Whether no block is voted for twice.
pub open spec fn once(votes: Seq<(H256, u64)>) -> bool {
    forall|i: int, j: int|
        0 <= i < j < votes.len() ==> (#[trigger] votes[i]).0 != (#[trigger] votes[j]).0
}

/// The votes on the chain that ends in a voter block.
pub open spec fn votes_up_to(t: Records, block: H256) -> Seq<(H256, u64)> {
    chain_votes(t, block, t.voter_level[block])
}

/// Whether a voter block is on one of the voter chains, one level above its voter parent, votes
/// for known blocks, up to a level that exists, and no block has a second vote on its chain. The
/// genesis block of a chain has no voter parent, and votes for the proposer genesis block.
pub open spec fn voter_fits(state: ChainState, t: Records, block: H256) -> bool {
    let level = t.voter_level[block];
    let parent = t.voter_parent[block];
    &&& t.voter_chain.contains_key(block)
    &&& t.voter_chain[block] < state.voter_best.len()
    &&& level <= state.voter_best[t.voter_chain[block] as int].1
    &&& t.voted_level.contains_key(block)
    &&& t.voted_level[block] <= state.proposer_best.1
    &&& t.votes.contains_key(block)
    &&& forall|i: int|
        0 <= i < t.votes[block].len() ==> t.proposer_level.contains_key(
            #[trigger] t.votes[block][i],
        )
    &&& once(votes_up_to(t, block))
    &&& if level == 0 {
        &&& !t.voter_parent.contains_key(block)
        &&& t.votes[block] == seq![genesis_of(t)]
    } else {
        &&& t.voter_parent.contains_key(block)
        &&& t.voter_level.contains_key(parent)
        &&& t.voter_level[parent] == level - 1
        &&& t.voter_chain.contains_key(parent)
        &&& t.voter_chain[parent] == t.voter_chain[block]
    }
}

/// Whether the best block and the tip of a voter chain are on it.
pub open spec fn chain_fits(state: ChainState, t: Records, chain: int) -> bool {
    let (block, level) = state.voter_best[chain];
    let tip = state.voter_ledger_tips[chain];
    &&& at(t.voter_level, block) == Some(level)
    &&& at(t.voter_chain, block) == Some(chain as u16)
    &&& level < u64::MAX
    &&& t.voter_level.contains_key(tip)
    &&& at(t.voter_chain, tip) == Some(chain as u16)
}

/// Whether the voter blocks form chains, each with one genesis block, and no chain is longer than
/// up to its best block.
pub open spec fn voters_fit(state: ChainState, t: Records) -> bool {
    &&& state.voter_best.len() > 0
    &&& forall|block: H256| #[trigger]
        t.voter_level.contains_key(block) ==> voter_fits(state, t, block)
    &&& forall|chain: int| 0 <= chain < state.voter_best.len() ==> #[trigger] chain_fits(
        state,
        t,
        chain,
    )
    &&& forall|a: H256, b: H256|
        (#[trigger] t.voter_level.contains_key(a)) && (#[trigger] t.voter_level.contains_key(b))
            && t.voter_level[a] == 0 && t.voter_level[b] == 0 && t.voter_chain[a]
            == t.voter_chain[b] ==> a == b
}

/// Votes by the block that they are for, the number of the chain and the level that they are from.
pub type VoteSet = Set<(H256, u16, u64)>;

/// The votes that are counted: those of each voter chain up to its tip.
pub open spec fn counted_votes(state: ChainState, t: Records) -> VoteSet {
    Set::new(
        |vote: (H256, u16, u64)|
            vote.1 < state.voter_best.len() && votes_up_to(
                t,
                state.voter_ledger_tips[vote.1 as int],
            ).contains((vote.0, vote.2)),
    )
}

/// Whether the lists of votes hold exactly the given votes, each once.
pub open spec fn tallies(lists: Map<H256, Seq<(u16, u64)>>, votes: VoteSet) -> bool {
    &&& forall|block: H256| (#[trigger] list_at(lists, block)).no_duplicates()
    &&& forall|block: H256, chain: u16, level: u64|
        (#[trigger] list_at(lists, block).contains((chain, level))) <==> votes.contains(
            (block, chain, level),
        )
}

/// The leader that a level is to have: the one elected from its blocks.
pub open spec fn leader_of(t: Records, level: u64) -> Option<H256> {
    if t.tree.contains_key(level) {
        elect(t.node_votes, t.tree[level])
    } else {
        None
    }
}

/// Whether every level has the leader that it is to have.
pub open spec fn leaders_fit(t: Records) -> bool {
    forall|level: u64| #[trigger] at(t.leader, level) == leader_of(t, level)
}

/// Whether the ledger is the one that the leaders give: each of them, from level 0 up to the first
/// level without a leader, confirms what it reaches and those below it do not.
pub open spec fn ledger_fits(state: ChainState, t: Records) -> bool {
    match rebuild(t.leader, t.proposer_refs, 0, t.proposer_level.dom()) {
        Some(rebuilt) => {
            &&& rebuilt.tip == state.proposer_ledger_tip
            &&& rebuilt.unconfirmed == state.unconfirmed_proposers
            &&& forall|level: u64| #[trigger]
                t.order.contains_key(level) <==> level < rebuilt.orders.len()
            &&& forall|level: u64|
                level < rebuilt.orders.len() ==> #[trigger] t.order[level]
                    == rebuilt.orders[level as int]
        },
        None => false,
    }
}

/// Whether a set holds exactly those of some blocks that none of them refers to.
pub open spec fn holds_unreferred(
    unreferred: Set<H256>,
    blocks: Map<H256, u64>,
    refs: Map<H256, Seq<H256>>,
) -> bool {
    forall|block: H256| #[trigger]
        unreferred.contains(block) <==> blocks.contains_key(block) && forall|other: H256| #[trigger]
            blocks.contains_key(other) ==> !refs[other].contains(block)
}

/// Whether the unreferred proposer blocks are those that no proposer block refers to.
pub open spec fn unreferred_fit(state: ChainState, t: Records) -> bool {
    holds_unreferred(state.unreferred_proposers, t.proposer_level, t.proposer_refs)
}

/// Whether a chain and its records fit together.
pub open spec fn consistent(state: ChainState, t: Records) -> bool {
    &&& state.wf()
    &&& proposers_fit(state, t)
    &&& voters_fit(state, t)
    &&& tallies(t.node_votes, counted_votes(state, t))
    &&& leaders_fit(t)
    &&& ledger_fits(state, t)
    &&& unreferred_fit(state, t)
}

} // verus!
