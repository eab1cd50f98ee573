//! Blocks that enter the chain keep it consistent.

use vstd::prelude::*;

use crate::block::{Block, Content, H256};
use crate::chain::{insert, insert_proposer, insert_voter, ChainState};
use crate::change::Change;
use crate::consistency::{
    chain_fits, consistent, counted_votes, genesis_of, leader_of, leaders_fit, ledger_fits,
    level_fits, once, proposer_fits, proposers_fit, tallies, unreferred_fit, voter_fits, voters_fit,
    votes_up_to,
};
use crate::election::law_leader_has_most_votes;
use crate::laws::{ledger_of, transactions_in_ledger};
use crate::ledger::{elect, front_runner, ledger_between, rebuild, transactions_of, traverse};
use crate::merge::with_hash;
use crate::ordering::lemma_traverse;
use crate::store::{at, list_at, Records};
use crate::votes::{chain_votes, lemma_chain_votes_alone, stamped};

verus! {

/// Whether a proposer block is new, and what it refers to is known.
pub open spec fn valid_proposer(t: Records, block: H256, parent: H256, refs: Seq<H256>) -> bool {
    &&& !t.proposer_level.contains_key(block)
    &&& t.proposer_level.contains_key(parent)
    &&& t.proposer_level[parent] + 1 < u64::MAX
    &&& forall|i: int| 0 <= i < refs.len() ==> t.proposer_level.contains_key(#[trigger] refs[i])
}

/// Whether a voter block is new, its parents are known, and it votes for known blocks, each once
/// and none that its chain votes for already.
pub open spec fn valid_voter(
    t: Records,
    block: H256,
    parent: H256,
    voter_parent: H256,
    votes: Seq<H256>,
) -> bool {
    &&& !t.voter_level.contains_key(block)
    &&& t.proposer_level.contains_key(parent)
    &&& t.voter_level.contains_key(voter_parent)
    &&& t.voter_level[voter_parent] + 1 < u64::MAX
    &&& forall|i: int| 0 <= i < votes.len() ==> t.proposer_level.contains_key(#[trigger] votes[i])
    &&& once(
        stamped(votes, (t.voter_level[voter_parent] + 1) as u64) + votes_up_to(t, voter_parent),
    )
}

/// Whether a block is new, refers to known blocks, and does not vote for a block twice. Levels
/// stay below the highest number.
pub open spec fn valid_block(t: Records, block: Block) -> bool {
    match block.content {
        Content::Proposer(content) => valid_proposer(
            t,
            block.hash,
            block.parent,
            content.proposer_refs@,
        ),
        Content::Voter(content) => valid_voter(
            t,
            block.hash,
            block.parent,
            content.voter_parent,
            content.votes@,
        ),
        Content::Transaction => true,
    }
}

/// The records after a proposer block.
pub open spec fn with_proposer(
    t: Records,
    block: H256,
    parent: H256,
    level: u64,
    transaction_refs: Seq<H256>,
    refs: Seq<H256>,
) -> Records {
    Records {
        parent: t.parent.insert(block, parent),
        proposer_refs: t.proposer_refs.insert(block, refs),
        transaction_refs: t.transaction_refs.insert(block, transaction_refs),
        proposer_level: t.proposer_level.insert(block, level),
        tree: t.tree.insert(level, with_hash(list_at(t.tree, level), block)),
        ..t
    }
}

pub(crate) proof fn lemma_proposer_changes(
    t: Records,
    block: H256,
    parent: H256,
    level: u64,
    transaction_refs: Seq<H256>,
    refs: Seq<H256>,
)
    ensures
        t.apply_all(
            seq![
                Change::Parent(block, parent),
                Change::ProposerRefs(block, refs),
                Change::TransactionRefs(block, transaction_refs),
                Change::ProposerLevel(block, level),
                Change::TreeBlock(level, block),
            ],
        ) == with_proposer(t, block, parent, level, transaction_refs, refs),
{
    reveal_with_fuel(Records::apply_all, 6);
    let changes = seq![
        Change::Parent(block, parent),
        Change::ProposerRefs(block, refs),
        Change::TransactionRefs(block, transaction_refs),
        Change::ProposerLevel(block, level),
        Change::TreeBlock(level, block),
    ];
    let c4 = changes.drop_last();
    let c3 = c4.drop_last();
    let c2 = c3.drop_last();
    let c1 = c2.drop_last();
    assert(c1.drop_last().len() == 0);
}

/// The records after a voter block.
pub open spec fn with_voter(
    t: Records,
    block: H256,
    parent: H256,
    voter_parent: H256,
    level: u64,
    chain: u16,
    votes: Seq<H256>,
    voted: u64,
) -> Records {
    Records {
        parent: t.parent.insert(block, parent),
        voter_parent: t.voter_parent.insert(block, voter_parent),
        voter_level: t.voter_level.insert(block, level),
        voter_chain: t.voter_chain.insert(block, chain),
        votes: t.votes.insert(block, votes),
        voted_level: t.voted_level.insert(block, voted),
        ..t
    }
}

pub(crate) proof fn lemma_voter_changes(
    t: Records,
    block: H256,
    parent: H256,
    voter_parent: H256,
    level: u64,
    chain: u16,
    votes: Seq<H256>,
    voted: u64,
)
    ensures
        t.apply_all(
            seq![
                Change::Parent(block, parent),
                Change::VoterParent(block, voter_parent),
                Change::VoterLevel(block, level),
                Change::VoterChain(block, chain),
                Change::Votes(block, votes),
                Change::VotedLevel(block, voted),
            ],
        ) == with_voter(t, block, parent, voter_parent, level, chain, votes, voted),
{
    reveal_with_fuel(Records::apply_all, 7);
    let changes = seq![
        Change::Parent(block, parent),
        Change::VoterParent(block, voter_parent),
        Change::VoterLevel(block, level),
        Change::VoterChain(block, chain),
        Change::Votes(block, votes),
        Change::VotedLevel(block, voted),
    ];
    let c5 = changes.drop_last();
    let c4 = c5.drop_last();
    let c3 = c4.drop_last();
    let c2 = c3.drop_last();
    let c1 = c2.drop_last();
    assert(c1.drop_last().len() == 0);
}

/// A block that nothing on the stack or in the set refers to is not found by a traversal.
proof fn lemma_traverse_more(
    refs: Map<H256, Seq<H256>>,
    more_refs: Map<H256, Seq<H256>>,
    stack: Seq<H256>,
    unconfirmed: Set<H256>,
    block: H256,
)
    requires
        unconfirmed.finite(),
        !unconfirmed.contains(block),
        forall|i: int| 0 <= i < stack.len() ==> #[trigger] stack[i] != block,
        forall|other: H256| #[trigger]
            unconfirmed.contains(other) ==> refs.contains_key(other) && more_refs.contains_key(
                other,
            ) && more_refs[other] == refs[other] && !refs[other].contains(block),
    ensures
        traverse(more_refs, stack, unconfirmed.insert(block)) == match traverse(
            refs,
            stack,
            unconfirmed,
        ) {
            Some((blocks, rest)) => Some((blocks, rest.insert(block))),
            None => None,
        },
    decreases unconfirmed.len(), stack.len(),
{
    if stack.len() > 0 {
        let top = stack.last();
        assert(stack[stack.len() - 1] != block);
        let below = stack.drop_last();
        if !unconfirmed.contains(top) {
            assert forall|i: int| 0 <= i < below.len() implies #[trigger] below[i] != block by {
                assert(stack[i] != block);
            }
            lemma_traverse_more(refs, more_refs, below, unconfirmed, block);
        } else {
            let next = below + refs[top];
            assert forall|i: int| 0 <= i < next.len() implies #[trigger] next[i] != block by {
                if i < below.len() {
                    assert(stack[i] != block);
                } else {
                    assert(refs[top].contains(refs[top][i - below.len()]));
                }
            }
            assert(unconfirmed.insert(block).remove(top) =~= unconfirmed.remove(top).insert(
                block,
            ));
            lemma_traverse_more(refs, more_refs, next, unconfirmed.remove(top), block);
        }
    }
}

/// A block that no other block refers to, and that leads no level, does not enter the ledger.
pub(crate) proof fn lemma_rebuild_more(
    leader: Map<u64, H256>,
    refs: Map<H256, Seq<H256>>,
    more_refs: Map<H256, Seq<H256>>,
    level: u64,
    unconfirmed: Set<H256>,
    block: H256,
)
    requires
        unconfirmed.finite(),
        !unconfirmed.contains(block),
        forall|l: u64| #[trigger] leader.contains_key(l) ==> leader[l] != block,
        forall|other: H256| #[trigger]
            unconfirmed.contains(other) ==> refs.contains_key(other) && more_refs.contains_key(
                other,
            ) && more_refs[other] == refs[other] && !refs[other].contains(block),
    ensures
        match (
            rebuild(leader, refs, level, unconfirmed),
            rebuild(leader, more_refs, level, unconfirmed.insert(block)),
        ) {
            (Some(a), Some(b)) => b.orders == a.orders && b.tip == a.tip && b.unconfirmed
                == a.unconfirmed.insert(block),
            (None, None) => true,
            _ => false,
        },
    decreases u64::MAX - level,
{
    if leader.contains_key(level) {
        let stack = seq![leader[level]];
        lemma_traverse_more(refs, more_refs, stack, unconfirmed, block);
        if let Some((found, rest)) = traverse(refs, stack, unconfirmed) {
            if level < u64::MAX {
                lemma_traverse(refs, stack, unconfirmed);
                lemma_rebuild_more(leader, refs, more_refs, (level + 1) as u64, rest, block);
            }
        }
    }
}

/// The votes on a chain are for known blocks.
pub(crate) proof fn lemma_votes_known(state: ChainState, t: Records, block: H256, vote: (H256, u64))
    requires
        voters_fit(state, t),
        t.voter_level.contains_key(block),
        votes_up_to(t, block).contains(vote),
    ensures
        t.proposer_level.contains_key(vote.0),
    decreases t.voter_level[block],
{
    let level = t.voter_level[block];
    let all = votes_up_to(t, block);
    assert(voter_fits(state, t, block));
    let i = choose|i: int| 0 <= i < all.len() && all[i] == vote;
    let here = t.votes[block];
    if i < here.len() {
        assert(all[i].0 == here[i]);
    } else {
        let parent = t.voter_parent[block];
        let below = votes_up_to(t, parent);
        assert(below[i - here.len()] == vote);
        lemma_votes_known(state, t, parent, vote);
    }
}

/// A block that is not known has no votes.
proof fn lemma_no_votes(state: ChainState, t: Records, block: H256)
    requires
        voters_fit(state, t),
        tallies(t.node_votes, counted_votes(state, t)),
        !t.proposer_level.contains_key(block),
    ensures
        list_at(t.node_votes, block).len() == 0,
{
    let list = list_at(t.node_votes, block);
    if list.len() > 0 {
        let (chain, level) = list[0];
        assert(list.contains((chain, level)));
        assert(counted_votes(state, t).contains((block, chain, level)));
        assert(chain_fits(state, t, chain as int));
        lemma_votes_known(state, t, state.voter_ledger_tips[chain as int], (block, level));
    }
}

proof fn lemma_front_runner_prefix(
    votes: Map<H256, Seq<(u16, u64)>>,
    blocks: Seq<H256>,
    block: H256,
    n: nat,
)
    requires
        n <= blocks.len(),
    ensures
        front_runner(votes, blocks.push(block), n) == front_runner(votes, blocks, n),
    decreases n,
{
    if n > 0 {
        lemma_front_runner_prefix(votes, blocks, block, (n - 1) as nat);
        assert(blocks.push(block)[n - 1] == blocks[n - 1]);
    }
}

/// A block without votes does not change who leads.
proof fn lemma_elect_more(votes: Map<H256, Seq<(u16, u64)>>, blocks: Seq<H256>, block: H256)
    requires
        list_at(votes, block).len() == 0,
    ensures
        elect(votes, blocks.push(block)) == elect(votes, blocks),
{
    lemma_front_runner_prefix(votes, blocks, block, blocks.len());
    assert(blocks.push(block)[blocks.len() as int] == block);
}

/// The leaders are known blocks.
pub(crate) proof fn lemma_leaders_known(state: ChainState, t: Records, level: u64)
    requires
        proposers_fit(state, t),
        leaders_fit(t),
        t.leader.contains_key(level),
    ensures
        t.proposer_level.contains_key(t.leader[level]),
{
    assert(at(t.leader, level) == leader_of(t, level));
    law_leader_has_most_votes(t.node_votes, t.tree[level]);
    assert(level_fits(t, level));
    let i = choose|i: int|
        crate::election::leads_at(t.node_votes, t.tree[level], t.tree[level].len(), i)
            && t.tree[level][i] == t.leader[level];
    assert(at(t.proposer_level, t.tree[level][i]) == Some(level));
}

/// The proposer blocks still fit after one more.
proof fn lemma_proposer_fits(
    state: ChainState,
    t: Records,
    block: H256,
    parent: H256,
    transaction_refs: Seq<H256>,
    refs: Seq<H256>,
)
    requires
        consistent(state, t),
        valid_proposer(t, block, parent, refs),
    ensures
        ({
            let level = (t.proposer_level[parent] + 1) as u64;
            let all_refs = seq![parent] + refs;
            let after = with_proposer(t, block, parent, level, transaction_refs, all_refs);
            let best = if level > state.proposer_best.1 {
                (block, level)
            } else {
                state.proposer_best
            };
            &&& level <= state.proposer_best.1 + 1
            &&& level > 0
            &&& after.tree[level] == list_at(t.tree, level).push(block)
            &&& proposers_fit(ChainState { proposer_best: best, ..state }, after)
        }),
{
    let level = (t.proposer_level[parent] + 1) as u64;
    let all_refs = seq![parent] + refs;
    let after = with_proposer(t, block, parent, level, transaction_refs, all_refs);
    let best = if level > state.proposer_best.1 {
        (block, level)
    } else {
        state.proposer_best
    };
    let now = ChainState { proposer_best: best, ..state };
    assert(proposer_fits(t, parent));
    assert(t.tree.contains_key(t.proposer_level[parent]));
    let list = list_at(t.tree, level);
    assert(!list.contains(block)) by {
        if list.contains(block) {
            let i = choose|i: int| 0 <= i < list.len() && list[i] == block;
            assert(level_fits(t, level));
            assert(at(t.proposer_level, t.tree[level][i]) == Some(level));
        }
    }
    assert(after.tree[level] == list.push(block));
    assert forall|b: H256| #[trigger] after.proposer_level.contains_key(b) implies proposer_fits(
        after,
        b,
    ) by {
        let at_level = after.tree[after.proposer_level[b]];
        if b == block {
            assert(at_level[list.len() as int] == block);
            assert forall|i: int|
                0 <= i < all_refs.len() implies after.proposer_level.contains_key(
                #[trigger] all_refs[i],
            ) by {
                if i > 0 {
                    assert(all_refs[i] == refs[i - 1]);
                }
            }
        } else {
            assert(t.proposer_level.contains_key(b));
            assert(proposer_fits(t, b));
            let before = t.tree[t.proposer_level[b]];
            let i = choose|i: int| 0 <= i < before.len() && before[i] == b;
            assert(at_level[i] == b);
            assert forall|i: int|
                0 <= i < after.proposer_refs[b].len() implies after.proposer_level.contains_key(
                #[trigger] after.proposer_refs[b][i],
            ) by {
                assert(t.proposer_level.contains_key(t.proposer_refs[b][i]));
            }
        }
    }
    assert forall|l: u64| #[trigger] after.tree.contains_key(l) <==> l <= best.1 by {
        assert(t.tree.contains_key(l) <==> l <= state.proposer_best.1);
    }
    assert forall|l: u64| #[trigger] after.tree.contains_key(l) implies level_fits(after, l) by {
        if l != level {
            assert(t.tree.contains_key(l));
        }
        assert(t.tree.contains_key(l) ==> level_fits(t, l));
        let blocks = after.tree[l];
        if l == level {
            assert forall|i: int, j: int| 0 <= i < j < blocks.len() implies blocks[i]
                != blocks[j] by {
                if j == list.len() {
                    assert(list.contains(list[i]));
                }
            }
        }
        assert forall|i: int| 0 <= i < blocks.len() implies at(
            after.proposer_level,
            #[trigger] after.tree[l][i],
        ) == Some(l) by {
            if l != level || i < list.len() {
                assert(at(t.proposer_level, t.tree[l][i]) == Some(l));
            }
        }
    }
    assert(t.tree.contains_key(0));
    assert(after.tree[0] == t.tree[0]);
    if level == best.1 && level <= state.proposer_best.1 {
        assert(t.tree.contains_key(level));
        assert(level_fits(t, level));
    }
}

/// The unreferred proposer blocks are still those that no block refers to.
proof fn lemma_unreferred_fit(
    state: ChainState,
    t: Records,
    block: H256,
    parent: H256,
    transaction_refs: Seq<H256>,
    refs: Seq<H256>,
)
    requires
        consistent(state, t),
        valid_proposer(t, block, parent, refs),
    ensures
        ({
            let level = (t.proposer_level[parent] + 1) as u64;
            let after = with_proposer(
                t,
                block,
                parent,
                level,
                transaction_refs,
                seq![parent] + refs,
            );
            unreferred_fit(
                ChainState {
                    unreferred_proposers: state.unreferred_proposers.difference(
                        refs.to_set(),
                    ).remove(parent).insert(block),
                    ..state
                },
                after,
            )
        }),
{
    let level = (t.proposer_level[parent] + 1) as u64;
    let all_refs = seq![parent] + refs;
    let after = with_proposer(t, block, parent, level, transaction_refs, all_refs);
    let unreferred = state.unreferred_proposers.difference(refs.to_set()).remove(parent).insert(
        block,
    );
    assert forall|b: H256| all_refs.contains(b) <==> b == parent || refs.contains(b) by {
        if refs.contains(b) {
            let i = choose|i: int| 0 <= i < refs.len() && refs[i] == b;
            assert(all_refs[i + 1] == b);
        }
        if all_refs.contains(b) {
            let i = choose|i: int| 0 <= i < all_refs.len() && all_refs[i] == b;
            if i > 0 {
                assert(refs[i - 1] == b);
            }
        }
        assert(all_refs[0] == parent);
    }
    assert forall|b: H256| #[trigger] unreferred.contains(b) <==> after.proposer_level.contains_key(
        b,
    ) && forall|other: H256| #[trigger]
        after.proposer_level.contains_key(other) ==> !after.proposer_refs[other].contains(b) by {
        assert(state.unreferred_proposers.contains(b) <==> t.proposer_level.contains_key(b)
            && forall|other: H256| #[trigger]
            t.proposer_level.contains_key(other) ==> !t.proposer_refs[other].contains(b));
        assert(after.proposer_level.contains_key(block));
        if b == block {
            assert forall|other: H256| #[trigger] after.proposer_level.contains_key(
                other,
            ) implies !after.proposer_refs[other].contains(b) by {
                let list = after.proposer_refs[other];
                if list.contains(b) {
                    let i = choose|i: int| 0 <= i < list.len() && list[i] == b;
                    if other == block {
                        if i > 0 {
                            assert(list[i] == refs[i - 1]);
                        }
                    } else {
                        assert(t.proposer_level.contains_key(other));
                        assert(proposer_fits(t, other));
                        assert(t.proposer_level.contains_key(t.proposer_refs[other][i]));
                    }
                }
            }
        } else if unreferred.contains(b) {
            assert forall|other: H256| #[trigger] after.proposer_level.contains_key(
                other,
            ) implies !after.proposer_refs[other].contains(b) by {
                if other != block {
                    assert(t.proposer_level.contains_key(other));
                }
            }
        } else if after.proposer_level.contains_key(b) {
            if state.unreferred_proposers.contains(b) {
                assert(after.proposer_refs[block].contains(b));
            } else {
                let other = choose|other: H256| #[trigger]
                    t.proposer_level.contains_key(other) && t.proposer_refs[other].contains(b);
                assert(after.proposer_level.contains_key(other));
            }
        }
    }
}

/// The voter blocks still fit where more proposer blocks are known.
proof fn lemma_voters_keep(state: ChainState, t: Records, now: ChainState, u: Records)
    requires
        voters_fit(state, t),
        now.voter_best == state.voter_best,
        now.proposer_best.1 >= state.proposer_best.1,
        now.voter_ledger_tips == state.voter_ledger_tips,
        u.voter_level == t.voter_level,
        u.voter_chain == t.voter_chain,
        u.voter_parent == t.voter_parent,
        u.voted_level == t.voted_level,
        u.votes == t.votes,
        genesis_of(u) == genesis_of(t),
        forall|block: H256| #[trigger]
            t.proposer_level.contains_key(block) ==> u.proposer_level.contains_key(block),
    ensures
        voters_fit(now, u),
        counted_votes(now, u) == counted_votes(state, t),
{
    assert forall|block: H256| votes_up_to(u, block) == #[trigger] votes_up_to(t, block) by {
        lemma_chain_votes_alone(u, t, block, t.voter_level[block]);
    }
    assert forall|block: H256| #[trigger] u.voter_level.contains_key(block) implies voter_fits(
        now,
        u,
        block,
    ) by {
        assert(voter_fits(state, t, block));
        assert(votes_up_to(u, block) == votes_up_to(t, block));
        assert forall|i: int|
            0 <= i < u.votes[block].len() implies u.proposer_level.contains_key(
            #[trigger] u.votes[block][i],
        ) by {
            assert(t.proposer_level.contains_key(t.votes[block][i]));
        }
    }
    assert forall|chain: int| 0 <= chain < now.voter_best.len() implies #[trigger] chain_fits(
        now,
        u,
        chain,
    ) by {
        assert(chain_fits(state, t, chain));
    }
    assert forall|vote: (H256, u16, u64)|
        counted_votes(now, u).contains(vote) <==> counted_votes(state, t).contains(vote) by {
        if vote.1 < state.voter_best.len() {
            let tip = state.voter_ledger_tips[vote.1 as int];
            assert(votes_up_to(u, tip) == votes_up_to(t, tip));
        }
    }
    assert(counted_votes(now, u) =~= counted_votes(state, t));
}

/// The leaders still fit, and the ledger does, after a new proposer block.
proof fn lemma_ledger_keeps(
    state: ChainState,
    t: Records,
    block: H256,
    parent: H256,
    transaction_refs: Seq<H256>,
    refs: Seq<H256>,
)
    requires
        consistent(state, t),
        valid_proposer(t, block, parent, refs),
    ensures
        ({
            let level = (t.proposer_level[parent] + 1) as u64;
            let after = with_proposer(
                t,
                block,
                parent,
                level,
                transaction_refs,
                seq![parent] + refs,
            );
            &&& leaders_fit(after)
            &&& ledger_fits(
                ChainState {
                    unconfirmed_proposers: state.unconfirmed_proposers.insert(block),
                    ..state
                },
                after,
            )
        }),
{
    let level = (t.proposer_level[parent] + 1) as u64;
    let all_refs = seq![parent] + refs;
    let after = with_proposer(t, block, parent, level, transaction_refs, all_refs);
    lemma_proposer_fits(state, t, block, parent, transaction_refs, refs);
    lemma_no_votes(state, t, block);
    assert forall|l: u64| #[trigger] at(after.leader, l) == leader_of(after, l) by {
        assert(at(t.leader, l) == leader_of(t, l));
        if l == level {
            let list = list_at(t.tree, level);
            lemma_elect_more(t.node_votes, list, block);
            if !t.tree.contains_key(level) {
                assert(elect(t.node_votes, list) is None);
            }
        }
    }
    let all = t.proposer_level.dom();
    assert(after.proposer_level.dom() =~= all.insert(block));
    assert forall|l: u64| #[trigger] t.leader.contains_key(l) implies t.leader[l] != block by {
        lemma_leaders_known(state, t, l);
    }
    assert forall|other: H256| #[trigger] all.contains(other) implies t.proposer_refs.contains_key(
        other,
    ) && after.proposer_refs.contains_key(other) && after.proposer_refs[other]
        == t.proposer_refs[other] && !t.proposer_refs[other].contains(block) by {
        assert(t.proposer_level.contains_key(other));
        assert(proposer_fits(t, other));
        let list = t.proposer_refs[other];
        if list.contains(block) {
            let i = choose|i: int| 0 <= i < list.len() && list[i] == block;
            assert(t.proposer_level.contains_key(t.proposer_refs[other][i]));
        }
    }
    lemma_rebuild_more(t.leader, t.proposer_refs, after.proposer_refs, 0, all, block);
}

/// A valid proposer block enters a consistent chain and leaves it consistent.
proof fn lemma_insert_proposer(
    state: ChainState,
    t: Records,
    block: H256,
    parent: H256,
    transaction_refs: Seq<H256>,
    refs: Seq<H256>,
)
    requires
        consistent(state, t),
        valid_proposer(t, block, parent, refs),
    ensures
        insert_proposer(state, t, block, parent, transaction_refs, refs) matches Some(
            (now, changes),
        ) && consistent(now, t.apply_all(changes)),
{
    let level = (t.proposer_level[parent] + 1) as u64;
    let all_refs = seq![parent] + refs;
    let after = with_proposer(t, block, parent, level, transaction_refs, all_refs);
    let (now, changes) = insert_proposer(
        state,
        t,
        block,
        parent,
        transaction_refs,
        refs,
    ).unwrap();
    lemma_proposer_changes(t, block, parent, level, transaction_refs, all_refs);
    assert(t.apply_all(changes) == after);
    lemma_proposer_fits(state, t, block, parent, transaction_refs, refs);
    lemma_unreferred_fit(state, t, block, parent, transaction_refs, refs);
    lemma_ledger_keeps(state, t, block, parent, transaction_refs, refs);
    assert(genesis_of(after) == genesis_of(t));
    lemma_voters_keep(state, t, now, after);
    assert(now.wf());
    assert(proposers_fit(now, after));
    assert(unreferred_fit(now, after));
    assert(ledger_fits(now, after));
}

/// The votes on a chain of known blocks do not change with a new block.
pub(crate) proof fn lemma_votes_up_to_keep(
    state: ChainState,
    t: Records,
    u: Records,
    new: H256,
    block: H256,
)
    requires
        voters_fit(state, t),
        t.voter_level.contains_key(block),
        !t.voter_level.contains_key(new),
        forall|b: H256| b != new ==> at(u.votes, b) == #[trigger] at(t.votes, b),
        forall|b: H256| b != new ==> at(u.voter_parent, b) == #[trigger] at(t.voter_parent, b),
    ensures
        chain_votes(u, block, t.voter_level[block]) == votes_up_to(t, block),
    decreases t.voter_level[block],
{
    assert(voter_fits(state, t, block));
    assert(at(u.votes, block) == at(t.votes, block));
    assert(at(u.voter_parent, block) == at(t.voter_parent, block));
    assert(list_at(u.votes, block) == list_at(t.votes, block));
    if t.voter_level[block] > 0 {
        lemma_votes_up_to_keep(state, t, u, new, t.voter_parent[block]);
    }
}

/// A valid voter block enters a consistent chain and leaves it consistent.
proof fn lemma_insert_voter(
    state: ChainState,
    t: Records,
    block: H256,
    parent: H256,
    voter_parent: H256,
    votes: Seq<H256>,
)
    requires
        consistent(state, t),
        valid_voter(t, block, parent, voter_parent, votes),
    ensures
        insert_voter(state, t, block, parent, voter_parent, votes) matches Some((now, changes))
            && consistent(now, t.apply_all(changes)),
{
    assert(voter_fits(state, t, voter_parent));
    let level = (t.voter_level[voter_parent] + 1) as u64;
    let chain = t.voter_chain[voter_parent];
    let voted = t.proposer_level[parent];
    let after = with_voter(t, block, parent, voter_parent, level, chain, votes, voted);
    let (now, changes) = insert_voter(state, t, block, parent, voter_parent, votes).unwrap();
    lemma_voter_changes(t, block, parent, voter_parent, level, chain, votes, voted);
    assert(t.apply_all(changes) == after);
    assert(now.wf());
    // proposer blocks
    assert forall|b: H256| #[trigger] after.proposer_level.contains_key(b) implies proposer_fits(
        after,
        b,
    ) by {
        assert(proposer_fits(t, b));
    }
    assert forall|l: u64| #[trigger] after.tree.contains_key(l) implies level_fits(after, l) by {
        assert(level_fits(t, l));
    }
    assert(proposers_fit(now, after));
    // voter blocks
    assert forall|b: H256| #[trigger] t.voter_level.contains_key(b) implies votes_up_to(after, b)
        == votes_up_to(t, b) by {
        lemma_votes_up_to_keep(state, t, after, block, b);
    }
    assert forall|b: H256| #[trigger] after.voter_level.contains_key(b) implies voter_fits(
        now,
        after,
        b,
    ) by {
        if b == block {
            assert(proposer_fits(t, parent));
            assert(t.tree.contains_key(voted));
            assert(t.voter_level.contains_key(voter_parent));
            assert(votes_up_to(after, block) == stamped(votes, level) + votes_up_to(
                t,
                voter_parent,
            ));
        } else {
            assert(t.voter_level.contains_key(b));
            assert(voter_fits(state, t, b));
        }
    }
    assert forall|c: int| 0 <= c < now.voter_best.len() implies #[trigger] chain_fits(
        now,
        after,
        c,
    ) by {
        assert(chain_fits(state, t, c));
    }
    assert(voters_fit(now, after));
    assert forall|vote: (H256, u16, u64)|
        counted_votes(now, after).contains(vote) <==> counted_votes(state, t).contains(vote) by {
        if vote.1 < state.voter_best.len() {
            assert(chain_fits(state, t, vote.1 as int));
            let tip = state.voter_ledger_tips[vote.1 as int];
            assert(t.voter_level.contains_key(tip));
        }
    }
    assert(counted_votes(now, after) =~= counted_votes(state, t));
    // leaders and ledger
    assert forall|l: u64| #[trigger] at(after.leader, l) == leader_of(after, l) by {
        assert(at(t.leader, l) == leader_of(t, l));
    }
    assert(ledger_fits(now, after));
    assert(unreferred_fit(now, after));
}

/// The records after a block.
pub open spec fn records_with(t: Records, block: Block) -> Records {
    match block.content {
        Content::Proposer(content) => with_proposer(
            t,
            block.hash,
            block.parent,
            (t.proposer_level[block.parent] + 1) as u64,
            content.transaction_refs@,
            seq![block.parent] + content.proposer_refs@,
        ),
        Content::Voter(content) => with_voter(
            t,
            block.hash,
            block.parent,
            content.voter_parent,
            (t.voter_level[content.voter_parent] + 1) as u64,
            t.voter_chain[content.voter_parent],
            content.votes@,
            t.proposer_level[block.parent],
        ),
        Content::Transaction => Records { parent: t.parent.insert(block.hash, block.parent), ..t },
    }
}

/// The changes that an insertion makes lead to the records with the block.
pub(crate) proof fn lemma_records_with(state: ChainState, t: Records, block: Block)
    requires
        insert(state, t, block) is Some,
    ensures
        t.apply_all(insert(state, t, block).unwrap().1) == records_with(t, block),
{
    let changes = insert(state, t, block).unwrap().1;
    match block.content {
        Content::Proposer(content) => {
            lemma_proposer_changes(
                t,
                block.hash,
                block.parent,
                (t.proposer_level[block.parent] + 1) as u64,
                content.transaction_refs@,
                seq![block.parent] + content.proposer_refs@,
            );
        },
        Content::Voter(content) => {
            let parent = content.voter_parent;
            lemma_voter_changes(
                t,
                block.hash,
                block.parent,
                parent,
                (t.voter_level[parent] + 1) as u64,
                t.voter_chain[parent],
                content.votes@,
                t.proposer_level[block.parent],
            );
        },
        Content::Transaction => {
            assert(changes.len() == 1);
            assert(t.apply_all(changes.drop_last()) == t);
            assert(t.apply_all(changes) == t.apply(changes.last()));
        },
    }
}

/// A valid block enters a consistent chain and leaves it consistent. The ledger does not change
/// until the next update: neither the votes that are counted nor the leaders nor the blocks that
/// are confirmed.
pub proof fn law_insert(state: ChainState, t: Records, block: Block)
    requires
        consistent(state, t),
        valid_block(t, block),
    ensures
        insert(state, t, block) is Some,
        ({
            let (now, changes) = insert(state, t, block).unwrap();
            let after = t.apply_all(changes);
            &&& consistent(now, after)
            &&& after.node_votes == t.node_votes
            &&& after.leader == t.leader
            &&& after.order == t.order
            &&& now.proposer_ledger_tip == state.proposer_ledger_tip
            &&& now.voter_ledger_tips == state.voter_ledger_tips
        }),
{
    match block.content {
        Content::Proposer(content) => {
            lemma_insert_proposer(
                state,
                t,
                block.hash,
                block.parent,
                content.transaction_refs@,
                content.proposer_refs@,
            );
        },
        Content::Voter(content) => {
            lemma_insert_voter(
                state,
                t,
                block.hash,
                block.parent,
                content.voter_parent,
                content.votes@,
            );
        },
        Content::Transaction => {
            let now = insert(state, t, block).unwrap().0;
            lemma_transaction_keeps(state, t, now, records_with(t, block));
        },
    }
    lemma_records_with(state, t, block);
}

/// A transaction block leaves the chain consistent.
proof fn lemma_transaction_keeps(state: ChainState, t: Records, now: ChainState, after: Records)
    requires
        consistent(state, t),
        now.wf(),
        now == (ChainState { unreferred_transactions: now.unreferred_transactions, ..state }),
        after == (Records { parent: after.parent, ..t }),
    ensures
        consistent(now, after),
{
    assert forall|b: H256| #[trigger] after.proposer_level.contains_key(b) implies proposer_fits(
        after,
        b,
    ) by {
        assert(proposer_fits(t, b));
    }
    assert forall|l: u64| #[trigger] after.tree.contains_key(l) implies level_fits(after, l) by {
        assert(level_fits(t, l));
    }
    assert forall|l: u64| #[trigger] at(after.leader, l) == leader_of(after, l) by {
        assert(at(t.leader, l) == leader_of(t, l));
    }
    lemma_voters_keep(state, t, now, after);
}

/// A block that has entered the chain is known: a proposer block one level above its parent, a
/// voter block one level above its voter parent and on its chain.
pub proof fn law_inserted_block_is_known(state: ChainState, t: Records, block: Block)
    requires
        insert(state, t, block) is Some,
    ensures
        ({
            let after = t.apply_all(insert(state, t, block).unwrap().1);
            match block.content {
                Content::Proposer(content) => {
                    let level = (t.proposer_level[block.parent] + 1) as u64;
                    &&& at(after.proposer_level, block.hash) == Some(level)
                    &&& after.tree[level].contains(block.hash)
                    &&& at(after.transaction_refs, block.hash) == Some(content.transaction_refs@)
                    &&& at(after.proposer_refs, block.hash) == Some(
                        seq![block.parent] + content.proposer_refs@,
                    )
                },
                Content::Voter(content) => {
                    let parent = content.voter_parent;
                    &&& at(after.voter_level, block.hash) == Some(
                        (t.voter_level[parent] + 1) as u64,
                    )
                    &&& at(after.voter_chain, block.hash) == Some(t.voter_chain[parent])
                    &&& at(after.voter_parent, block.hash) == Some(parent)
                    &&& at(after.votes, block.hash) == Some(content.votes@)
                    &&& at(after.voted_level, block.hash) == Some(t.proposer_level[block.parent])
                },
                Content::Transaction => at(after.parent, block.hash) == Some(block.parent),
            }
        }),
{
    lemma_records_with(state, t, block);
    if block.content is Proposer {
        let list = list_at(t.tree, (t.proposer_level[block.parent] + 1) as u64);
        if !list.contains(block.hash) {
            assert(list.push(block.hash)[list.len() as int] == block.hash);
        }
    }
}

/// The levels of the best blocks never go down when a block enters, and no block is forgotten.
pub proof fn law_best_never_goes_down(state: ChainState, t: Records, block: Block)
    requires
        insert(state, t, block) is Some,
    ensures
        ({
            let (now, changes) = insert(state, t, block).unwrap();
            let after = t.apply_all(changes);
            &&& now.proposer_best.1 >= state.proposer_best.1
            &&& now.voter_best.len() == state.voter_best.len()
            &&& forall|chain: int|
                0 <= chain < state.voter_best.len() ==> (#[trigger] now.voter_best[chain]).1
                    >= state.voter_best[chain].1
            &&& t.proposer_level.dom().subset_of(after.proposer_level.dom())
            &&& t.voter_level.dom().subset_of(after.voter_level.dom())
        }),
{
    lemma_records_with(state, t, block);
}

/// What proposer blocks refer to, where only other blocks refer to something else.
proof fn lemma_transactions_alone(
    refs: Map<H256, Seq<H256>>,
    others: Map<H256, Seq<H256>>,
    blocks: Seq<H256>,
    n: nat,
)
    requires
        n <= blocks.len(),
        forall|i: int| 0 <= i < n ==> at(refs, #[trigger] blocks[i]) == at(others, blocks[i]),
    ensures
        transactions_of(refs, blocks, n) == transactions_of(others, blocks, n),
    decreases n,
{
    if n > 0 {
        lemma_transactions_alone(refs, others, blocks, (n - 1) as nat);
        assert(at(refs, blocks[n - 1]) == at(others, blocks[n - 1]));
    }
}

/// A block that enters changes neither the ledger nor its transaction blocks, unless it is a
/// proposer block that the ledger has already.
pub proof fn law_insert_keeps_ledger(state: ChainState, t: Records, block: Block)
    requires
        insert(state, t, block) is Some,
        block.content is Proposer ==> !ledger_of(state, t).contains(block.hash),
    ensures
        ({
            let (now, changes) = insert(state, t, block).unwrap();
            let after = t.apply_all(changes);
            &&& ledger_between(t.order, 0, (state.proposer_ledger_tip + 1) as nat)
                == ledger_between(after.order, 0, (now.proposer_ledger_tip + 1) as nat)
            &&& ledger_of(now, after) == ledger_of(state, t)
            &&& transactions_in_ledger(now, after) == transactions_in_ledger(state, t)
        }),
{
    lemma_records_with(state, t, block);
    let ledger = ledger_of(state, t);
    lemma_transactions_alone(
        t.transaction_refs,
        records_with(t, block).transaction_refs,
        ledger,
        ledger.len(),
    );
}

/// A block that is inserted once more right away changes nothing, unless it names itself as its
/// parent.
pub proof fn law_second_insert_changes_nothing(state: ChainState, t: Records, block: Block)
    requires
        insert(state, t, block) is Some,
        block.content is Proposer ==> block.parent != block.hash,
        block.content matches Content::Voter(content) ==> content.voter_parent != block.hash,
    ensures
        ({
            let (now, changes) = insert(state, t, block).unwrap();
            let after = t.apply_all(changes);
            insert(now, after, block) matches Some((again, repeated)) && again == now
                && after.apply_all(repeated) == after
        }),
{
    let (now, changes) = insert(state, t, block).unwrap();
    let after = records_with(t, block);
    lemma_records_with(state, t, block);
    let (again, repeated) = insert(now, after, block).unwrap();
    lemma_records_with(now, after, block);
    assert(again.unreferred_proposers =~= now.unreferred_proposers);
    assert(again.unreferred_transactions =~= now.unreferred_transactions);
    assert(again.unconfirmed_proposers =~= now.unconfirmed_proposers);
    assert(again.voter_best =~= now.voter_best);
    assert(again =~= now);
    let twice = records_with(after, block);
    match block.content {
        Content::Proposer(content) => {
            let level = (t.proposer_level[block.parent] + 1) as u64;
            let list = list_at(t.tree, level);
            if !list.contains(block.hash) {
                assert(list.push(block.hash)[list.len() as int] == block.hash);
            }
            assert(twice.tree =~= after.tree);
            assert(twice.proposer_level =~= after.proposer_level);
            assert(twice.proposer_refs =~= after.proposer_refs);
            assert(twice.transaction_refs =~= after.transaction_refs);
            assert(twice.parent =~= after.parent);
        },
        Content::Voter(content) => {
            assert(twice.voter_level =~= after.voter_level);
            assert(twice.voter_chain =~= after.voter_chain);
            assert(twice.voter_parent =~= after.voter_parent);
            assert(twice.votes =~= after.votes);
            assert(twice.voted_level =~= after.voted_level);
            assert(twice.parent =~= after.parent);
        },
        Content::Transaction => {
            assert(twice.parent =~= after.parent);
        },
    }
}

/// A proposer block enters if and only if its parent is known, and below the highest level there
/// can be. It is recorded one level above its parent, behind the blocks that are on that level
/// already, unless it is among them, with everything that it refers to, its parent first. It is
/// unconfirmed and not referred to, and what it refers to no longer is unreferred. It is the best
/// block if its level is above that of the best block so far. Nothing else changes.
pub proof fn law_proposer_enters(
    state: ChainState,
    t: Records,
    block: Block,
    transaction_refs: Seq<H256>,
    proposer_refs: Seq<H256>,
)
    requires
        block.content matches Content::Proposer(content) && content.transaction_refs@
            == transaction_refs && content.proposer_refs@ == proposer_refs,
    ensures
        insert(state, t, block) is Some <==> t.proposer_level.contains_key(block.parent)
            && t.proposer_level[block.parent] < u64::MAX,
        insert(state, t, block) matches Some((now, changes)) ==> {
            let after = t.apply_all(changes);
            let hash = block.hash;
            let parent = block.parent;
            let level = (t.proposer_level[parent] + 1) as u64;
            &&& after.proposer_level == t.proposer_level.insert(hash, level)
            &&& after.tree.dom() == t.tree.dom().insert(level)
            &&& after.tree[level] == (if !t.tree.contains_key(level) {
                seq![hash]
            } else if exists|i: int|
                0 <= i < t.tree[level].len() && #[trigger] t.tree[level][i] == hash {
                t.tree[level]
            } else {
                t.tree[level] + seq![hash]
            })
            &&& forall|l: u64|
                l != level && t.tree.contains_key(l) ==> #[trigger] after.tree[l] == t.tree[l]
            &&& after.parent == t.parent.insert(hash, parent)
            &&& after.transaction_refs == t.transaction_refs.insert(hash, transaction_refs)
            &&& after.proposer_refs == t.proposer_refs.insert(hash, seq![parent] + proposer_refs)
            &&& after.voter_level == t.voter_level
            &&& after.voter_chain == t.voter_chain
            &&& after.voted_level == t.voted_level
            &&& after.node_votes == t.node_votes
            &&& after.leader == t.leader
            &&& after.order == t.order
            &&& after.votes == t.votes
            &&& after.voter_parent == t.voter_parent
            &&& forall|b: H256| #[trigger]
                now.unreferred_proposers.contains(b) <==> b == hash || (
                state.unreferred_proposers.contains(b) && b != parent && !proposer_refs.contains(b))
            &&& forall|b: H256| #[trigger]
                now.unreferred_transactions.contains(b) <==> state.unreferred_transactions.contains(
                    b,
                ) && !transaction_refs.contains(b)
            &&& forall|b: H256| #[trigger]
                now.unconfirmed_proposers.contains(b) <==> b == hash
                    || state.unconfirmed_proposers.contains(b)
            &&& now.proposer_best == (if level > state.proposer_best.1 {
                (hash, level)
            } else {
                state.proposer_best
            })
            &&& now.voter_best == state.voter_best
            &&& now.voter_ledger_tips == state.voter_ledger_tips
            &&& now.proposer_ledger_tip == state.proposer_ledger_tip
        },
{
    if insert(state, t, block) is Some {
        lemma_records_with(state, t, block);
        let (now, changes) = insert(state, t, block).unwrap();
        let level = (t.proposer_level[block.parent] + 1) as u64;
        let after = t.apply_all(changes);
        let list = list_at(t.tree, level);
        assert(after.tree.dom() =~= t.tree.dom().insert(level));
        if !t.tree.contains_key(level) {
            assert(list.push(block.hash) =~= seq![block.hash]);
        } else {
            assert(list.push(block.hash) =~= t.tree[level] + seq![block.hash]);
        }
    }
}

/// A voter block enters if and only if its parent and its voter parent are known, the latter below
/// the highest level there can be and on one of the voter chains. It is recorded one level above
/// its voter parent and on its chain, with all its votes, and with the level of its parent as the
/// one that it has voted up to. It is the best block of its chain if its level is above that of the
/// best block so far. Nothing else changes.
pub proof fn law_voter_enters(
    state: ChainState,
    t: Records,
    block: Block,
    voter_parent: H256,
    votes: Seq<H256>,
)
    requires
        block.content matches Content::Voter(content) && content.voter_parent == voter_parent
            && content.votes@ == votes,
    ensures
        insert(state, t, block) is Some <==> t.proposer_level.contains_key(block.parent)
            && t.voter_level.contains_key(voter_parent) && t.voter_level[voter_parent] < u64::MAX
            && t.voter_chain.contains_key(voter_parent) && t.voter_chain[voter_parent]
            < state.voter_best.len(),
        insert(state, t, block) matches Some((now, changes)) ==> {
            let after = t.apply_all(changes);
            let hash = block.hash;
            let level = (t.voter_level[voter_parent] + 1) as u64;
            let chain = t.voter_chain[voter_parent];
            &&& after.voter_level == t.voter_level.insert(hash, level)
            &&& after.voter_chain == t.voter_chain.insert(hash, chain)
            &&& after.voted_level == t.voted_level.insert(hash, t.proposer_level[block.parent])
            &&& after.votes == t.votes.insert(hash, votes)
            &&& after.voter_parent == t.voter_parent.insert(hash, voter_parent)
            &&& after.parent == t.parent.insert(hash, block.parent)
            &&& after.proposer_level == t.proposer_level
            &&& after.tree == t.tree
            &&& after.node_votes == t.node_votes
            &&& after.leader == t.leader
            &&& after.order == t.order
            &&& after.transaction_refs == t.transaction_refs
            &&& after.proposer_refs == t.proposer_refs
            &&& now.voter_best.len() == state.voter_best.len()
            &&& forall|c: int|
                0 <= c < state.voter_best.len() ==> #[trigger] now.voter_best[c] == (if c == chain
                    && level > state.voter_best[c].1 {
                    (hash, level)
                } else {
                    state.voter_best[c]
                })
            &&& now.proposer_best == state.proposer_best
            &&& now.unreferred_transactions == state.unreferred_transactions
            &&& now.unreferred_proposers == state.unreferred_proposers
            &&& now.unconfirmed_proposers == state.unconfirmed_proposers
            &&& now.proposer_ledger_tip == state.proposer_ledger_tip
            &&& now.voter_ledger_tips == state.voter_ledger_tips
        },
{
    if insert(state, t, block) is Some {
        lemma_records_with(state, t, block);
    }
}

/// A transaction block always enters. Its parent is recorded, and no block refers to it yet.
/// Nothing else changes.
pub proof fn law_transaction_enters(state: ChainState, t: Records, block: Block)
    requires
        block.content is Transaction,
    ensures
        insert(state, t, block) matches Some((now, changes)) && {
            let after = t.apply_all(changes);
            &&& after.parent == t.parent.insert(block.hash, block.parent)
            &&& after == (Records { parent: after.parent, ..t })
            &&& now.unreferred_transactions == state.unreferred_transactions.insert(block.hash)
            &&& now == (ChainState {
                unreferred_transactions: now.unreferred_transactions,
                ..state
            })
        },
{
    lemma_records_with(state, t, block);
}

} // verus!
