//! What holds of the answers that a consistent chain gives.

use vstd::prelude::*;

use crate::block::{Block, Content, H256};
use crate::chain::{insert, ChainState};
use crate::change::Change;
use crate::codec::{enc_chain, enc_hash, law_chain_round_trip, law_hash_round_trip};
use crate::consistency::{
    chain_fits, consistent, leader_of, level_fits, proposer_fits, voter_fits, voters_fit,
    votes_up_to,
};
use crate::dump::{
    bottom_level, end_of, levels_of, lowest, main_chain, main_chains, picture, shown, total,
    votes_for, with_forks, Graph,
};
use crate::insertion::{
    lemma_proposer_changes, lemma_voter_changes, lemma_votes_known, lemma_votes_up_to_keep,
    valid_block, valid_voter,
};
use crate::laws::{
    law_ledger, law_ledger_starts_with_genesis, ledger_of, lemma_known_blocks, lemma_ledger_between,
    lemma_transactions_exist,
};
use crate::ledger::{joined, ledger_between, rebuild, transactions_of};
use crate::ordering::{lemma_between_splits, lemma_joined_concat, lemma_rebuild};
use crate::queries::{
    bottom_voter, has_block, ledger_with_transactions, proposer_ends, unvoted, voter_ends,
    with_transactions,
};
use crate::store::{at, list_at, voters_in, Records};
use crate::votes::{lemma_chain_votes_alone, stamped};
use crate::whole::{law_consistent_is_whole, tree_whole, voter_whole, voters_whole, votes_whole};

verus! {

/// The votes that a voter block is to cast can be had for every known tip and proposer parent:
/// one vote for each level above the one that the tip has voted up to, and up to that of the
/// proposer parent, for the first block of the level, the lowest level first.
pub proof fn law_unvoted(state: ChainState, t: Records, tip: H256, proposer_parent: H256)
    requires
        consistent(state, t),
        t.voter_level.contains_key(tip),
        t.proposer_level.contains_key(proposer_parent),
    ensures
        unvoted(t, tip, proposer_parent) is Some,
        ({
            let list = unvoted(t, tip, proposer_parent).unwrap();
            let voted = t.voted_level[tip];
            let last = t.proposer_level[proposer_parent];
            &&& list.len() == if voted < last {
                last - voted
            } else {
                0
            }
            &&& forall|i: int|
                0 <= i < list.len() ==> at(t.proposer_level, #[trigger] list[i]) == Some(
                    (voted + 1 + i) as u64,
                ) && list[i] == t.tree[(voted + 1 + i) as u64][0]
        }),
{
    let voted = t.voted_level[tip];
    let last = t.proposer_level[proposer_parent];
    assert(voter_fits(state, t, tip));
    assert(proposer_fits(t, proposer_parent));
    assert forall|level: u64| voted < level <= last implies #[trigger] has_block(t, level) by {
        assert(t.tree.contains_key(level));
        assert(level_fits(t, level));
    }
    let list = unvoted(t, tip, proposer_parent).unwrap();
    assert forall|i: int| 0 <= i < list.len() implies at(t.proposer_level, #[trigger] list[i])
        == Some((voted + 1 + i) as u64) && list[i] == t.tree[(voted + 1 + i) as u64][0] by {
        let level = (voted + 1 + i) as u64;
        assert(t.tree.contains_key(level));
        assert(level_fits(t, level));
        assert(at(t.proposer_level, t.tree[level][0]) == Some(level));
    }
}

/// Whether every vote on the chain of a voter block is for a level up to which the block counts
/// as having voted.
pub open spec fn votes_within(t: Records) -> bool {
    forall|block: H256| #[trigger]
        t.voter_level.contains_key(block) ==> votes_below(t, block, t.voted_level[block])
}

/// Whether every vote on the chain of a voter block is for a block of at most the given level.
pub open spec fn votes_below(t: Records, block: H256, level: u64) -> bool {
    forall|i: int|
        0 <= i < votes_up_to(t, block).len() ==> t.proposer_level[(#[trigger] votes_up_to(
            t,
            block,
        )[i]).0] <= level
}

/// A new voter block may cast the votes that are due.
pub proof fn law_due_votes_are_valid(
    state: ChainState,
    t: Records,
    block: H256,
    tip: H256,
    proposer_parent: H256,
)
    requires
        consistent(state, t),
        votes_within(t),
        t.voter_level.contains_key(tip),
        t.proposer_level.contains_key(proposer_parent),
        !t.voter_level.contains_key(block),
        t.voter_level[tip] + 1 < u64::MAX,
    ensures
        unvoted(t, tip, proposer_parent) is Some,
        valid_voter(
            t,
            block,
            proposer_parent,
            tip,
            unvoted(t, tip, proposer_parent).unwrap(),
        ),
{
    law_unvoted(state, t, tip, proposer_parent);
    let votes = unvoted(t, tip, proposer_parent).unwrap();
    let voted = t.voted_level[tip];
    let level = (t.voter_level[tip] + 1) as u64;
    let new = stamped(votes, level);
    let below = votes_up_to(t, tip);
    let all = new + below;
    assert forall|i: int| 0 <= i < votes.len() implies t.proposer_level.contains_key(
        #[trigger] votes[i],
    ) by {
        assert(at(t.proposer_level, votes[i]) is Some);
    }
    assert(voter_fits(state, t, tip));
    assert forall|i: int, j: int| 0 <= i < j < all.len() implies (#[trigger] all[i]).0 != (
    #[trigger] all[j]).0 by {
        if j < new.len() {
            assert(all[i].0 == votes[i]);
            assert(all[j].0 == votes[j]);
            assert(at(t.proposer_level, votes[i]) == Some((voted + 1 + i) as u64));
            assert(at(t.proposer_level, votes[j]) == Some((voted + 1 + j) as u64));
        } else if i < new.len() {
            assert(all[i].0 == votes[i]);
            assert(at(t.proposer_level, votes[i]) == Some((voted + 1 + i) as u64));
            assert(all[j] == below[j - new.len()]);
            assert(votes_below(t, tip, voted));
            assert(t.proposer_level[votes_up_to(t, tip)[j - new.len()].0] <= voted);
        } else {
            assert(all[i] == below[i - new.len()]);
            assert(all[j] == below[j - new.len()]);
        }
    }
}

/// Whether a block, if it is a voter block, votes for blocks up to the level of its proposer
/// parent, which is not below what its chain has voted up to.
pub open spec fn within_window(t: Records, block: Block) -> bool {
    match block.content {
        Content::Voter(content) => {
            let last = t.proposer_level[block.parent];
            &&& t.voted_level[content.voter_parent] <= last
            &&& forall|i: int|
                0 <= i < content.votes@.len() ==> t.proposer_level[#[trigger] content.votes@[i]]
                    <= last
        },
        _ => true,
    }
}

/// Where the voter chains are the same, and the levels of known blocks are, votes stay within.
proof fn lemma_within_kept(state: ChainState, t: Records, u: Records)
    requires
        consistent(state, t),
        votes_within(t),
        u.voter_level == t.voter_level,
        u.voter_parent == t.voter_parent,
        u.voted_level == t.voted_level,
        u.votes == t.votes,
        forall|block: H256| #[trigger]
            t.proposer_level.contains_key(block) ==> u.proposer_level[block]
                == t.proposer_level[block],
    ensures
        votes_within(u),
{
    assert forall|block: H256| #[trigger] u.voter_level.contains_key(block) implies votes_below(
        u,
        block,
        u.voted_level[block],
    ) by {
        lemma_chain_votes_alone(u, t, block, t.voter_level[block]);
        let votes = votes_up_to(t, block);
        assert(votes_below(t, block, t.voted_level[block]));
        assert forall|i: int|
            0 <= i < votes_up_to(u, block).len() implies u.proposer_level[(
        #[trigger] votes_up_to(u, block)[i]).0] <= u.voted_level[block] by {
            assert(votes.contains(votes[i]));
            lemma_votes_known(state, t, block, votes[i]);
            assert(t.proposer_level[votes_up_to(t, block)[i].0] <= t.voted_level[block]);
        }
    }
}

/// Votes stay within what the voter blocks count as having voted up to, as long as blocks enter
/// whose votes do.
pub proof fn law_votes_stay_within(state: ChainState, t: Records, block: Block)
    requires
        consistent(state, t),
        votes_within(t),
        valid_block(t, block),
        within_window(t, block),
        insert(state, t, block) is Some,
    ensures
        votes_within(t.apply_all(insert(state, t, block).unwrap().1)),
{
    let changes = insert(state, t, block).unwrap().1;
    let after = t.apply_all(changes);
    match block.content {
        Content::Proposer(content) => {
            let level = (t.proposer_level[block.parent] + 1) as u64;
            let refs = seq![block.parent] + content.proposer_refs@;
            lemma_proposer_changes(
                t,
                block.hash,
                block.parent,
                level,
                content.transaction_refs@,
                refs,
            );
            lemma_within_kept(state, t, after);
        },
        Content::Transaction => {
            assert(changes.len() == 1);
            assert(t.apply_all(changes.drop_last()) == t);
            assert(after == t.apply(changes.last()));
            assert(changes.last() == Change::Parent(block.hash, block.parent));
            lemma_within_kept(state, t, after);
        },
        Content::Voter(content) => {
            let tip = content.voter_parent;
            let votes = content.votes@;
            let last = t.proposer_level[block.parent];
            let level = (t.voter_level[tip] + 1) as u64;
            lemma_voter_changes(
                t,
                block.hash,
                block.parent,
                tip,
                level,
                t.voter_chain[tip],
                votes,
                last,
            );
            assert forall|b: H256| #[trigger] after.voter_level.contains_key(
                b,
            ) implies votes_below(after, b, after.voted_level[b]) by {
                if b == block.hash {
                    lemma_votes_up_to_keep(state, t, after, block.hash, tip);
                    let all = votes_up_to(after, b);
                    assert(all == stamped(votes, level) + votes_up_to(t, tip));
                    assert(votes_below(t, tip, t.voted_level[tip]));
                    assert forall|i: int|
                        0 <= i < votes_up_to(after, b).len() implies after.proposer_level[(
                    #[trigger] votes_up_to(after, b)[i]).0] <= after.voted_level[b] by {
                        if i < votes.len() {
                            assert(all[i].0 == votes[i]);
                        } else {
                            let k = i - votes.len();
                            assert(all[i] == votes_up_to(t, tip)[k]);
                            assert(t.proposer_level[votes_up_to(t, tip)[k].0]
                                <= t.voted_level[tip]);
                        }
                    }
                } else {
                    assert(t.voter_level.contains_key(b));
                    lemma_votes_up_to_keep(state, t, after, block.hash, b);
                    assert(votes_below(t, b, t.voted_level[b]));
                    assert forall|i: int|
                        0 <= i < votes_up_to(after, b).len() implies after.proposer_level[(
                    #[trigger] votes_up_to(after, b)[i]).0] <= after.voted_level[b] by {
                        assert(t.proposer_level[votes_up_to(t, b)[i].0] <= t.voted_level[b]);
                    }
                }
            }
        },
    }
}

/// The blocks of the ledger between two levels of it can be had, and what they refer to is known.
proof fn lemma_ledger_part(state: ChainState, t: Records, bottom: nat)
    requires
        consistent(state, t),
        bottom <= state.proposer_ledger_tip + 1,
    ensures
        ledger_between(t.order, bottom, (state.proposer_ledger_tip + 1) as nat) is Some,
        ({
            let blocks = ledger_between(
                t.order,
                bottom,
                (state.proposer_ledger_tip + 1) as nat,
            ).unwrap();
            &&& forall|i: int|
                0 <= i < blocks.len() ==> t.transaction_refs.contains_key(#[trigger] blocks[i])
            &&& transactions_of(t.transaction_refs, blocks, blocks.len()) is Some
        }),
{
    let all = t.proposer_level.dom();
    lemma_rebuild(t.leader, t.proposer_refs, 0, all);
    let orders = rebuild(t.leader, t.proposer_refs, 0, all).unwrap().orders;
    let end = orders.len();
    lemma_ledger_between(t.order, orders, bottom, end);
    let kept = orders.subrange(0, bottom as int);
    let part = orders.subrange(bottom as int, end as int);
    assert(kept + part =~= orders);
    lemma_joined_concat(kept, part);
    let blocks = joined(part);
    assert forall|block: H256| blocks.to_set().contains(block) implies all.contains(block) by {
        let i = choose|i: int| 0 <= i < blocks.len() && blocks[i] == block;
        assert(joined(orders)[joined(kept).len() + i] == block);
        assert(joined(orders).to_set().contains(block));
    }
    lemma_known_blocks(state, t, blocks);
    lemma_transactions_exist(t.transaction_refs, blocks, blocks.len());
}

/// The blocks of the ledger, with the transaction blocks that they refer to, can always be had;
/// they are all blocks of the ledger if and only if the limit is not below the tip.
pub proof fn law_ledger_can_be_had(state: ChainState, t: Records, limit: u64)
    requires
        consistent(state, t),
    ensures
        ledger_with_transactions(state, t, limit) is Some,
        ledger_with_transactions(state, t, limit) == with_transactions(
            t.transaction_refs,
            ledger_of(state, t),
        ) <==> limit >= state.proposer_ledger_tip,
{
    lemma_ledger_part(state, t, bottom_level(state.proposer_ledger_tip, limit) as nat);
    lemma_ledger_part(state, t, 0);
    law_ledger_starts_with_genesis(state, t);
    law_limit_of_the_whole_ledger(state, t, limit);
}

pub(crate) proof fn lemma_levels_end(tree: Map<u64, Seq<H256>>, level: nat, top: u64)
    requires
        forall|l: u64| #[trigger] tree.contains_key(l) <==> l <= top,
        level <= top + 1,
        top < u64::MAX,
    ensures
        end_of(tree, level) == top + 1,
    decreases top + 1 - level,
{
    if level <= top {
        assert(tree.contains_key(level as u64));
        lemma_levels_end(tree, level + 1, top);
    } else {
        assert(!tree.contains_key(level as u64));
    }
}

proof fn lemma_votes_for(
    lists: Map<H256, Seq<(u16, u64)>>,
    blocks: Seq<(H256, u64)>,
    i: int,
)
    requires
        0 <= i < votes_for(lists, blocks).len(),
    ensures
        list_at(lists, votes_for(lists, blocks)[i].0).contains(votes_for(lists, blocks)[i].1),
    decreases blocks.len(),
{
    let before = votes_for(lists, blocks.drop_last());
    if i < before.len() {
        lemma_votes_for(lists, blocks.drop_last(), i);
    } else {
        let list = list_at(lists, blocks.last().0);
        assert(votes_for(lists, blocks)[i].1 == list[i - before.len()]);
    }
}

proof fn lemma_main_chain(state: ChainState, t: Records, block: H256, low: u64)
    requires
        voters_whole(state, t),
        t.voter_level.contains_key(block),
    ensures
        main_chain(t, block, t.voter_level[block], low) is Some,
    decreases t.voter_level[block],
{
    assert(voter_whole(state, t, block));
    let level = t.voter_level[block];
    if level >= low && level > 0 {
        lemma_main_chain(state, t, t.voter_parent[block], low);
    }
}

proof fn lemma_main_chains(
    state: ChainState,
    t: Records,
    votes: Seq<(H256, (u16, u64))>,
    n: nat,
)
    requires
        voters_whole(state, t),
        n <= state.voter_best.len(),
    ensures
        main_chains(state, t, votes, n) is Some,
    decreases n,
{
    if n > 0 {
        lemma_main_chains(state, t, votes, (n - 1) as nat);
        let (block, level) = state.voter_best[n - 1];
        assert(at(t.voter_level, state.voter_best[n - 1].0) == Some(state.voter_best[n - 1].1));
        lemma_main_chain(state, t, block, lowest(votes, (n - 1) as u16, level));
    }
}

/// Whether every entry is a known voter block with its chain number.
pub open spec fn lists_voters(t: Records, voters: Seq<(H256, u16)>) -> bool {
    forall|i: int|
        0 <= i < voters.len() ==> t.voter_level.contains_key((#[trigger] voters[i]).0)
            && t.voter_chain[voters[i].0] == voters[i].1
}

proof fn lemma_forks(
    state: ChainState,
    t: Records,
    votes: Seq<(H256, (u16, u64))>,
    graph: Graph,
    voters: Seq<(H256, u16)>,
    n: nat,
)
    requires
        voters_whole(state, t),
        lists_voters(t, voters),
        n <= voters.len(),
    ensures
        with_forks(state, t, votes, graph, voters, n) is Some,
    decreases n,
{
    if n > 0 {
        lemma_forks(state, t, votes, graph, voters, (n - 1) as nat);
        let (block, chain) = voters[n - 1];
        assert(t.voter_level.contains_key(block));
        assert(voter_whole(state, t, block));
    }
}

/// A chain whose records are whole can always be shown, with the forks of its voter chains or
/// without, as long as its ledger can be had and its numbers are within the machine's range.
pub proof fn law_whole_chain_can_be_shown(
    state: ChainState,
    t: Records,
    voters: Option<Seq<(H256, u16)>>,
    limit: u64,
)
    requires
        tree_whole(state, t),
        voters_whole(state, t),
        votes_whole(state, t),
        voters matches Some(list) ==> lists_voters(t, list),
        ledger_with_transactions(state, t, limit) is Some,
        state.proposer_ledger_tip <= state.proposer_best.1 < u64::MAX,
        forall|i: int|
            0 <= i < state.voter_best.len() ==> (#[trigger] state.voter_best[i]).1 < u64::MAX,
        levels_of(t.tree, 0) matches Some(levels) ==> total(levels, levels.len()) <= usize::MAX,
    ensures
        picture(state, t, voters, limit) is Some,
{
    let tip = state.proposer_ledger_tip;
    let top = state.proposer_best.1;
    let bottom = bottom_level(tip, limit);
    let ledger = ledger_between(t.order, bottom as nat, (tip + 1) as nat).unwrap();
    lemma_transactions_exist(t.transaction_refs, ledger, ledger.len());
    lemma_levels_end(t.tree, bottom as nat, top);
    lemma_levels_end(t.tree, 0, top);
    let levels = levels_of(t.tree, bottom).unwrap();
    let blocks = shown(levels, bottom, levels.len());
    let votes = votes_for(t.node_votes, blocks);
    assert forall|i: int| 0 <= i < votes.len() implies (#[trigger] votes[i]).1.0
        < state.voter_best.len() by {
        lemma_votes_for(t.node_votes, blocks, i);
        let (block, vote) = votes[i];
        let list = list_at(t.node_votes, block);
        let k = choose|k: int| 0 <= k < list.len() && list[k] == vote;
        assert(list_at(t.node_votes, block)[k].0 < state.voter_best.len());
    }
    lemma_main_chains(state, t, votes, state.voter_best.len());
    let graph = main_chains(state, t, votes, state.voter_best.len()).unwrap();
    if let Some(list) = voters {
        lemma_forks(state, t, votes, graph, list, list.len());
    }
}

/// A consistent chain can always be shown, with the forks of its voter chains or without, as long
/// as its number of proposer blocks is within the machine's range.
pub proof fn law_dump_can_be_had(
    state: ChainState,
    t: Records,
    voters: Option<Seq<(H256, u16)>>,
    limit: u64,
)
    requires
        consistent(state, t),
        voters matches Some(list) ==> lists_voters(t, list),
        levels_of(t.tree, 0) matches Some(levels) ==> total(levels, levels.len()) <= usize::MAX,
    ensures
        picture(state, t, voters, limit) is Some,
{
    law_consistent_is_whole(state, t);
    law_ledger_can_be_had(state, t, limit);
    let tip = state.proposer_ledger_tip;
    law_ledger(state, t);
    assert(t.leader.contains_key(tip));
    assert(at(t.leader, tip) == leader_of(t, tip));
    assert forall|i: int| 0 <= i < state.voter_best.len() implies (#[trigger] state.voter_best[i]).1
        < u64::MAX by {
        assert(chain_fits(state, t, i));
    }
    law_whole_chain_can_be_shown(state, t, voters, limit);
}

/// The ends of the voter chains can be had where the records are whole, from entries that list
/// voter blocks.
pub proof fn law_voter_ends_can_be_had(
    state: ChainState,
    t: Records,
    entries: Seq<(Vec<u8>, Vec<u8>)>,
)
    requires
        voters_whole(state, t),
        voters_in(entries, entries.len()) matches Some(voters) && lists_voters(t, voters),
    ensures
        voter_ends(state, t, entries) is Some,
{
    let voters = voters_in(entries, entries.len()).unwrap();
    assert forall|i: int| 0 <= i < voters.len() implies t.voter_level.contains_key(
        (#[trigger] voters[i]).0,
    ) && (t.voter_level[voters[i].0] == 1 ==> voters[i].1 < state.voter_best.len()) by {
        assert(voter_whole(state, t, voters[i].0));
    }
}

/// The votes that a voter block is to cast can be had for every known tip and proposer parent
/// where the records are whole: for the first block of each level above the one that the tip has
/// voted up to, and up to that of the proposer parent, the lowest level first.
pub proof fn law_due_votes_can_be_had(
    state: ChainState,
    t: Records,
    tip: H256,
    proposer_parent: H256,
)
    requires
        tree_whole(state, t),
        voters_whole(state, t),
        t.voter_level.contains_key(tip),
        t.proposer_level.contains_key(proposer_parent),
        t.voted_level[tip] < u64::MAX,
    ensures
        ({
            let voted = t.voted_level[tip];
            let last = t.proposer_level[proposer_parent];
            &&& unvoted(t, tip, proposer_parent) matches Some(list) && list.len() == (if voted
                < last {
                last - voted
            } else {
                0
            }) && forall|i: int|
                0 <= i < list.len() ==> #[trigger] list[i] == t.tree[(voted + 1 + i) as u64][0]
        }),
{
    let last = t.proposer_level[proposer_parent];
    assert(voter_whole(state, t, tip));
    assert(t.tree.contains_key(last));
    assert forall|level: u64| t.voted_level[tip] < level <= last implies #[trigger] has_block(
        t,
        level,
    ) by {
        assert(t.tree.contains_key(level));
    }
}

/// Where level 0 of the ledger has a block, the query for the ledger gives the whole of it if and
/// only if the limit is not below the tip.
pub proof fn law_limit_of_the_whole_ledger(state: ChainState, t: Records, limit: u64)
    requires
        ledger_with_transactions(state, t, u64::MAX) is Some,
        at(t.order, 0) matches Some(blocks) && blocks.len() > 0,
    ensures
        ledger_with_transactions(state, t, limit) == with_transactions(
            t.transaction_refs,
            ledger_of(state, t),
        ) <==> limit >= state.proposer_ledger_tip,
{
    let tip = state.proposer_ledger_tip;
    let end = (tip + 1) as nat;
    assert(bottom_level(tip, u64::MAX) == 0);
    if limit < tip {
        let bottom = bottom_level(tip, limit) as nat;
        law_smaller_limit_gives_the_end(state, t, limit, u64::MAX);
        lemma_between_splits(t.order, 0, bottom, end);
        lemma_between_splits(t.order, 0, 1, bottom);
        assert(ledger_between(t.order, 0, 0) == Some(Seq::<H256>::empty()));
        assert(ledger_between(t.order, 0, 1).unwrap().len() == t.order[0].len());
        let whole = with_transactions(t.transaction_refs, ledger_of(state, t)).unwrap();
        let part = ledger_with_transactions(state, t, limit).unwrap();
        assert(part.len() < whole.len());
    }
}

/// With a smaller limit the query for the ledger gives the end of what it gives with a larger one.
pub proof fn law_smaller_limit_gives_the_end(
    state: ChainState,
    t: Records,
    smaller: u64,
    larger: u64,
)
    requires
        smaller <= larger,
        ledger_with_transactions(state, t, larger) is Some,
    ensures
        ledger_with_transactions(state, t, smaller) matches Some(end) && exists|start: Seq<
            (H256, Seq<H256>),
        >|
            ledger_with_transactions(state, t, larger).unwrap() == #[trigger] (start + end),
{
    let tip = state.proposer_ledger_tip;
    let a = bottom_level(tip, larger) as nat;
    let b = bottom_level(tip, smaller) as nat;
    let c = (tip + 1) as nat;
    lemma_between_splits(t.order, a, b, c);
    let first = ledger_between(t.order, a, b).unwrap();
    let second = ledger_between(t.order, b, c).unwrap();
    let both = first + second;
    assert forall|i: int| 0 <= i < second.len() implies t.transaction_refs.contains_key(
        #[trigger] second[i],
    ) by {
        assert(both[first.len() + i] == second[i]);
    }
    assert forall|i: int| 0 <= i < first.len() implies t.transaction_refs.contains_key(
        #[trigger] first[i],
    ) by {
        assert(both[i] == first[i]);
    }
    let start = with_transactions(t.transaction_refs, first).unwrap();
    let end = ledger_with_transactions(state, t, smaller).unwrap();
    assert(ledger_with_transactions(state, t, larger).unwrap() =~= start + end);
}

/// The ends of the proposer tree: the first block that was heard on level 1, the best block and its
/// level; all zero where level 1 has no block.
pub proof fn law_proposer_ends(state: ChainState, t: Records)
    ensures
        ({
            let (bottom, best, level) = proposer_ends(state, t);
            if t.tree.contains_key(1) && t.tree[1].len() > 0 {
                &&& bottom == t.tree[1][0]
                &&& best == state.proposer_best.0
                &&& level == state.proposer_best.1
            } else {
                bottom == (0u128, 0u128) && best == (0u128, 0u128) && level == 0
            }
        }),
{
}

/// In a consistent chain the ends of the proposer tree are a block of level 1 and a block of the
/// highest level there is, with that level; all zero if and only if there is only the genesis
/// block.
pub proof fn law_proposer_ends_are_lowest_and_highest(state: ChainState, t: Records)
    requires
        consistent(state, t),
    ensures
        ({
            let (bottom, best, level) = proposer_ends(state, t);
            if exists|block: H256| #[trigger]
                t.proposer_level.contains_key(block) && t.proposer_level[block] > 0 {
                &&& at(t.proposer_level, bottom) == Some(1u64)
                &&& at(t.proposer_level, best) == Some(level)
                &&& forall|block: H256| #[trigger]
                    t.proposer_level.contains_key(block) ==> t.proposer_level[block] <= level
            } else {
                bottom == (0u128, 0u128) && best == (0u128, 0u128) && level == 0
            }
        }),
{
    let top = state.proposer_best.1;
    assert forall|block: H256| #[trigger] t.proposer_level.contains_key(
        block,
    ) implies t.proposer_level[block] <= top by {
        assert(proposer_fits(t, block));
        assert(t.tree.contains_key(t.proposer_level[block]));
    }
    assert(t.tree.contains_key(top));
    assert(level_fits(t, top));
    assert(at(t.proposer_level, t.tree[top][0]) == Some(top));
    if exists|block: H256| #[trigger]
        t.proposer_level.contains_key(block) && t.proposer_level[block] > 0 {
        assert(t.tree.contains_key(1));
        assert(level_fits(t, 1));
        assert(at(t.proposer_level, t.tree[1][0]) == Some(1u64));
    } else {
        assert(top == 0);
        assert(!t.tree.contains_key(1));
    }
}

/// Whether the voter block at an index of a list is of a chain and on level 1, and no later one is.
pub open spec fn last_on_level_one(
    t: Records,
    listed: Seq<(H256, u16)>,
    chain: u16,
    index: int,
) -> bool {
    &&& 0 <= index < listed.len()
    &&& listed[index].1 == chain
    &&& t.voter_level[listed[index].0] == 1
    &&& forall|i: int|
        index < i < listed.len() && (#[trigger] listed[i]).1 == chain ==> t.voter_level[listed[i].0]
            != 1
}

proof fn lemma_bottom_voter(t: Records, listed: Seq<(H256, u16)>, chain: u16)
    ensures
        ({
            let bottom = bottom_voter(t, listed, chain);
            ||| exists|i: int| #[trigger]
                last_on_level_one(t, listed, chain, i) && bottom == listed[i].0
            ||| bottom == (0u128, 0u128) && forall|i: int|
                0 <= i < listed.len() && (#[trigger] listed[i]).1 == chain
                    ==> t.voter_level[listed[i].0] != 1
        }),
    decreases listed.len(),
{
    if listed.len() > 0 {
        let some = listed.drop_last();
        let n = some.len() as int;
        assert(listed[n] == listed.last());
        if listed.last().1 == chain && t.voter_level[listed.last().0] == 1 {
            assert(last_on_level_one(t, listed, chain, n));
        } else {
            lemma_bottom_voter(t, some, chain);
            let bottom = bottom_voter(t, some, chain);
            if exists|i: int| #[trigger]
                last_on_level_one(t, some, chain, i) && bottom == some[i].0 {
                let i = choose|i: int| #[trigger]
                    last_on_level_one(t, some, chain, i) && bottom == some[i].0;
                assert forall|j: int|
                    i < j < listed.len() && (#[trigger] listed[j]).1 == chain
                        implies t.voter_level[listed[j].0] != 1 by {
                    if j < n {
                        assert(some[j] == listed[j]);
                    }
                }
                assert(some[i] == listed[i]);
                assert(last_on_level_one(t, listed, chain, i));
            } else {
                assert forall|j: int|
                    0 <= j < listed.len() && (#[trigger] listed[j]).1 == chain
                        implies t.voter_level[listed[j].0] != 1 by {
                    if j < n {
                        assert(some[j] == listed[j]);
                    }
                }
            }
        }
    }
}

/// The entries of the column of chain numbers are read one by one, each a voter block and its
/// chain number.
pub proof fn law_entries_are_read_one_by_one(
    entries: Seq<(Vec<u8>, Vec<u8>)>,
    listed: Seq<(H256, u16)>,
    n: nat,
)
    requires
        n <= entries.len() == listed.len(),
        forall|i: int|
            0 <= i < entries.len() ==> (#[trigger] entries[i]).0@ == enc_hash(listed[i].0)
                && entries[i].1@ == enc_chain(listed[i].1),
    ensures
        voters_in(entries, n) == Some(listed.subrange(0, n as int)),
    decreases n,
{
    if n > 0 {
        law_entries_are_read_one_by_one(entries, listed, (n - 1) as nat);
        law_hash_round_trip(listed[n - 1].0);
        law_chain_round_trip(listed[n - 1].1);
        assert(entries[n - 1].0@ == enc_hash(listed[n - 1].0));
        assert(listed.subrange(0, n as int) =~= listed.subrange(0, n - 1).push(listed[n - 1]));
    } else {
        assert(listed.subrange(0, 0) =~= Seq::empty());
    }
}

/// The ends of the voter chains, where the entries list voter blocks with their chains. They can be
/// had if and only if these blocks are known, and those on level 1 are on one of the voter chains.
/// For each chain they are the last of its listed blocks that is on level 1, zero if there is none,
/// the best block and its level.
pub proof fn law_voter_ends(
    state: ChainState,
    t: Records,
    entries: Seq<(Vec<u8>, Vec<u8>)>,
    listed: Seq<(H256, u16)>,
)
    requires
        state.wf(),
        entries.len() == listed.len(),
        forall|i: int|
            0 <= i < entries.len() ==> (#[trigger] entries[i]).0@ == enc_hash(listed[i].0)
                && entries[i].1@ == enc_chain(listed[i].1),
    ensures
        voter_ends(state, t, entries) is Some <==> forall|i: int|
            0 <= i < listed.len() ==> t.voter_level.contains_key((#[trigger] listed[i]).0) && (
            t.voter_level[listed[i].0] == 1 ==> listed[i].1 < state.voter_best.len()),
        voter_ends(state, t, entries) matches Some(ends) ==> ends.len() == state.voter_best.len()
            && forall|chain: u16|
            chain < ends.len() ==> {
                let (bottom, best, level) = #[trigger] ends[chain as int];
                &&& best == state.voter_best[chain as int].0
                &&& level == state.voter_best[chain as int].1
                &&& (exists|i: int| #[trigger]
                    last_on_level_one(t, listed, chain, i) && bottom == listed[i].0) || (bottom == (
                0u128,
                0u128,
                ) && forall|i: int|
                    0 <= i < listed.len() && (#[trigger] listed[i]).1 == chain
                        ==> t.voter_level[listed[i].0] != 1)
            },
{
    law_entries_are_read_one_by_one(entries, listed, entries.len());
    assert(listed.subrange(0, listed.len() as int) =~= listed);
    let ends = voter_ends(state, t, entries).unwrap();
    assert forall|chain: u16| voter_ends(state, t, entries) is Some && chain < ends.len() implies {
        let (bottom, best, level) = #[trigger] ends[chain as int];
        &&& best == state.voter_best[chain as int].0
        &&& level == state.voter_best[chain as int].1
        &&& (exists|i: int| #[trigger]
            last_on_level_one(t, listed, chain, i) && bottom == listed[i].0) || (bottom == (
        0u128,
        0u128,
        ) && forall|i: int|
            0 <= i < listed.len() && (#[trigger] listed[i]).1 == chain
                ==> t.voter_level[listed[i].0] != 1)
    } by {
        lemma_bottom_voter(t, listed, chain);
    }
}

/// Where the entries list every voter block of a consistent chain, the first of the ends of a voter
/// chain is one of its blocks on level 1; zero if and only if it has none.
pub proof fn law_voter_ends_are_on_level_one(
    state: ChainState,
    t: Records,
    entries: Seq<(Vec<u8>, Vec<u8>)>,
    listed: Seq<(H256, u16)>,
    chain: u16,
)
    requires
        consistent(state, t),
        entries.len() == listed.len(),
        forall|i: int|
            0 <= i < entries.len() ==> (#[trigger] entries[i]).0@ == enc_hash(listed[i].0)
                && entries[i].1@ == enc_chain(listed[i].1),
        forall|i: int|
            0 <= i < listed.len() ==> t.voter_level.contains_key((#[trigger] listed[i]).0)
                && t.voter_chain[listed[i].0] == listed[i].1,
        forall|block: H256| #[trigger]
            t.voter_level.contains_key(block) ==> listed.contains((block, t.voter_chain[block])),
        chain < state.voter_best.len(),
    ensures
        voter_ends(state, t, entries) matches Some(ends) && {
            let (bottom, best, level) = ends[chain as int];
            &&& at(t.voter_level, best) == Some(level)
            &&& at(t.voter_chain, best) == Some(chain)
            &&& forall|block: H256| #[trigger]
                t.voter_level.contains_key(block) && t.voter_chain[block] == chain
                    ==> t.voter_level[block] <= level
            &&& if level > 0 {
                at(t.voter_level, bottom) == Some(1u64) && at(t.voter_chain, bottom) == Some(chain)
            } else {
                bottom == (0u128, 0u128)
            }
        },
{
    assert forall|i: int| 0 <= i < listed.len() implies t.voter_level.contains_key(
        (#[trigger] listed[i]).0,
    ) && listed[i].1 < state.voter_best.len() by {
        assert(voter_fits(state, t, listed[i].0));
    }
    law_voter_ends(state, t, entries, listed);
    let ends = voter_ends(state, t, entries).unwrap();
    let (bottom, best, level) = ends[chain as int];
    assert(chain_fits(state, t, chain as int));
    assert forall|block: H256| #[trigger]
        t.voter_level.contains_key(block) && t.voter_chain[block] == chain
            implies t.voter_level[block] <= level by {
        assert(voter_fits(state, t, block));
    }
    if exists|i: int| #[trigger]
        last_on_level_one(t, listed, chain, i) && bottom == listed[i].0 {
        let i = choose|i: int| #[trigger]
            last_on_level_one(t, listed, chain, i) && bottom == listed[i].0;
        assert(voter_fits(state, t, listed[i].0));
        assert(t.voter_level[bottom] <= level);
    } else if level > 0 {
        lemma_level_one_below(state, t, best);
        let block = choose|block: H256| #[trigger]
            t.voter_level.contains_key(block) && t.voter_level[block] == 1 && t.voter_chain[block]
                == chain;
        let i = choose|i: int|
            0 <= i < listed.len() && listed[i] == (block, t.voter_chain[block]);
        assert(listed[i].1 == chain);
    }
}

/// A voter block above the genesis block of its chain has an ancestor on level 1.
proof fn lemma_level_one_below(state: ChainState, t: Records, block: H256)
    requires
        voters_fit(state, t),
        t.voter_level.contains_key(block),
        t.voter_level[block] > 0,
    ensures
        exists|other: H256| #[trigger]
            t.voter_level.contains_key(other) && t.voter_level[other] == 1 && t.voter_chain[other]
                == t.voter_chain[block],
    decreases t.voter_level[block],
{
    assert(voter_fits(state, t, block));
    if t.voter_level[block] > 1 {
        lemma_level_one_below(state, t, t.voter_parent[block]);
    }
}

/// The blocks that a voter block is to vote for: on each level above the one that its voter parent
/// has voted up to, and up to that of its proposer parent, the first block that was heard. They can
/// be had if and only if these two levels are known, the first is below the highest there can be,
/// and every level in between has a block.
pub proof fn law_due_votes(t: Records, tip: H256, proposer_parent: H256)
    ensures
        unvoted(t, tip, proposer_parent) is Some <==> {
            &&& t.voted_level.contains_key(tip)
            &&& t.voted_level[tip] < u64::MAX
            &&& t.proposer_level.contains_key(proposer_parent)
            &&& forall|level: u64|
                t.voted_level[tip] < level <= t.proposer_level[proposer_parent]
                    ==> #[trigger] t.tree.contains_key(level) && t.tree[level].len() > 0
        },
        unvoted(t, tip, proposer_parent) matches Some(list) ==> {
            let voted = t.voted_level[tip];
            let last = t.proposer_level[proposer_parent];
            &&& list.len() == (if voted < last {
                last - voted
            } else {
                0
            })
            &&& forall|i: int|
                0 <= i < list.len() ==> #[trigger] list[i] == t.tree[(voted + 1 + i) as u64][0]
        },
{
    if t.voted_level.contains_key(tip) && t.proposer_level.contains_key(proposer_parent) {
        let voted = t.voted_level[tip];
        let last = t.proposer_level[proposer_parent];
        assert forall|level: u64| voted < level <= last implies (#[trigger] has_block(t, level)
            <==> t.tree.contains_key(level) && t.tree[level].len() > 0) by {}
        if forall|level: u64| voted < level <= last ==> #[trigger] has_block(t, level) {
            assert forall|level: u64| voted < level <= last implies #[trigger] t.tree.contains_key(
                level,
            ) && t.tree[level].len() > 0 by {
                assert(has_block(t, level));
            }
        }
    }
}

} // verus!
