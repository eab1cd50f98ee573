//! What holds of every chain that can be reached from its genesis blocks, by blocks that enter and
//! updates of the ledger in any order, under what each property needs of the blocks.

use vstd::prelude::*;

use crate::block::{Block, Content, H256};
use crate::chain::{genesis_changes, genesis_state, ChainState};
use crate::consistency::{consistent, counted_votes, leader_of, ledger_fits, tallies};
use crate::election::{law_leader_has_most_votes, leads_at, votes_of};
use crate::invariants::{
    elected, gapless, law_consistent_in_every_part, law_insert_keeps_count,
    law_insert_keeps_elected, law_insert_keeps_ledger_order, law_insert_keeps_levels,
    law_insert_keeps_recorded, law_insert_keeps_root, law_insert_leaves_no_gap,
    law_level_counts_parents, law_recorded_ledger_can_be_had, law_update_counts, law_update_elects,
    law_update_keeps_ledger, law_update_keeps_recorded, law_update_keeps_root,
    law_update_leaves_no_gap, law_update_reports_difference, lemma_transactions_known,
    lemma_update_parts, leveled, linked, nth_parent, recorded, refs_known, rooted, sound,
    votes_once,
};
use crate::laws::{after_batches, ledger_of, reports_difference, transactions_in_ledger};
use crate::ledger::{ledger_between, transactions_of, update, with_best_tips};
use crate::reach::{
    first_reached, law_ledger_holds_what_leaders_reach, law_update_keeps_refs_known, reachable,
    reached_up_to,
};
use crate::dump::{bottom_level, levels_of, picture, total};
use crate::queries::{ledger_with_transactions, unvoted, with_transactions};
use crate::query_laws::{
    law_due_votes_can_be_had, law_limit_of_the_whole_ledger, law_smaller_limit_gives_the_end,
    law_whole_chain_can_be_shown, lists_voters,
};
use crate::whole::{
    law_consistent_is_whole, law_insert_keeps_tree_whole, law_insert_keeps_voters_whole,
    law_insert_keeps_votes_whole, law_update_keeps_votes_whole, law_update_keeps_whole, sound_voter,
    tree_whole, voters_whole, votes_whole,
};
use crate::runs::{run, Event};
use crate::start::{law_genesis, law_genesis_records};
use crate::store::{at, Records};

verus! {

/// The records of the genesis blocks.
pub open spec fn genesis_records(proposer: H256, voters: Seq<H256>) -> Records {
    Records::empty().apply_all(genesis_changes(proposer, voters, voters.len()))
}

/// The chain and its records after events, from the genesis blocks on.
pub open spec fn reached(proposer: H256, voters: Seq<H256>, events: Seq<Event>) -> Option<
    (ChainState, Records),
> {
    run(genesis_state(proposer, voters), genesis_records(proposer, voters), events)
}

/// Whether the genesis blocks are those of at least one voter chain, no two of them alike.
pub open spec fn valid_genesis(voters: Seq<H256>) -> bool {
    voters.no_duplicates() && 0 < voters.len() <= u16::MAX
}

/// Whether every block that enters has a property when it does.
pub open spec fn every_block(
    proposer: H256,
    voters: Seq<H256>,
    events: Seq<Event>,
    holds: spec_fn(Records, Block) -> bool,
) -> bool
    decreases events.len(),
{
    events.len() > 0 ==> {
        let before = events.drop_last();
        &&& every_block(proposer, voters, before, holds)
        &&& match events.last() {
            Event::Insert(block) => reached(proposer, voters, before) matches Some((_, t)) && holds(
                t,
                block,
            ),
            Event::Update => true,
        }
    }
}

/// That a proposer block is new, or recorded already as it is.
pub open spec fn sound_blocks() -> spec_fn(Records, Block) -> bool {
    |t: Records, block: Block| sound(t, block)
}

/// That a voter block is new and no block has a second vote on its chain, or that it is recorded
/// already as it is.
pub open spec fn single_votes() -> spec_fn(Records, Block) -> bool {
    |t: Records, block: Block| votes_once(t, block)
}

/// Whether a proposer block is new, and what it refers to is known.
pub open spec fn refers_to_known(t: Records, block: Block) -> bool {
    block.content matches Content::Proposer(content) ==> !t.proposer_level.contains_key(block.hash)
        && forall|i: int|
        0 <= i < content.proposer_refs@.len() ==> t.proposer_level.contains_key(
            #[trigger] content.proposer_refs@[i],
        )
}

/// That a proposer block is new, and what it refers to is known.
pub open spec fn known_references() -> spec_fn(Records, Block) -> bool {
    |t: Records, block: Block| refers_to_known(t, block)
}

proof fn lemma_start(proposer: H256, voters: Seq<H256>)
    requires
        valid_genesis(voters),
    ensures
        ({
            let state = genesis_state(proposer, voters);
            let t = genesis_records(proposer, voters);
            &&& consistent(state, t)
            &&& gapless(state, t)
            &&& elected(t)
            &&& linked(state, t)
            &&& refs_known(t)
            &&& recorded(t)
            &&& leveled(t, proposer)
        }),
{
    let t = genesis_records(proposer, voters);
    law_genesis(proposer, voters);
    law_genesis_records(proposer, voters, voters.len());
    law_consistent_in_every_part(genesis_state(proposer, voters), t);
    assert(t.tree[0] == seq![proposer]);
}

/// In every chain that can be reached, whatever blocks have entered, the ledger has every level up
/// to its tip and no other, every one of these levels has a leader, and the next one has none.
pub proof fn law_reached_ledger_has_no_gap(proposer: H256, voters: Seq<H256>, events: Seq<Event>)
    requires
        valid_genesis(voters),
        reached(proposer, voters, events) is Some,
    ensures
        reached(proposer, voters, events) matches Some((state, t)) && gapless(state, t),
    decreases events.len(),
{
    lemma_start(proposer, voters);
    if events.len() > 0 {
        law_reached_ledger_has_no_gap(proposer, voters, events.drop_last());
        let (state, t) = reached(proposer, voters, events.drop_last()).unwrap();
        match events.last() {
            Event::Insert(block) => law_insert_leaves_no_gap(state, t, block),
            Event::Update => law_update_leaves_no_gap(state, t),
        }
    }
}

proof fn lemma_reached_recorded(proposer: H256, voters: Seq<H256>, events: Seq<Event>)
    requires
        valid_genesis(voters),
        reached(proposer, voters, events) is Some,
    ensures
        reached(proposer, voters, events) matches Some((state, t)) && state.wf() && recorded(t),
    decreases events.len(),
{
    lemma_start(proposer, voters);
    if events.len() > 0 {
        lemma_reached_recorded(proposer, voters, events.drop_last());
        let (state, t) = reached(proposer, voters, events.drop_last()).unwrap();
        match events.last() {
            Event::Insert(block) => law_insert_keeps_recorded(state, t, block),
            Event::Update => law_update_keeps_recorded(state, t),
        }
    }
}

/// In every chain that can be reached, whatever blocks have entered, the ledger and its
/// transaction blocks can be had, and an update that goes through reports exactly how they change.
pub proof fn law_reached_update_reports_difference(
    proposer: H256,
    voters: Seq<H256>,
    events: Seq<Event>,
)
    requires
        valid_genesis(voters),
        reached(proposer, voters, events) is Some,
    ensures
        ({
            let (state, t) = reached(proposer, voters, events).unwrap();
            let ledger = ledger_of(state, t);
            &&& ledger_between(t.order, 0, (state.proposer_ledger_tip + 1) as nat) is Some
            &&& transactions_of(t.transaction_refs, ledger, ledger.len()) is Some
            &&& update(state, t) matches Some(done) ==> reports_difference(
                transactions_in_ledger(state, t),
                transactions_in_ledger(done.state, after_batches(t, done.batches)),
                done.added,
                done.removed,
            )
        }),
{
    let (state, t) = reached(proposer, voters, events).unwrap();
    law_reached_ledger_has_no_gap(proposer, voters, events);
    lemma_reached_recorded(proposer, voters, events);
    law_recorded_ledger_can_be_had(state, t);
    if update(state, t) is Some {
        law_update_reports_difference(state, t);
    }
}

proof fn lemma_reached_elected(proposer: H256, voters: Seq<H256>, events: Seq<Event>)
    requires
        valid_genesis(voters),
        reached(proposer, voters, events) is Some,
        every_block(proposer, voters, events, sound_blocks()),
    ensures
        reached(proposer, voters, events) matches Some((_, t)) && elected(t) && leveled(
            t,
            proposer,
        ),
    decreases events.len(),
{
    lemma_start(proposer, voters);
    if events.len() > 0 {
        lemma_reached_elected(proposer, voters, events.drop_last());
        let (state, t) = reached(proposer, voters, events.drop_last()).unwrap();
        match events.last() {
            Event::Insert(block) => {
                assert(sound_blocks()(t, block));
                law_insert_keeps_elected(state, t, block);
                law_insert_keeps_levels(state, t, block, proposer);
            },
            Event::Update => {
                law_update_elects(state, t);
                lemma_update_parts(state, t);
            },
        }
    }
}

/// In every chain that is reached by proposer blocks that are new, or recorded already, the leader
/// of a level is the first of its blocks, in the order in which they were heard, that has a vote
/// and no fewer votes than any other; there is none if and only if none of them has a vote.
pub proof fn law_reached_leaders_have_most_votes(
    proposer: H256,
    voters: Seq<H256>,
    events: Seq<Event>,
    level: u64,
)
    requires
        valid_genesis(voters),
        reached(proposer, voters, events) is Some,
        every_block(proposer, voters, events, sound_blocks()),
    ensures
        ({
            let t = reached(proposer, voters, events).unwrap().1;
            let blocks = t.tree[level];
            match at(t.leader, level) {
                Some(block) => t.tree.contains_key(level) && exists|i: int| #[trigger]
                    leads_at(t.node_votes, blocks, blocks.len(), i) && blocks[i] == block,
                None => t.tree.contains_key(level) ==> forall|i: int|
                    0 <= i < blocks.len() ==> votes_of(t.node_votes, #[trigger] blocks[i]) == 0,
            }
        }),
{
    lemma_reached_elected(proposer, voters, events);
    let t = reached(proposer, voters, events).unwrap().1;
    assert(at(t.leader, level) == leader_of(t, level));
    law_leader_has_most_votes(t.node_votes, t.tree[level]);
}

/// In every chain that is reached by proposer blocks that are new, or recorded already, the level
/// of a known proposer block is the number of links from parent to parent down to the genesis
/// block.
pub proof fn law_reached_levels_count_parents(
    proposer: H256,
    voters: Seq<H256>,
    events: Seq<Event>,
    block: H256,
)
    requires
        valid_genesis(voters),
        reached(proposer, voters, events) is Some,
        every_block(proposer, voters, events, sound_blocks()),
        reached(proposer, voters, events).unwrap().1.proposer_level.contains_key(block),
    ensures
        ({
            let t = reached(proposer, voters, events).unwrap().1;
            let level = t.proposer_level[block] as nat;
            &&& nth_parent(t.proposer_refs, block, level) == proposer
            &&& forall|n: nat|
                n < level ==> #[trigger] nth_parent(t.proposer_refs, block, n) != proposer
        }),
{
    lemma_reached_elected(proposer, voters, events);
    law_level_counts_parents(reached(proposer, voters, events).unwrap().1, proposer, block);
}

proof fn lemma_reached_counts(proposer: H256, voters: Seq<H256>, events: Seq<Event>)
    requires
        valid_genesis(voters),
        reached(proposer, voters, events) is Some,
        every_block(proposer, voters, events, single_votes()),
    ensures
        reached(proposer, voters, events) matches Some((state, t)) && linked(state, t) && tallies(
            t.node_votes,
            counted_votes(state, t),
        ),
    decreases events.len(),
{
    lemma_start(proposer, voters);
    if events.len() > 0 {
        lemma_reached_counts(proposer, voters, events.drop_last());
        let (state, t) = reached(proposer, voters, events.drop_last()).unwrap();
        match events.last() {
            Event::Insert(block) => {
                assert(single_votes()(t, block));
                law_insert_keeps_count(state, t, block);
            },
            Event::Update => law_update_counts(state, t),
        }
    }
}

/// In every chain that is reached by voter blocks that are new, or recorded already, and where no
/// block has two votes on a voter chain, the lists of votes hold exactly the votes of the voter
/// chains up to their tips, each once; after an update the tips are the best blocks. What proposer
/// blocks refer to does not matter.
pub proof fn law_reached_votes_are_those_of_the_chains(
    proposer: H256,
    voters: Seq<H256>,
    events: Seq<Event>,
)
    requires
        valid_genesis(voters),
        reached(proposer, voters, events) is Some,
        every_block(proposer, voters, events, single_votes()),
    ensures
        ({
            let (state, t) = reached(proposer, voters, events).unwrap();
            &&& tallies(t.node_votes, counted_votes(state, t))
            &&& events.len() > 0 && events.last() is Update ==> state.voter_ledger_tips
                == with_best_tips(state).voter_ledger_tips
        }),
{
    lemma_reached_counts(proposer, voters, events);
    if events.len() > 0 && events.last() is Update {
        let (state, t) = reached(proposer, voters, events.drop_last()).unwrap();
        lemma_update_parts(state, t);
    }
}

proof fn lemma_reached_order(proposer: H256, voters: Seq<H256>, events: Seq<Event>)
    requires
        valid_genesis(voters),
        reached(proposer, voters, events) is Some,
        every_block(proposer, voters, events, known_references()),
    ensures
        every_block(proposer, voters, events, sound_blocks()),
        reached(proposer, voters, events) matches Some((state, t)) && refs_known(t) && ledger_fits(
            state,
            t,
        ),
    decreases events.len(),
{
    lemma_start(proposer, voters);
    if events.len() > 0 {
        lemma_reached_order(proposer, voters, events.drop_last());
        lemma_reached_elected(proposer, voters, events.drop_last());
        let (state, t) = reached(proposer, voters, events.drop_last()).unwrap();
        match events.last() {
            Event::Insert(block) => {
                assert(known_references()(t, block));
                assert(sound_blocks()(t, block));
                law_insert_keeps_ledger_order(state, t, block);
            },
            Event::Update => {
                law_update_keeps_ledger(state, t);
                law_update_keeps_refs_known(state, t);
            },
        }
    }
}

/// In every chain that is reached by proposer blocks that are new and refer to known blocks, the
/// ledger has the blocks that can be reached from the leaders of its levels, each once. Each level
/// has those that can be reached from its leader, and from the leader of no lower level, and ends
/// with its leader unless a lower level has that. The unconfirmed blocks are the known ones that no
/// leader reaches. How chains vote does not matter.
pub proof fn law_reached_ledger_holds_what_leaders_reach(
    proposer: H256,
    voters: Seq<H256>,
    events: Seq<Event>,
)
    requires
        valid_genesis(voters),
        reached(proposer, voters, events) is Some,
        every_block(proposer, voters, events, known_references()),
    ensures
        ({
            let (state, t) = reached(proposer, voters, events).unwrap();
            let tip = state.proposer_ledger_tip;
            let refs = t.proposer_refs;
            &&& ledger_of(state, t).no_duplicates()
            &&& forall|block: H256| #[trigger]
                ledger_of(state, t).contains(block) <==> reached_up_to(t.leader, refs, tip, block)
            &&& forall|level: u64, block: H256|
                level <= tip ==> (#[trigger] t.order[level].contains(block) <==> first_reached(
                    t.leader,
                    refs,
                    0,
                    level,
                    block,
                ))
            &&& forall|level: u64|
                level <= tip && #[trigger] first_reached(
                    t.leader,
                    refs,
                    0,
                    level,
                    t.leader[level],
                ) ==> t.order[level].len() > 0 && t.order[level].last() == t.leader[level]
            &&& forall|block: H256| #[trigger]
                state.unconfirmed_proposers.contains(block) <==> t.proposer_level.contains_key(
                    block,
                ) && forall|level: u64|
                    level <= tip ==> !reachable(refs, #[trigger] t.leader[level], block)
        }),
{
    lemma_reached_order(proposer, voters, events);
    let (state, t) = reached(proposer, voters, events).unwrap();
    law_ledger_holds_what_leaders_reach(state, t);
}

proof fn lemma_reached_tree_whole(proposer: H256, voters: Seq<H256>, events: Seq<Event>)
    requires
        valid_genesis(voters),
        reached(proposer, voters, events) is Some,
        every_block(proposer, voters, events, sound_blocks()),
    ensures
        reached(proposer, voters, events) matches Some((state, t)) && tree_whole(state, t),
    decreases events.len(),
{
    lemma_start(proposer, voters);
    law_consistent_is_whole(genesis_state(proposer, voters), genesis_records(proposer, voters));
    if events.len() > 0 {
        lemma_reached_tree_whole(proposer, voters, events.drop_last());
        let (state, t) = reached(proposer, voters, events.drop_last()).unwrap();
        match events.last() {
            Event::Insert(block) => {
                assert(sound_blocks()(t, block));
                law_insert_keeps_tree_whole(state, t, block);
            },
            Event::Update => law_update_keeps_whole(state, t),
        }
    }
}

/// That a voter block is new, or recorded already as it is.
pub open spec fn sound_voters() -> spec_fn(Records, Block) -> bool {
    |t: Records, block: Block| sound_voter(t, block)
}

proof fn lemma_reached_voters_whole(proposer: H256, voters: Seq<H256>, events: Seq<Event>)
    requires
        valid_genesis(voters),
        reached(proposer, voters, events) is Some,
        every_block(proposer, voters, events, sound_voters()),
    ensures
        reached(proposer, voters, events) matches Some((state, t)) && voters_whole(state, t),
    decreases events.len(),
{
    lemma_start(proposer, voters);
    law_consistent_is_whole(genesis_state(proposer, voters), genesis_records(proposer, voters));
    if events.len() > 0 {
        lemma_reached_voters_whole(proposer, voters, events.drop_last());
        let (state, t) = reached(proposer, voters, events.drop_last()).unwrap();
        match events.last() {
            Event::Insert(block) => {
                assert(sound_voters()(t, block));
                law_insert_keeps_voters_whole(state, t, block);
            },
            Event::Update => law_update_keeps_whole(state, t),
        }
    }
}

proof fn lemma_reached_votes_whole(proposer: H256, voters: Seq<H256>, events: Seq<Event>)
    requires
        valid_genesis(voters),
        reached(proposer, voters, events) is Some,
    ensures
        reached(proposer, voters, events) matches Some((state, t)) && votes_whole(state, t),
    decreases events.len(),
{
    lemma_start(proposer, voters);
    law_consistent_is_whole(genesis_state(proposer, voters), genesis_records(proposer, voters));
    if events.len() > 0 {
        lemma_reached_votes_whole(proposer, voters, events.drop_last());
        lemma_reached_recorded(proposer, voters, events.drop_last());
        let (state, t) = reached(proposer, voters, events.drop_last()).unwrap();
        match events.last() {
            Event::Insert(block) => law_insert_keeps_votes_whole(state, t, block),
            Event::Update => law_update_keeps_votes_whole(state, t),
        }
    }
}

/// In every chain that can be reached, whatever blocks have entered, the query for the ledger has
/// an answer, with any limit.
pub proof fn law_reached_ledger_can_be_had(
    proposer: H256,
    voters: Seq<H256>,
    events: Seq<Event>,
    limit: u64,
)
    requires
        valid_genesis(voters),
        reached(proposer, voters, events) is Some,
    ensures
        reached(proposer, voters, events) matches Some((state, t)) && ledger_with_transactions(
            state,
            t,
            limit,
        ) is Some,
{
    let (state, t) = reached(proposer, voters, events).unwrap();
    law_reached_ledger_has_no_gap(proposer, voters, events);
    lemma_reached_recorded(proposer, voters, events);
    law_recorded_ledger_can_be_had(state, t);
    let tip = state.proposer_ledger_tip;
    assert(bottom_level(tip, u64::MAX) == 0);
    assert(ledger_with_transactions(state, t, u64::MAX) is Some) by {
        let ledger = ledger_of(state, t);
        assert forall|i: int| 0 <= i < ledger.len() implies t.transaction_refs.contains_key(
            #[trigger] ledger[i],
        ) by {
            lemma_transactions_known(t.transaction_refs, ledger, ledger.len(), i);
        }
    }
    law_smaller_limit_gives_the_end(state, t, limit, u64::MAX);
}

/// In every chain that is reached by blocks that are new, or recorded already, the votes that a
/// voter block is to cast can be had for every known tip and proposer parent: for the first block
/// that was heard on each level that the tip has not voted on, up to that of the proposer parent.
pub proof fn law_reached_due_votes_can_be_had(
    proposer: H256,
    voters: Seq<H256>,
    events: Seq<Event>,
    tip: H256,
    proposer_parent: H256,
)
    requires
        valid_genesis(voters),
        reached(proposer, voters, events) is Some,
        every_block(proposer, voters, events, sound_blocks()),
        every_block(proposer, voters, events, sound_voters()),
        ({
            let t = reached(proposer, voters, events).unwrap().1;
            &&& t.voter_level.contains_key(tip)
            &&& t.proposer_level.contains_key(proposer_parent)
            &&& t.voted_level[tip] < u64::MAX
        }),
    ensures
        ({
            let t = reached(proposer, voters, events).unwrap().1;
            let voted = t.voted_level[tip];
            let last = t.proposer_level[proposer_parent];
            &&& unvoted(t, tip, proposer_parent) matches Some(list) && list.len() == (if voted
                < last {
                last - voted
            } else {
                0
            }) && forall|i: int|
                0 <= i < list.len() ==> #[trigger] list[i] == t.tree[(voted + 1 + i) as u64][0]
        }),
{
    let (state, t) = reached(proposer, voters, events).unwrap();
    lemma_reached_tree_whole(proposer, voters, events);
    lemma_reached_voters_whole(proposer, voters, events);
    law_due_votes_can_be_had(state, t, tip, proposer_parent);
}

/// Every chain that is reached by blocks that are new, or recorded already, can be shown, as long
/// as its numbers are within the machine's range.
pub proof fn law_reached_chain_can_be_shown(
    proposer: H256,
    voters: Seq<H256>,
    events: Seq<Event>,
    listed: Option<Seq<(H256, u16)>>,
    limit: u64,
)
    requires
        valid_genesis(voters),
        reached(proposer, voters, events) is Some,
        every_block(proposer, voters, events, sound_blocks()),
        every_block(proposer, voters, events, sound_voters()),
        ({
            let (state, t) = reached(proposer, voters, events).unwrap();
            &&& listed matches Some(list) ==> lists_voters(t, list)
            &&& state.proposer_best.1 < u64::MAX
            &&& forall|i: int|
                0 <= i < state.voter_best.len() ==> (#[trigger] state.voter_best[i]).1 < u64::MAX
            &&& levels_of(t.tree, 0) matches Some(levels) ==> total(levels, levels.len())
                <= usize::MAX
        }),
    ensures
        reached(proposer, voters, events) matches Some((state, t)) && picture(
            state,
            t,
            listed,
            limit,
        ) is Some,
{
    let (state, t) = reached(proposer, voters, events).unwrap();
    lemma_reached_tree_whole(proposer, voters, events);
    lemma_reached_voters_whole(proposer, voters, events);
    lemma_reached_votes_whole(proposer, voters, events);
    lemma_reached_elected(proposer, voters, events);
    law_reached_ledger_has_no_gap(proposer, voters, events);
    law_reached_ledger_can_be_had(proposer, voters, events, limit);
    let tip = state.proposer_ledger_tip;
    assert(t.leader.contains_key(tip));
    assert(at(t.leader, tip) == leader_of(t, tip));
    law_whole_chain_can_be_shown(state, t, listed, limit);
}

proof fn lemma_reached_rooted(proposer: H256, voters: Seq<H256>, events: Seq<Event>)
    requires
        valid_genesis(voters),
        reached(proposer, voters, events) is Some,
        every_block(proposer, voters, events, sound_blocks()),
    ensures
        reached(proposer, voters, events) matches Some((_, t)) && rooted(t, proposer),
    decreases events.len(),
{
    law_genesis_records(proposer, voters, voters.len());
    if events.len() > 0 {
        let before = events.drop_last();
        lemma_reached_rooted(proposer, voters, before);
        let (state, t) = reached(proposer, voters, before).unwrap();
        match events.last() {
            Event::Insert(block) => {
                assert(sound_blocks()(t, block));
                law_insert_keeps_root(state, t, block, proposer);
            },
            Event::Update => {
                lemma_reached_recorded(proposer, voters, before);
                lemma_reached_elected(proposer, voters, before);
                law_reached_ledger_has_no_gap(proposer, voters, before);
                law_update_keeps_root(state, t, proposer);
            },
        }
    }
}

/// In every chain that is reached by proposer blocks that are new, or recorded already, level 0 of
/// the ledger is the proposer genesis block alone, which has no transaction blocks; and the query
/// for the ledger gives the whole of it if and only if the limit is not below the tip.
pub proof fn law_reached_ledger_starts_with_genesis(
    proposer: H256,
    voters: Seq<H256>,
    events: Seq<Event>,
    limit: u64,
)
    requires
        valid_genesis(voters),
        reached(proposer, voters, events) is Some,
        every_block(proposer, voters, events, sound_blocks()),
    ensures
        ({
            let (state, t) = reached(proposer, voters, events).unwrap();
            let whole = with_transactions(t.transaction_refs, ledger_of(state, t));
            &&& at(t.order, 0) == Some(seq![proposer])
            &&& at(t.transaction_refs, proposer) == Some(Seq::<H256>::empty())
            &&& whole is Some
            &&& ledger_with_transactions(state, t, limit) == whole <==> limit
                >= state.proposer_ledger_tip
        }),
{
    let (state, t) = reached(proposer, voters, events).unwrap();
    lemma_reached_rooted(proposer, voters, events);
    law_reached_ledger_can_be_had(proposer, voters, events, u64::MAX);
    law_limit_of_the_whole_ledger(state, t, limit);
    assert(bottom_level(state.proposer_ledger_tip, u64::MAX) == 0);
}

} // verus!
