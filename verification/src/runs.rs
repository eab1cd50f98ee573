//! Runs of a chain: blocks that enter it and updates of its ledger, in any order.

use vstd::prelude::*;

use crate::block::{Block, Content, H256};
use crate::chain::{insert, ChainState};
use crate::consistency::{
    consistent, counted_votes, leader_of, leaders_fit, tallies, votes_up_to, VoteSet,
};
use crate::election::{lemma_same_votes_same_leader, votes_of};
use crate::insertion::{law_insert, lemma_records_with, valid_block};
use crate::laws::{after_batches, law_update, ledger_of, transactions_in_ledger};
use crate::ledger::{rebuild, update};
use crate::queries::ledger_with_transactions;
use crate::store::{at, list_at, Records};
use crate::votes::lemma_chain_votes_alone;

verus! {

/// What happens to a chain.
pub enum Event {
    /// A block enters.
    Insert(Block),
    /// The ledger is brought up to date.
    Update,
}

/// The chain and its records after an event.
pub open spec fn after_event(state: ChainState, t: Records, event: Event) -> Option<
    (ChainState, Records),
> {
    match event {
        Event::Insert(block) => match insert(state, t, block) {
            Some((now, changes)) => Some((now, t.apply_all(changes))),
            None => None,
        },
        Event::Update => match update(state, t) {
            Some(done) => Some((done.state, after_batches(t, done.batches))),
            None => None,
        },
    }
}

/// The chain and its records after events, one after the other.
pub open spec fn run(state: ChainState, t: Records, events: Seq<Event>) -> Option<
    (ChainState, Records),
>
    decreases events.len(),
{
    if events.len() == 0 {
        Some((state, t))
    } else {
        match run(state, t, events.drop_last()) {
            Some((now, u)) => after_event(now, u, events.last()),
            None => None,
        }
    }
}

/// Whether every block is valid when it enters.
pub open spec fn valid_run(state: ChainState, t: Records, events: Seq<Event>) -> bool
    decreases events.len(),
{
    events.len() > 0 ==> {
        let before = events.drop_last();
        &&& valid_run(state, t, before)
        &&& match events.last() {
            Event::Insert(block) => run(state, t, before) matches Some((_, u)) && valid_block(
                u,
                block,
            ),
            Event::Update => true,
        }
    }
}

/// The blocks that enter, in order.
pub open spec fn blocks_of(events: Seq<Event>) -> Seq<Block>
    decreases events.len(),
{
    if events.len() == 0 {
        Seq::empty()
    } else {
        let before = blocks_of(events.drop_last());
        match events.last() {
            Event::Insert(block) => before.push(block),
            Event::Update => before,
        }
    }
}

/// A run of valid blocks and updates always goes through, and leaves a consistent chain
/// consistent.
pub proof fn law_run_stays_consistent(state: ChainState, t: Records, events: Seq<Event>)
    requires
        consistent(state, t),
        valid_run(state, t, events),
    ensures
        run(state, t, events) matches Some((now, u)) && consistent(now, u),
    decreases events.len(),
{
    if events.len() > 0 {
        law_run_stays_consistent(state, t, events.drop_last());
        let (now, u) = run(state, t, events.drop_last()).unwrap();
        match events.last() {
            Event::Insert(block) => law_insert(now, u, block),
            Event::Update => law_update(now, u),
        }
    }
}

/// Whether two chains and their records have the same blocks: they may differ in the votes that
/// are counted, the leaders and the ledger.
pub open spec fn same_blocks(a: ChainState, t: Records, b: ChainState, u: Records) -> bool {
    &&& a == (ChainState {
        unconfirmed_proposers: a.unconfirmed_proposers,
        proposer_ledger_tip: a.proposer_ledger_tip,
        voter_ledger_tips: a.voter_ledger_tips,
        ..b
    })
    &&& t == (Records { node_votes: t.node_votes, leader: t.leader, order: t.order, ..u })
}

proof fn lemma_insert_alike(a: ChainState, t: Records, b: ChainState, u: Records, block: Block)
    requires
        same_blocks(a, t, b, u),
        insert(a, t, block) is Some,
        insert(b, u, block) is Some,
    ensures
        same_blocks(
            insert(a, t, block).unwrap().0,
            t.apply_all(insert(a, t, block).unwrap().1),
            insert(b, u, block).unwrap().0,
            u.apply_all(insert(b, u, block).unwrap().1),
        ),
{
    lemma_records_with(a, t, block);
    lemma_records_with(b, u, block);
}

/// Runs with the same blocks lead to chains with the same blocks.
proof fn lemma_runs_alike(state: ChainState, t: Records, a: Seq<Event>, b: Seq<Event>)
    requires
        consistent(state, t),
        valid_run(state, t, a),
        valid_run(state, t, b),
        blocks_of(a) == blocks_of(b),
    ensures
        run(state, t, a) is Some,
        run(state, t, b) is Some,
        same_blocks(
            run(state, t, a).unwrap().0,
            run(state, t, a).unwrap().1,
            run(state, t, b).unwrap().0,
            run(state, t, b).unwrap().1,
        ),
    decreases a.len() + b.len(),
{
    law_run_stays_consistent(state, t, a);
    law_run_stays_consistent(state, t, b);
    if a.len() > 0 && a.last() is Update {
        lemma_runs_alike(state, t, a.drop_last(), b);
        law_run_stays_consistent(state, t, a.drop_last());
        let (now, u) = run(state, t, a.drop_last()).unwrap();
        law_update(now, u);
    } else if b.len() > 0 && b.last() is Update {
        lemma_runs_alike(state, t, a, b.drop_last());
        law_run_stays_consistent(state, t, b.drop_last());
        let (now, u) = run(state, t, b.drop_last()).unwrap();
        law_update(now, u);
    } else if a.len() > 0 && b.len() > 0 {
        let first = blocks_of(a.drop_last());
        let second = blocks_of(b.drop_last());
        assert(blocks_of(a).drop_last() =~= first);
        assert(blocks_of(b).drop_last() =~= second);
        let block = blocks_of(a).last();
        assert(a.last() == Event::Insert(block));
        assert(b.last() == Event::Insert(block));
        lemma_runs_alike(state, t, a.drop_last(), b.drop_last());
        let (s1, t1) = run(state, t, a.drop_last()).unwrap();
        let (s2, t2) = run(state, t, b.drop_last()).unwrap();
        lemma_insert_alike(s1, t1, s2, t2, block);
    } else {
        assert(a.len() == 0 && b.len() == 0) by {
            if a.len() > 0 {
                assert(blocks_of(a).len() > 0);
            }
            if b.len() > 0 {
                assert(blocks_of(b).len() > 0);
            }
        }
    }
}

/// Lists that hold the same votes, each once, hold as many votes for each block.
proof fn lemma_same_tallies(
    a: Map<H256, Seq<(u16, u64)>>,
    b: Map<H256, Seq<(u16, u64)>>,
    votes: VoteSet,
    block: H256,
)
    requires
        tallies(a, votes),
        tallies(b, votes),
    ensures
        list_at(a, block).to_set() == list_at(b, block).to_set(),
        votes_of(a, block) == votes_of(b, block),
{
    let x = list_at(a, block);
    let y = list_at(b, block);
    assert forall|vote: (u16, u64)| x.to_set().contains(vote) <==> y.to_set().contains(vote) by {
        assert(x.contains((vote.0, vote.1)) <==> votes.contains((block, vote.0, vote.1)));
        assert(y.contains((vote.0, vote.1)) <==> votes.contains((block, vote.0, vote.1)));
    }
    assert(x.to_set() =~= y.to_set());
    x.unique_seq_to_set();
    y.unique_seq_to_set();
}

/// Chains with the same blocks that count the same votes have the same leaders.
proof fn lemma_same_leaders(t: Records, u: Records, votes: VoteSet)
    requires
        t.tree == u.tree,
        tallies(t.node_votes, votes),
        tallies(u.node_votes, votes),
        leaders_fit(t),
        leaders_fit(u),
    ensures
        t.leader == u.leader,
{
    assert forall|level: u64| at(t.leader, level) == #[trigger] at(u.leader, level) by {
        assert(at(t.leader, level) == leader_of(t, level));
        assert(at(u.leader, level) == leader_of(u, level));
        if t.tree.contains_key(level) {
            let blocks = t.tree[level];
            assert forall|i: int| 0 <= i < blocks.len() implies votes_of(
                t.node_votes,
                #[trigger] blocks[i],
            ) == votes_of(u.node_votes, blocks[i]) by {
                lemma_same_tallies(t.node_votes, u.node_votes, votes, blocks[i]);
            }
            lemma_same_votes_same_leader(t.node_votes, u.node_votes, blocks, blocks.len());
        }
    }
    assert forall|level: u64| t.leader.contains_key(level) <==> u.leader.contains_key(level) by {
        assert(at(t.leader, level) == at(u.leader, level));
    }
    assert forall|level: u64| #[trigger] t.leader.contains_key(level) implies t.leader[level]
        == u.leader[level] by {
        assert(at(t.leader, level) == at(u.leader, level));
    }
    assert(t.leader =~= u.leader);
}

/// Consistent chains with the same blocks that count the same votes have the same ledger.
proof fn lemma_same_ledger(a: ChainState, t: Records, b: ChainState, u: Records)
    requires
        consistent(a, t),
        consistent(b, u),
        same_blocks(a, t, b, u),
        a.voter_ledger_tips == b.voter_ledger_tips,
    ensures
        a == b,
        t.leader == u.leader,
        t.order == u.order,
        counted_votes(a, t) == counted_votes(b, u),
{
    assert forall|vote: (H256, u16, u64)|
        counted_votes(a, t).contains(vote) <==> counted_votes(b, u).contains(vote) by {
        if vote.1 < a.voter_best.len() {
            let tip = a.voter_ledger_tips[vote.1 as int];
            lemma_chain_votes_alone(t, u, tip, t.voter_level[tip]);
            assert(votes_up_to(t, tip) == votes_up_to(u, tip));
        }
    }
    assert(counted_votes(a, t) =~= counted_votes(b, u));
    lemma_same_leaders(t, u, counted_votes(a, t));
    let rebuilt = rebuild(t.leader, t.proposer_refs, 0, t.proposer_level.dom()).unwrap();
    assert forall|level: u64| t.order.contains_key(level) <==> u.order.contains_key(level) by {
        assert(t.order.contains_key(level) <==> level < rebuilt.orders.len());
        assert(u.order.contains_key(level) <==> level < rebuilt.orders.len());
    }
    assert forall|level: u64| #[trigger] t.order.contains_key(level) implies t.order[level]
        == u.order[level] by {
        assert(t.order[level] == rebuilt.orders[level as int]);
        assert(u.order[level] == rebuilt.orders[level as int]);
    }
    assert(t.order =~= u.order);
}

/// The ledger depends on the blocks that have entered and on their order alone, not on when it was
/// brought up to date: two runs with the same blocks that end with an update lead to the same
/// chain, the same leaders, the same ledger and the same votes counted.
pub proof fn law_ledger_depends_on_blocks_alone(
    state: ChainState,
    t: Records,
    a: Seq<Event>,
    b: Seq<Event>,
)
    requires
        consistent(state, t),
        valid_run(state, t, a),
        valid_run(state, t, b),
        blocks_of(a) == blocks_of(b),
        a.len() > 0,
        a.last() is Update,
        b.len() > 0,
        b.last() is Update,
    ensures
        run(state, t, a) is Some,
        run(state, t, b) is Some,
        ({
            let (s1, t1) = run(state, t, a).unwrap();
            let (s2, t2) = run(state, t, b).unwrap();
            &&& s1 == s2
            &&& t1 == (Records { node_votes: t1.node_votes, ..t2 })
            &&& forall|block: H256|
                (#[trigger] list_at(t1.node_votes, block)).to_set() == list_at(
                    t2.node_votes,
                    block,
                ).to_set()
            &&& ledger_of(s1, t1) == ledger_of(s2, t2)
            &&& transactions_in_ledger(s1, t1) == transactions_in_ledger(s2, t2)
            &&& forall|limit: u64| #[trigger]
                ledger_with_transactions(s1, t1, limit) == ledger_with_transactions(s2, t2, limit)
        }),
{
    lemma_runs_alike(state, t, a, b);
    law_run_stays_consistent(state, t, a);
    law_run_stays_consistent(state, t, b);
    law_run_stays_consistent(state, t, a.drop_last());
    law_run_stays_consistent(state, t, b.drop_last());
    let (s1, t1) = run(state, t, a).unwrap();
    let (s2, t2) = run(state, t, b).unwrap();
    let (before1, records1) = run(state, t, a.drop_last()).unwrap();
    let (before2, records2) = run(state, t, b.drop_last()).unwrap();
    law_update(before1, records1);
    law_update(before2, records2);
    lemma_same_ledger(s1, t1, s2, t2);
    assert forall|block: H256|
        (#[trigger] list_at(t1.node_votes, block)).to_set() == list_at(
            t2.node_votes,
            block,
        ).to_set() by {
        lemma_same_tallies(t1.node_votes, t2.node_votes, counted_votes(s1, t1), block);
    }
}

/// The proposer blocks in the order in which they were heard, each with its level, after the block
/// that was the best one at the start.
pub open spec fn heard_proposers(state: ChainState, t: Records, events: Seq<Event>) -> Seq<
    (H256, u64),
>
    decreases events.len(),
{
    if events.len() == 0 {
        seq![state.proposer_best]
    } else {
        let before = heard_proposers(state, t, events.drop_last());
        match (events.last(), run(state, t, events.drop_last())) {
            (Event::Insert(block), Some((_, u))) => if block.content is Proposer {
                before.push((block.hash, (u.proposer_level[block.parent] + 1) as u64))
            } else {
                before
            },
            _ => before,
        }
    }
}

/// The blocks of a voter chain in the order in which they were heard, each with its level, after
/// the block that was the best one at the start.
pub open spec fn heard_voters(
    state: ChainState,
    t: Records,
    events: Seq<Event>,
    chain: u16,
) -> Seq<(H256, u64)>
    decreases events.len(),
{
    if events.len() == 0 {
        seq![state.voter_best[chain as int]]
    } else {
        let before = heard_voters(state, t, events.drop_last(), chain);
        match (events.last(), run(state, t, events.drop_last())) {
            (Event::Insert(block), Some((_, u))) => match block.content {
                Content::Voter(content) => if u.voter_chain[content.voter_parent] == chain {
                    before.push(
                        (block.hash, (u.voter_level[content.voter_parent] + 1) as u64),
                    )
                } else {
                    before
                },
                _ => before,
            },
            _ => before,
        }
    }
}

/// Whether the entry at an index is the first one of the highest level in a list.
pub open spec fn first_of_highest(list: Seq<(H256, u64)>, index: int) -> bool {
    &&& 0 <= index < list.len()
    &&& forall|i: int| 0 <= i < index ==> (#[trigger] list[i]).1 < list[index].1
    &&& forall|i: int| 0 <= i < list.len() ==> (#[trigger] list[i]).1 <= list[index].1
}

proof fn lemma_heard_one_more(list: Seq<(H256, u64)>, index: int, next: (H256, u64))
    requires
        first_of_highest(list, index),
    ensures
        if next.1 > list[index].1 {
            first_of_highest(list.push(next), list.len() as int)
        } else {
            first_of_highest(list.push(next), index) && list.push(next)[index] == list[index]
        },
{
    let more = list.push(next);
    assert forall|i: int| 0 <= i < list.len() implies more[i] == list[i] by {}
}

/// The best proposer block is the first that was heard of the highest level, however blocks and
/// updates follow each other.
pub proof fn law_best_proposer_is_first_of_highest(
    state: ChainState,
    t: Records,
    events: Seq<Event>,
)
    requires
        run(state, t, events) is Some,
    ensures
        exists|index: int| #[trigger]
            first_of_highest(heard_proposers(state, t, events), index) && heard_proposers(
                state,
                t,
                events,
            )[index] == run(state, t, events).unwrap().0.proposer_best,
    decreases events.len(),
{
    let heard = heard_proposers(state, t, events);
    if events.len() == 0 {
        assert(first_of_highest(heard, 0));
    } else {
        law_best_proposer_is_first_of_highest(state, t, events.drop_last());
        let before = heard_proposers(state, t, events.drop_last());
        let (now, u) = run(state, t, events.drop_last()).unwrap();
        let index = choose|index: int| #[trigger]
            first_of_highest(before, index) && before[index] == now.proposer_best;
        match events.last() {
            Event::Insert(block) => {
                if block.content is Proposer {
                    let next = (block.hash, (u.proposer_level[block.parent] + 1) as u64);
                    lemma_heard_one_more(before, index, next);
                    assert(heard == before.push(next));
                    assert(heard[before.len() as int] == next);
                }
            },
            Event::Update => {},
        }
    }
}

/// The best block of a voter chain is the first that was heard of the highest level of the chain,
/// however blocks and updates follow each other.
pub proof fn law_best_voter_is_first_of_highest(
    state: ChainState,
    t: Records,
    events: Seq<Event>,
    chain: u16,
)
    requires
        run(state, t, events) is Some,
        chain < state.voter_best.len(),
    ensures
        run(state, t, events).unwrap().0.voter_best.len() == state.voter_best.len(),
        exists|index: int| #[trigger]
            first_of_highest(heard_voters(state, t, events, chain), index) && heard_voters(
                state,
                t,
                events,
                chain,
            )[index] == run(state, t, events).unwrap().0.voter_best[chain as int],
    decreases events.len(),
{
    let heard = heard_voters(state, t, events, chain);
    if events.len() == 0 {
        assert(first_of_highest(heard, 0));
    } else {
        law_best_voter_is_first_of_highest(state, t, events.drop_last(), chain);
        let before = heard_voters(state, t, events.drop_last(), chain);
        let (now, u) = run(state, t, events.drop_last()).unwrap();
        let index = choose|index: int| #[trigger]
            first_of_highest(before, index) && before[index] == now.voter_best[chain as int];
        match events.last() {
            Event::Insert(block) => {
                match block.content {
                    Content::Voter(content) => {
                        let parent = content.voter_parent;
                        let next = (block.hash, (u.voter_level[parent] + 1) as u64);
                        lemma_heard_one_more(before, index, next);
                        if u.voter_chain[parent] == chain {
                            assert(heard == before.push(next));
                            assert(heard[before.len() as int] == next);
                        }
                    },
                    _ => {},
                }
            },
            Event::Update => {},
        }
    }
}

/// Whether an event brings a transaction block in.
pub open spec fn brings_transaction(event: Event, hash: H256) -> bool {
    event matches Event::Insert(block) && block.content is Transaction && block.hash == hash
}

/// Whether an event brings a proposer block in.
pub open spec fn brings_proposer(event: Event, hash: H256) -> bool {
    event matches Event::Insert(block) && block.content is Proposer && block.hash == hash
}

/// Whether an event brings a proposer block in that refers to a transaction block.
pub open spec fn refers_to_transaction(event: Event, hash: H256) -> bool {
    event matches Event::Insert(block) && block.content matches Content::Proposer(content)
        && content.transaction_refs@.contains(hash)
}

/// Whether an event brings a proposer block in that refers to another one, as its parent or
/// otherwise.
pub open spec fn refers_to_proposer(event: Event, hash: H256) -> bool {
    event matches Event::Insert(block) && block.content matches Content::Proposer(content) && (
    block.parent == hash || content.proposer_refs@.contains(hash))
}

/// Whether no event from an index on refers to a transaction block.
pub open spec fn transaction_left_alone(events: Seq<Event>, from: int, hash: H256) -> bool {
    forall|i: int|
        from <= i < events.len() ==> !refers_to_transaction(#[trigger] events[i], hash)
}

/// Whether no event from an index on refers to a proposer block.
pub open spec fn proposer_left_alone(events: Seq<Event>, from: int, hash: H256) -> bool {
    forall|i: int| from <= i < events.len() ==> !refers_to_proposer(#[trigger] events[i], hash)
}

/// A transaction block is unreferred if and only if it has entered, or was unreferred at the
/// start, and no proposer block that has entered since then refers to it.
pub proof fn law_unreferred_transactions(
    state: ChainState,
    t: Records,
    events: Seq<Event>,
    hash: H256,
)
    requires
        run(state, t, events) is Some,
    ensures
        run(state, t, events).unwrap().0.unreferred_transactions.contains(hash) <==> (
        state.unreferred_transactions.contains(hash) && transaction_left_alone(events, 0, hash))
            || exists|i: int|
            0 <= i < events.len() && brings_transaction(#[trigger] events[i], hash)
                && transaction_left_alone(events, i + 1, hash),
    decreases events.len(),
{
    if events.len() > 0 {
        let before = events.drop_last();
        let last = events.last();
        let n = before.len() as int;
        law_unreferred_transactions(state, t, before, hash);
        assert(events[n] == last);
        assert forall|from: int| 0 <= from <= n implies (#[trigger] transaction_left_alone(
            events,
            from,
            hash,
        ) <==> transaction_left_alone(before, from, hash) && !refers_to_transaction(
            last,
            hash,
        )) by {
            if transaction_left_alone(events, from, hash) {
                assert forall|i: int| from <= i < before.len() implies !refers_to_transaction(
                    #[trigger] before[i],
                    hash,
                ) by {
                    assert(events[i] == before[i]);
                }
                assert(!refers_to_transaction(events[n], hash));
            }
            if transaction_left_alone(before, from, hash) && !refers_to_transaction(last, hash) {
                assert forall|i: int| from <= i < events.len() implies !refers_to_transaction(
                    #[trigger] events[i],
                    hash,
                ) by {
                    if i < n {
                        assert(events[i] == before[i]);
                    }
                }
            }
        }
        assert(transaction_left_alone(events, n + 1, hash));
        let held = exists|i: int|
            0 <= i < before.len() && brings_transaction(#[trigger] before[i], hash)
                && transaction_left_alone(before, i + 1, hash);
        let holds = exists|i: int|
            0 <= i < events.len() && brings_transaction(#[trigger] events[i], hash)
                && transaction_left_alone(events, i + 1, hash);
        assert(holds <==> brings_transaction(last, hash) || (held && !refers_to_transaction(
            last,
            hash,
        ))) by {
            if held && !refers_to_transaction(last, hash) {
                let i = choose|i: int|
                    0 <= i < before.len() && brings_transaction(#[trigger] before[i], hash)
                        && transaction_left_alone(before, i + 1, hash);
                assert(brings_transaction(events[i], hash));
                assert(transaction_left_alone(events, i + 1, hash));
            }
            if brings_transaction(last, hash) {
                assert(brings_transaction(events[n], hash));
            }
            if holds {
                let i = choose|i: int|
                    0 <= i < events.len() && brings_transaction(#[trigger] events[i], hash)
                        && transaction_left_alone(events, i + 1, hash);
                if i < n {
                    assert(before[i] == events[i]);
                    assert(transaction_left_alone(before, i + 1, hash));
                }
            }
        }
    }
}

/// A proposer block is unreferred if and only if it has entered, or was unreferred at the start,
/// and no proposer block that has entered since then refers to it.
pub proof fn law_unreferred_proposers(
    state: ChainState,
    t: Records,
    events: Seq<Event>,
    hash: H256,
)
    requires
        run(state, t, events) is Some,
    ensures
        run(state, t, events).unwrap().0.unreferred_proposers.contains(hash) <==> (
        state.unreferred_proposers.contains(hash) && proposer_left_alone(events, 0, hash))
            || exists|i: int|
            0 <= i < events.len() && brings_proposer(#[trigger] events[i], hash)
                && proposer_left_alone(events, i + 1, hash),
    decreases events.len(),
{
    if events.len() > 0 {
        let before = events.drop_last();
        let last = events.last();
        let n = before.len() as int;
        law_unreferred_proposers(state, t, before, hash);
        assert(events[n] == last);
        assert forall|from: int| 0 <= from <= n implies (#[trigger] proposer_left_alone(
            events,
            from,
            hash,
        ) <==> proposer_left_alone(before, from, hash) && !refers_to_proposer(last, hash)) by {
            if proposer_left_alone(events, from, hash) {
                assert forall|i: int| from <= i < before.len() implies !refers_to_proposer(
                    #[trigger] before[i],
                    hash,
                ) by {
                    assert(events[i] == before[i]);
                }
                assert(!refers_to_proposer(events[n], hash));
            }
            if proposer_left_alone(before, from, hash) && !refers_to_proposer(last, hash) {
                assert forall|i: int| from <= i < events.len() implies !refers_to_proposer(
                    #[trigger] events[i],
                    hash,
                ) by {
                    if i < n {
                        assert(events[i] == before[i]);
                    }
                }
            }
        }
        assert(proposer_left_alone(events, n + 1, hash));
        let held = exists|i: int|
            0 <= i < before.len() && brings_proposer(#[trigger] before[i], hash)
                && proposer_left_alone(before, i + 1, hash);
        let holds = exists|i: int|
            0 <= i < events.len() && brings_proposer(#[trigger] events[i], hash)
                && proposer_left_alone(events, i + 1, hash);
        assert(holds <==> brings_proposer(last, hash) || (held && !refers_to_proposer(
            last,
            hash,
        ))) by {
            if held && !refers_to_proposer(last, hash) {
                let i = choose|i: int|
                    0 <= i < before.len() && brings_proposer(#[trigger] before[i], hash)
                        && proposer_left_alone(before, i + 1, hash);
                assert(brings_proposer(events[i], hash));
                assert(proposer_left_alone(events, i + 1, hash));
            }
            if brings_proposer(last, hash) {
                assert(brings_proposer(events[n], hash));
            }
            if holds {
                let i = choose|i: int|
                    0 <= i < events.len() && brings_proposer(#[trigger] events[i], hash)
                        && proposer_left_alone(events, i + 1, hash);
                if i < n {
                    assert(before[i] == events[i]);
                    assert(proposer_left_alone(before, i + 1, hash));
                }
            }
        }
    }
}

} // verus!
