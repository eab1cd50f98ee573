//! What updates and blocks keep of a chain, each property under what it needs alone. The chain as
//! a whole need not be consistent for any of them.

use vstd::prelude::*;

use crate::block::{Block, Content, H256};
use crate::chain::{insert, ChainState};
use crate::change::{lemma_apply_all_concat, Change};
use crate::consistency::{
    chain_fits, consistent, counted_votes, genesis_of, leader_of, leaders_fit, ledger_fits,
    level_fits, once, proposer_fits, tallies, voter_fits, votes_up_to,
};
use crate::election::{
    law_leader_has_most_votes, lemma_known_changes_prefix, lemma_leader_changes,
    lemma_leaders_follow_votes,
};
use crate::insertion::{
    lemma_leaders_known, lemma_rebuild_more, lemma_records_with, lemma_votes_known, records_with,
};
use crate::laws::{
    after_batches, law_ledger, ledger_of, lemma_after_batches, lemma_clear, lemma_ledger_between,
    lemma_order, lemma_root_found, lemma_transactions_concat, lemma_transactions_exist,
    reports_difference, transactions_in_ledger,
};
use crate::ledger::{
    affected_levels, all_levels, cleared, elect, front_runner, joined, leader_changes,
    ledger_between, lemma_only_leaders, lemma_only_votes, level_of, ordered, rebuild, relink,
    transactions_of, traverse, update, vote_changes, with_best_tips, Rebuilt,
};
use crate::ordering::{lemma_between_splits, lemma_rebuild, lemma_rebuild_split, lemma_traverse};
use crate::store::{at, list_at, Records};
use crate::tally::{known_changes, lemma_vote_changes_known, lemma_votes_counted, switched_votes};
use crate::votes::{chain_votes, lemma_chain_votes_alone, stamped};

verus! {

/// A rebuilt ledger ends below the first level without a leader.
proof fn lemma_rebuild_tip(
    leader: Map<u64, H256>,
    refs: Map<H256, Seq<H256>>,
    level: u64,
    unconfirmed: Set<H256>,
)
    requires
        rebuild(leader, refs, level, unconfirmed) is Some,
    ensures
        ({
            let rebuilt = rebuild(leader, refs, level, unconfirmed).unwrap();
            &&& rebuilt.tip + 1 == level + rebuilt.orders.len()
            &&& rebuilt.tip < u64::MAX
            &&& forall|l: u64| level <= l <= rebuilt.tip ==> #[trigger] leader.contains_key(l)
            &&& !leader.contains_key((rebuilt.tip + 1) as u64)
        }),
    decreases u64::MAX - level,
{
    if let Some(block) = at(leader, level) {
        let (_, rest) = traverse(refs, seq![block], unconfirmed).unwrap();
        lemma_rebuild_tip(leader, refs, (level + 1) as u64, rest);
    }
}

/// The records once the votes are counted and the leaders elected.
pub open spec fn elected_records(state: ChainState, t: Records) -> Records {
    let votes = vote_changes(state, t, state.voter_best.len()).unwrap();
    let counted = t.apply_all(votes);
    counted.apply_all(
        leader_changes(counted, affected_levels(t, votes), all_levels()).unwrap(),
    )
}

/// The changes of leaders in an update.
pub open spec fn elections(state: ChainState, t: Records) -> Seq<Change> {
    let votes = vote_changes(state, t, state.voter_best.len()).unwrap();
    leader_changes(t.apply_all(votes), affected_levels(t, votes), all_levels()).unwrap()
}

/// The levels of the ledger that a relinking from `begin` on builds.
pub open spec fn relinked_levels(state: ChainState, t: Records, begin: u64) -> Option<Rebuilt> {
    rebuild(
        t.leader,
        t.proposer_refs,
        begin,
        state.unconfirmed_proposers.union(
            ledger_between(
                t.order,
                begin as nat,
                (state.proposer_ledger_tip + 1) as nat,
            ).unwrap().to_set(),
        ),
    )
}

/// What a relinking changes.
pub(crate) proof fn lemma_relink_order(state: ChainState, t: Records, begin: u64)
    requires
        relink(state, t, begin) is Some,
    ensures
        ({
            let relinked = relink(state, t, begin).unwrap();
            let after = t.apply_all(relinked.changes);
            let end = state.proposer_ledger_tip + 1;
            &&& state.proposer_ledger_tip < u64::MAX
            &&& after == (Records { order: after.order, ..t })
            &&& relinked.state == (ChainState {
                unconfirmed_proposers: relinked.state.unconfirmed_proposers,
                proposer_ledger_tip: relinked.state.proposer_ledger_tip,
                ..state
            })
            &&& if begin > end {
                after == t && relinked.state == state
            } else {
                let rebuilt = relinked_levels(state, t, begin).unwrap();
                &&& relinked_levels(state, t, begin) is Some
                &&& relinked.state.proposer_ledger_tip == rebuilt.tip
                &&& rebuilt.tip + 1 == begin + rebuilt.orders.len()
                &&& rebuilt.tip < u64::MAX
                &&& forall|l: u64|
                    begin <= l <= rebuilt.tip ==> #[trigger] t.leader.contains_key(l)
                &&& !t.leader.contains_key((rebuilt.tip + 1) as u64)
                &&& forall|level: u64| #[trigger]
                    at(after.order, level) == if begin <= level <= rebuilt.tip {
                        Some(rebuilt.orders[level - begin])
                    } else if begin <= level < end {
                        None
                    } else {
                        at(t.order, level)
                    }
            }
        }),
{
    let end = (state.proposer_ledger_tip + 1) as nat;
    let relinked = relink(state, t, begin).unwrap();
    let after = t.apply_all(relinked.changes);
    if begin <= end {
        let rebuilt = relinked_levels(state, t, begin).unwrap();
        let removed = ledger_between(t.order, begin as nat, end).unwrap();
        lemma_rebuild_tip(
            t.leader,
            t.proposer_refs,
            begin,
            state.unconfirmed_proposers.union(removed.to_set()),
        );
        let middle = t.apply_all(cleared(begin as nat, end));
        lemma_apply_all_concat(t, cleared(begin as nat, end), ordered(begin, rebuilt.orders));
        lemma_clear(t, begin as nat, end);
        lemma_order(middle, begin, rebuilt.orders);
        assert forall|level: u64| #[trigger] at(after.order, level) == if begin <= level
            <= rebuilt.tip {
            Some(rebuilt.orders[level - begin])
        } else if begin <= level < end {
            None
        } else {
            at(t.order, level)
        } by {
            assert(at(middle.order, level) == if begin <= level < end {
                None
            } else {
                at(t.order, level)
            });
        }
    }
}

/// What an update consists of.
pub(crate) proof fn lemma_update_parts(state: ChainState, t: Records)
    requires
        update(state, t) is Some,
    ensures
        vote_changes(state, t, state.voter_best.len()) is Some,
        known_changes(t, vote_changes(state, t, state.voter_best.len()).unwrap()),
        ({
            let done = update(state, t).unwrap();
            let after = after_batches(t, done.batches);
            let votes = vote_changes(state, t, state.voter_best.len()).unwrap();
            let counted = t.apply_all(votes);
            let leaders = elections(state, t);
            let u = elected_records(state, t);
            let begin = level_of(leaders[0]);
            &&& leader_changes(counted, affected_levels(t, votes), all_levels()) == Some(leaders)
            &&& u == (Records { node_votes: counted.node_votes, leader: u.leader, ..t })
            &&& done.state == (ChainState {
                unconfirmed_proposers: done.state.unconfirmed_proposers,
                proposer_ledger_tip: done.state.proposer_ledger_tip,
                ..with_best_tips(state)
            })
            &&& after == (Records { order: after.order, ..u })
            &&& if leaders.len() == 0 {
                after == u && u.leader == t.leader && done.state == with_best_tips(state)
            } else {
                &&& relink(with_best_tips(state), u, begin) matches Some(relinked) && done.state
                    == relinked.state && after == u.apply_all(relinked.changes)
                &&& at(u.leader, begin) != at(t.leader, begin)
                &&& forall|level: u64|
                    level < begin ==> #[trigger] at(u.leader, level) == at(t.leader, level)
            }
        }),
{
    let n = state.voter_best.len();
    let done = update(state, t).unwrap();
    let votes = vote_changes(state, t, n).unwrap();
    lemma_vote_changes_known(state, t, n);
    lemma_known_changes_prefix(t, votes);
    lemma_only_votes(t, votes);
    let counted = t.apply_all(votes);
    let levels = affected_levels(t, votes);
    lemma_leader_changes(counted, levels, all_levels());
    let leaders = elections(state, t);
    lemma_only_leaders(counted, leaders);
    let u = elected_records(state, t);
    if leaders.len() == 0 {
        lemma_after_batches(t, votes, leaders, leaders);
        assert(u == counted);
    } else {
        let begin = level_of(leaders[0]);
        let relinked = relink(with_best_tips(state), u, begin).unwrap();
        lemma_relink_order(with_best_tips(state), u, begin);
        lemma_after_batches(t, votes, leaders, relinked.changes);
        assert forall|level: u64| level < begin implies #[trigger] at(u.leader, level) == at(
            t.leader,
            level,
        ) by {
            assert(at(u.leader, level) == at(counted.leader, level));
        }
    }
}

proof fn lemma_update_wf(state: ChainState, t: Records)
    requires
        update(state, t) is Some,
        state.wf(),
    ensures
        update(state, t).unwrap().state.wf(),
{
    lemma_update_parts(state, t);
    let leaders = elections(state, t);
    let before = with_best_tips(state);
    let u = elected_records(state, t);
    if leaders.len() > 0 {
        let begin = level_of(leaders[0]);
        let end = (state.proposer_ledger_tip + 1) as nat;
        lemma_relink_order(before, u, begin);
        if begin <= end {
            let removed = ledger_between(u.order, begin as nat, end).unwrap();
            vstd::seq_lib::seq_to_set_is_finite(removed);
            lemma_rebuild(
                u.leader,
                u.proposer_refs,
                begin,
                state.unconfirmed_proposers.union(removed.to_set()),
            );
        }
    }
}

proof fn lemma_between_alike(
    order: Map<u64, Seq<H256>>,
    other: Map<u64, Seq<H256>>,
    begin: nat,
    end: nat,
)
    requires
        end <= all_levels(),
        forall|level: u64| begin <= level < end ==> #[trigger] at(order, level) == at(other, level),
    ensures
        ledger_between(order, begin, end) == ledger_between(other, begin, end),
    decreases end,
{
    if begin < end {
        lemma_between_alike(order, other, begin, (end - 1) as nat);
        assert(at(order, (end - 1) as u64) == at(other, (end - 1) as u64));
    }
}

proof fn lemma_between_ordered(order: Map<u64, Seq<H256>>, begin: u64, orders: Seq<Seq<H256>>)
    requires
        begin + orders.len() <= all_levels(),
        forall|level: u64|
            begin <= level < begin + orders.len() ==> #[trigger] at(order, level) == Some(
                orders[level - begin],
            ),
    ensures
        ledger_between(order, begin as nat, begin as nat + orders.len()) == Some(joined(orders)),
    decreases orders.len(),
{
    if orders.len() > 0 {
        let some = orders.drop_last();
        let last = (begin + orders.len() - 1) as u64;
        assert forall|level: u64| begin <= level < begin + some.len() implies #[trigger] at(
            order,
            level,
        ) == Some(some[level - begin]) by {
            assert(at(order, level) == Some(orders[level - begin]));
        }
        lemma_between_ordered(order, begin, some);
        assert(at(order, last) == Some(orders[last - begin]));
    }
}

/// The ledger before and after a relinking: a common start, and what leaves or enters.
proof fn lemma_relink_splits(state: ChainState, t: Records, begin: u64)
    requires
        relink(state, t, begin) is Some,
        ledger_between(t.order, 0, (state.proposer_ledger_tip + 1) as nat) is Some,
    ensures
        ({
            let relinked = relink(state, t, begin).unwrap();
            let after = t.apply_all(relinked.changes);
            let now = relinked.state;
            let begins = if begin <= state.proposer_ledger_tip + 1 {
                begin as nat
            } else {
                (state.proposer_ledger_tip + 1) as nat
            };
            let kept = ledger_between(t.order, 0, begins);
            &&& kept is Some
            &&& ledger_of(state, t) == kept.unwrap() + relinked.removed
            &&& ledger_between(after.order, 0, (now.proposer_ledger_tip + 1) as nat) == Some(
                kept.unwrap() + relinked.added,
            )
        }),
{
    let end = (state.proposer_ledger_tip + 1) as nat;
    let relinked = relink(state, t, begin).unwrap();
    let after = t.apply_all(relinked.changes);
    lemma_relink_order(state, t, begin);
    let none = Seq::<H256>::empty();
    if begin > end {
        let all = ledger_of(state, t);
        assert(all =~= all + none);
    } else {
        let rebuilt = relinked_levels(state, t, begin).unwrap();
        let top = (rebuilt.tip + 1) as nat;
        lemma_between_splits(t.order, 0, begin as nat, end);
        lemma_between_alike(t.order, after.order, 0, begin as nat);
        lemma_between_ordered(after.order, begin, rebuilt.orders);
        lemma_between_joins(after.order, 0, begin as nat, top);
    }
}

proof fn lemma_between_joins(order: Map<u64, Seq<H256>>, a: nat, b: nat, c: nat)
    requires
        a <= b <= c,
        ledger_between(order, a, b) is Some,
        ledger_between(order, b, c) is Some,
    ensures
        ledger_between(order, a, c) == Some(
            ledger_between(order, a, b).unwrap() + ledger_between(order, b, c).unwrap(),
        ),
    decreases c,
{
    let first = ledger_between(order, a, b).unwrap();
    if b < c {
        lemma_between_joins(order, a, b, (c - 1) as nat);
        let second = ledger_between(order, b, (c - 1) as nat).unwrap();
        let last = order[(c - 1) as u64];
        assert((first + second) + last =~= first + (second + last));
    } else {
        assert(first + Seq::<H256>::empty() =~= first);
    }
}

proof fn lemma_transactions_of_start(
    refs: Map<H256, Seq<H256>>,
    first: Seq<H256>,
    second: Seq<H256>,
    n: nat,
)
    requires
        n <= first.len(),
        transactions_of(refs, first + second, (first + second).len()) is Some,
    ensures
        transactions_of(refs, first, n) is Some,
    decreases n,
{
    if n > 0 {
        lemma_transactions_of_start(refs, first, second, (n - 1) as nat);
        lemma_transactions_known(refs, first + second, (first + second).len(), n - 1);
        assert((first + second)[n - 1] == first[n - 1]);
    }
}

pub(crate) proof fn lemma_transactions_known(
    refs: Map<H256, Seq<H256>>,
    blocks: Seq<H256>,
    n: nat,
    index: int,
)
    requires
        0 <= index < n <= blocks.len(),
        transactions_of(refs, blocks, n) is Some,
    ensures
        refs.contains_key(blocks[index]),
    decreases n,
{
    if index < n - 1 {
        lemma_transactions_known(refs, blocks, (n - 1) as nat, index);
    }
}

/// An update reports exactly how the transaction blocks of the ledger change, whatever the blocks,
/// the votes and the leaders are: all it takes is that the update goes through, and that the
/// ledger before it can be had.
pub proof fn law_update_reports_difference(state: ChainState, t: Records)
    requires
        update(state, t) is Some,
        ledger_between(t.order, 0, (state.proposer_ledger_tip + 1) as nat) is Some,
        transactions_of(
            t.transaction_refs,
            ledger_of(state, t),
            ledger_of(state, t).len(),
        ) is Some,
    ensures
        ({
            let done = update(state, t).unwrap();
            let after = after_batches(t, done.batches);
            let now = done.state;
            let refs = after.transaction_refs;
            &&& ledger_between(after.order, 0, (now.proposer_ledger_tip + 1) as nat) is Some
            &&& transactions_of(refs, ledger_of(now, after), ledger_of(now, after).len()) is Some
            &&& reports_difference(
                transactions_in_ledger(state, t),
                transactions_in_ledger(now, after),
                done.added,
                done.removed,
            )
        }),
{
    lemma_update_parts(state, t);
    let done = update(state, t).unwrap();
    let after = after_batches(t, done.batches);
    let u = elected_records(state, t);
    let leaders = elections(state, t);
    let refs = t.transaction_refs;
    if leaders.len() == 0 {
        let all = transactions_in_ledger(state, t);
        assert(all =~= all + Seq::<H256>::empty());
    } else {
        let begin = level_of(leaders[0]);
        let before = with_best_tips(state);
        let relinked = relink(before, u, begin).unwrap();
        lemma_relink_order(before, u, begin);
        lemma_relink_splits(before, u, begin);
        let end = state.proposer_ledger_tip + 1;
        let kept = ledger_between(
            u.order,
            0,
            if begin <= end {
                begin as nat
            } else {
                end as nat
            },
        ).unwrap();
        assert(ledger_of(state, t) == kept + relinked.removed);
        assert(ledger_of(done.state, after) == kept + relinked.added);
        lemma_transactions_of_start(refs, kept, relinked.removed, kept.len());
        lemma_transactions_concat(refs, kept, relinked.removed, relinked.removed.len());
        lemma_transactions_concat(refs, kept, relinked.added, relinked.added.len());
        let start = transactions_of(refs, kept, kept.len()).unwrap();
        assert(transactions_in_ledger(state, t) == start + done.removed);
        assert(transactions_in_ledger(done.state, after) == start + done.added);
    }
}

/// Whether the ledger has every level up to its tip and no other, and the leaders go as far as the
/// ledger does.
pub open spec fn gapless(state: ChainState, t: Records) -> bool {
    let tip = state.proposer_ledger_tip;
    &&& tip < u64::MAX
    &&& forall|level: u64| #[trigger] t.order.contains_key(level) <==> level <= tip
    &&& forall|level: u64| level <= tip ==> #[trigger] t.leader.contains_key(level)
    &&& !t.leader.contains_key((tip + 1) as u64)
}

/// An update that goes through leaves a ledger without gaps, which goes as far as the leaders do.
pub proof fn law_update_leaves_no_gap(state: ChainState, t: Records)
    requires
        update(state, t) is Some,
        gapless(state, t),
    ensures
        gapless(
            update(state, t).unwrap().state,
            after_batches(t, update(state, t).unwrap().batches),
        ),
{
    lemma_update_parts(state, t);
    let done = update(state, t).unwrap();
    let after = after_batches(t, done.batches);
    let u = elected_records(state, t);
    let leaders = elections(state, t);
    if leaders.len() > 0 {
        let begin = level_of(leaders[0]);
        let tip = state.proposer_ledger_tip;
        lemma_relink_order(with_best_tips(state), u, begin);
        assert forall|level: u64| level < begin implies (t.leader.contains_key(level)
            <==> #[trigger] after.leader.contains_key(level)) by {
            assert(at(u.leader, level) == at(t.leader, level));
        }
        if begin > tip + 1 {
            assert(t.leader.contains_key((tip + 1) as u64) <==> after.leader.contains_key(
                (tip + 1) as u64,
            ));
            assert(gapless(done.state, after));
        } else {
            let rebuilt = relinked_levels(with_best_tips(state), u, begin).unwrap();
            assert forall|level: u64| #[trigger] after.order.contains_key(level) <==> level
                <= rebuilt.tip by {
                assert(at(after.order, level) == if begin <= level <= rebuilt.tip {
                    Some(rebuilt.orders[level - begin])
                } else if begin <= level < tip + 1 {
                    None
                } else {
                    at(t.order, level)
                });
                assert(t.order.contains_key(level) <==> level <= tip);
            }
        }
    }
}

/// A block leaves the ledger without gaps, whatever it refers to.
pub proof fn law_insert_leaves_no_gap(state: ChainState, t: Records, block: Block)
    requires
        insert(state, t, block) is Some,
        gapless(state, t),
    ensures
        gapless(
            insert(state, t, block).unwrap().0,
            t.apply_all(insert(state, t, block).unwrap().1),
        ),
{
    lemma_records_with(state, t, block);
}

/// Whether every level has the leader elected from its blocks, the blocks of a level are of that
/// level, and only known blocks have votes.
pub open spec fn elected(t: Records) -> bool {
    &&& leaders_fit(t)
    &&& forall|level: u64, i: int|
        t.tree.contains_key(level) && 0 <= i < t.tree[level].len() ==> at(
            t.proposer_level,
            #[trigger] t.tree[level][i],
        ) == Some(level)
    &&& forall|block: H256|
        (#[trigger] list_at(t.node_votes, block)).len() > 0 ==> t.proposer_level.contains_key(block)
}

proof fn lemma_votes_stay_known(t: Records, changes: Seq<Change>)
    requires
        known_changes(t, changes),
        forall|block: H256|
            (#[trigger] list_at(t.node_votes, block)).len() > 0 ==> t.proposer_level.contains_key(
                block,
            ),
    ensures
        forall|block: H256|
            (#[trigger] list_at(t.apply_all(changes).node_votes, block)).len() > 0
                ==> t.proposer_level.contains_key(block),
    decreases changes.len(),
{
    if changes.len() > 0 {
        lemma_known_changes_prefix(t, changes);
        let some = changes.drop_last();
        lemma_votes_stay_known(t, some);
        let last = changes.last();
        assert(last is NodeVote);
        let before = t.apply_all(some);
        let after = t.apply_all(changes);
        assert forall|block: H256|
            (#[trigger] list_at(after.node_votes, block)).len() > 0
                implies t.proposer_level.contains_key(block) by {
            if block != last->NodeVote_0 {
                assert(list_at(after.node_votes, block) == list_at(before.node_votes, block));
            }
        }
    }
}

/// An update that goes through leaves every level with the leader elected from its blocks. It
/// takes no condition on what blocks refer to, nor on how often a chain votes.
pub proof fn law_update_elects(state: ChainState, t: Records)
    requires
        update(state, t) is Some,
        elected(t),
    ensures
        elected(after_batches(t, update(state, t).unwrap().batches)),
{
    lemma_update_parts(state, t);
    let n = state.voter_best.len();
    let votes = vote_changes(state, t, n).unwrap();
    let done = update(state, t).unwrap();
    let after = after_batches(t, done.batches);
    let u = elected_records(state, t);
    lemma_leaders_follow_votes(t, votes);
    lemma_votes_stay_known(t, votes);
    assert forall|level: u64| #[trigger] at(after.leader, level) == leader_of(after, level) by {
        assert(at(u.leader, level) == leader_of(u, level));
    }
}

/// Whether a proposer block is new, or recorded already as it is.
pub open spec fn sound(t: Records, block: Block) -> bool {
    block.content is Proposer ==> !t.proposer_level.contains_key(block.hash) || records_with(
        t,
        block,
    ) == t
}

/// A proposer block that is new or recorded already, and any other block, leaves every level with
/// the leader elected from its blocks, whatever it refers to or votes for.
pub proof fn law_insert_keeps_elected(state: ChainState, t: Records, block: Block)
    requires
        insert(state, t, block) is Some,
        elected(t),
        sound(t, block),
    ensures
        elected(t.apply_all(insert(state, t, block).unwrap().1)),
{
    lemma_records_with(state, t, block);
    let after = records_with(t, block);
    if after == t {
    } else if block.content is Proposer {
        let level = (t.proposer_level[block.parent] + 1) as u64;
        let list = list_at(t.tree, level);
        if list.contains(block.hash) {
            let i = choose|i: int| 0 <= i < list.len() && list[i] == block.hash;
            assert(at(t.proposer_level, t.tree[level][i]) == Some(level));
        }
        assert(after.tree[level] == list.push(block.hash));
        assert(list_at(t.node_votes, block.hash).len() == 0);
        assert forall|l: u64, i: int|
            after.tree.contains_key(l) && 0 <= i < after.tree[l].len() implies at(
            after.proposer_level,
            #[trigger] after.tree[l][i],
        ) == Some(l) by {
            if l == level && i == list.len() {
            } else {
                assert(after.tree[l][i] == t.tree[l][i]);
                assert(at(t.proposer_level, t.tree[l][i]) == Some(l));
            }
        }
        assert forall|l: u64| #[trigger] at(after.leader, l) == leader_of(after, l) by {
            assert(at(t.leader, l) == leader_of(t, l));
            if l == level {
                lemma_voteless_last(t.node_votes, list, block.hash);
            }
        }
    } else {
        assert forall|l: u64| #[trigger] at(after.leader, l) == leader_of(after, l) by {
            assert(at(t.leader, l) == leader_of(t, l));
        }
        assert forall|l: u64, i: int|
            after.tree.contains_key(l) && 0 <= i < after.tree[l].len() implies at(
            after.proposer_level,
            #[trigger] after.tree[l][i],
        ) == Some(l) by {
            assert(at(t.proposer_level, t.tree[l][i]) == Some(l));
        }
    }
    assert forall|b: H256|
        (#[trigger] list_at(after.node_votes, b)).len() > 0
            implies after.proposer_level.contains_key(b) by {
        assert(list_at(after.node_votes, b) == list_at(t.node_votes, b));
    }
}

/// A last block without votes does not change who is elected.
proof fn lemma_voteless_last(
    votes: Map<H256, Seq<(u16, u64)>>,
    blocks: Seq<H256>,
    block: H256,
)
    requires
        list_at(votes, block).len() == 0,
    ensures
        elect(votes, blocks.push(block)) == elect(votes, blocks),
{
    lemma_front_runner_of_start(votes, blocks, block, blocks.len());
}

proof fn lemma_front_runner_of_start(
    votes: Map<H256, Seq<(u16, u64)>>,
    blocks: Seq<H256>,
    block: H256,
    n: nat,
)
    requires
        n <= blocks.len(),
    ensures
        front_runner(votes, blocks.push(block), n) == front_runner(
            votes,
            blocks,
            n,
        ),
    decreases n,
{
    if n > 0 {
        lemma_front_runner_of_start(votes, blocks, block, (n - 1) as nat);
        assert(blocks.push(block)[n - 1] == blocks[n - 1]);
    }
}

/// Whether the voter blocks are linked to known parents, one level below, and no block has a
/// second vote on a chain; the best blocks and the tips are known.
pub open spec fn linked(state: ChainState, t: Records) -> bool {
    &&& state.wf()
    &&& forall|block: H256| #[trigger]
        t.voter_level.contains_key(block) ==> once(votes_up_to(t, block)) && (t.voter_level[block]
            > 0 ==> t.voter_level.contains_key(t.voter_parent[block])
            && t.voter_level[t.voter_parent[block]] == t.voter_level[block] - 1)
    &&& forall|chain: int|
        0 <= chain < state.voter_best.len() ==> t.voter_level.contains_key(
            (#[trigger] state.voter_best[chain]).0,
        ) && t.voter_level.contains_key(state.voter_ledger_tips[chain])
}

/// An update that goes through leaves the lists of votes as those of the voter chains up to their
/// best blocks, each vote once. It takes no condition on what proposer blocks refer to.
pub proof fn law_update_counts(state: ChainState, t: Records)
    requires
        update(state, t) is Some,
        linked(state, t),
        tallies(t.node_votes, counted_votes(state, t)),
    ensures
        ({
            let done = update(state, t).unwrap();
            let after = after_batches(t, done.batches);
            &&& done.state.voter_ledger_tips == with_best_tips(state).voter_ledger_tips
            &&& tallies(after.node_votes, counted_votes(done.state, after))
            &&& linked(done.state, after)
        }),
{
    lemma_update_parts(state, t);
    lemma_update_wf(state, t);
    let n = state.voter_best.len();
    let done = update(state, t).unwrap();
    let after = after_batches(t, done.batches);
    assert forall|block: H256| votes_up_to(after, block) == #[trigger] votes_up_to(t, block) by {
        lemma_chain_votes_alone(after, t, block, t.voter_level[block]);
    }
    assert forall|chain: int| 0 <= chain < n implies once(
        votes_up_to(t, #[trigger] state.voter_ledger_tips[chain]),
    ) by {
        assert(t.voter_level.contains_key(state.voter_best[chain].0));
        assert(t.voter_level.contains_key(state.voter_ledger_tips[chain]));
    }
    lemma_votes_counted(state, t, n);
    assert(counted_votes(done.state, after) =~= switched_votes(state, t, n)) by {
        assert forall|vote: (H256, u16, u64)|
            counted_votes(done.state, after).contains(vote) <==> switched_votes(
                state,
                t,
                n,
            ).contains(vote) by {
            if vote.1 < n {
                let best = state.voter_best[vote.1 as int].0;
                assert(votes_up_to(after, best) == votes_up_to(t, best));
            }
        }
    }
    assert forall|chain: int| 0 <= chain < n implies t.voter_level.contains_key(
        (#[trigger] done.state.voter_best[chain]).0,
    ) && t.voter_level.contains_key(done.state.voter_ledger_tips[chain]) by {
        assert(t.voter_level.contains_key(state.voter_best[chain].0));
    }
    assert forall|block: H256| #[trigger] t.voter_level.contains_key(block) implies once(
        votes_up_to(after, block),
    ) by {
        assert(votes_up_to(after, block) == votes_up_to(t, block));
    }
}

/// The votes on the chain of a known voter block do not change with a new one.
proof fn lemma_votes_keep(state: ChainState, t: Records, u: Records, new: H256, block: H256)
    requires
        linked(state, t),
        t.voter_level.contains_key(block),
        !t.voter_level.contains_key(new),
        forall|b: H256| b != new ==> at(u.votes, b) == #[trigger] at(t.votes, b),
        forall|b: H256| b != new ==> u.voter_parent[b] == #[trigger] t.voter_parent[b],
    ensures
        chain_votes(u, block, t.voter_level[block]) == votes_up_to(t, block),
    decreases t.voter_level[block],
{
    assert(at(u.votes, block) == at(t.votes, block));
    assert(list_at(u.votes, block) == list_at(t.votes, block));
    assert(u.voter_parent[block] == t.voter_parent[block]);
    if t.voter_level[block] > 0 {
        lemma_votes_keep(state, t, u, new, t.voter_parent[block]);
    }
}

/// Whether a voter block is new and no block has a second vote on its chain, or it is recorded
/// already as it is.
pub open spec fn votes_once(t: Records, block: Block) -> bool {
    block.content matches Content::Voter(content) ==> records_with(t, block) == t || (
    !t.voter_level.contains_key(block.hash) && once(
        stamped(content.votes@, (t.voter_level[content.voter_parent] + 1) as u64) + votes_up_to(
            t,
            content.voter_parent,
        ),
    ))
}

/// A block keeps the lists of votes those of the voter chains up to their tips, if a voter block
/// is new or recorded already and no block has a second vote on its chain. It takes no condition
/// on what proposer blocks refer to.
pub proof fn law_insert_keeps_count(state: ChainState, t: Records, block: Block)
    requires
        insert(state, t, block) is Some,
        linked(state, t),
        tallies(t.node_votes, counted_votes(state, t)),
        votes_once(t, block),
    ensures
        ({
            let (now, changes) = insert(state, t, block).unwrap();
            let after = t.apply_all(changes);
            &&& tallies(after.node_votes, counted_votes(now, after))
            &&& linked(now, after)
        }),
{
    lemma_records_with(state, t, block);
    let now = insert(state, t, block).unwrap().0;
    let after = records_with(t, block);
    match block.content {
        Content::Voter(content) if after != t => {
            let new = block.hash;
            let parent = content.voter_parent;
            let level = (t.voter_level[parent] + 1) as u64;
            assert forall|b: H256| #[trigger] t.voter_level.contains_key(b) implies votes_up_to(
                after,
                b,
            ) == votes_up_to(t, b) by {
                lemma_votes_keep(state, t, after, new, b);
            }
            assert forall|b: H256| #[trigger] after.voter_level.contains_key(b) implies once(
                votes_up_to(after, b),
            ) && (after.voter_level[b] > 0 ==> after.voter_level.contains_key(
                after.voter_parent[b],
            ) && after.voter_level[after.voter_parent[b]] == after.voter_level[b] - 1) by {
                assert(t.voter_level.contains_key(parent));
                if b == new {
                    lemma_votes_keep(state, t, after, new, parent);
                    assert(votes_up_to(after, new) == stamped(content.votes@, level) + votes_up_to(
                        t,
                        parent,
                    ));
                } else {
                    assert(t.voter_level.contains_key(b));
                }
            }
            assert forall|chain: int|
                0 <= chain < now.voter_best.len() implies after.voter_level.contains_key(
                (#[trigger] now.voter_best[chain]).0,
            ) && after.voter_level.contains_key(now.voter_ledger_tips[chain]) by {
                assert(t.voter_level.contains_key(state.voter_best[chain].0));
            }
            assert forall|vote: (H256, u16, u64)|
                counted_votes(now, after).contains(vote) <==> counted_votes(state, t).contains(
                    vote,
                ) by {
                if vote.1 < state.voter_best.len() {
                    let chain = vote.1 as int;
                    assert(t.voter_level.contains_key(state.voter_best[chain].0));
                    assert(t.voter_level.contains_key(state.voter_ledger_tips[chain]));
                }
            }
            assert(counted_votes(now, after) =~= counted_votes(state, t));
        },
        _ => {
            assert forall|b: H256| votes_up_to(after, b) == #[trigger] votes_up_to(t, b) by {
                lemma_chain_votes_alone(after, t, b, t.voter_level[b]);
            }
            assert forall|b: H256| #[trigger] after.voter_level.contains_key(b) implies once(
                votes_up_to(after, b),
            ) by {
                assert(t.voter_level.contains_key(b));
                assert(votes_up_to(after, b) == votes_up_to(t, b));
            }
            assert forall|vote: (H256, u16, u64)|
                counted_votes(now, after).contains(vote) <==> counted_votes(state, t).contains(
                    vote,
                ) by {
                if vote.1 < state.voter_best.len() {
                    let tip = state.voter_ledger_tips[vote.1 as int];
                    assert(votes_up_to(after, tip) == votes_up_to(t, tip));
                }
            }
            assert(counted_votes(now, after) =~= counted_votes(state, t));
            assert forall|chain: int|
                0 <= chain < now.voter_best.len() implies after.voter_level.contains_key(
                (#[trigger] now.voter_best[chain]).0,
            ) && after.voter_level.contains_key(now.voter_ledger_tips[chain]) by {
                assert(t.voter_level.contains_key(state.voter_best[chain].0));
            }
        },
    }
}

/// Whether what proposer blocks refer to is recorded for the blocks of the ledger, and with the
/// proposer blocks the transaction blocks.
pub open spec fn recorded(t: Records) -> bool {
    &&& forall|block: H256| #[trigger]
        t.proposer_refs.contains_key(block) ==> t.transaction_refs.contains_key(block)
    &&& forall|level: u64, i: int|
        t.order.contains_key(level) && 0 <= i < t.order[level].len()
            ==> t.proposer_refs.contains_key(#[trigger] t.order[level][i])
}

/// What a traversal finds is recorded.
proof fn lemma_found_recorded(
    refs: Map<H256, Seq<H256>>,
    stack: Seq<H256>,
    unconfirmed: Set<H256>,
)
    requires
        unconfirmed.finite(),
        traverse(refs, stack, unconfirmed) is Some,
    ensures
        forall|i: int|
            0 <= i < traverse(refs, stack, unconfirmed).unwrap().0.len() ==> refs.contains_key(
                #[trigger] traverse(refs, stack, unconfirmed).unwrap().0[i],
            ),
    decreases unconfirmed.len(), stack.len(),
{
    if stack.len() > 0 {
        let top = stack.last();
        if !unconfirmed.contains(top) {
            lemma_found_recorded(refs, stack.drop_last(), unconfirmed);
        } else {
            let next = stack.drop_last() + refs[top];
            lemma_found_recorded(refs, next, unconfirmed.remove(top));
            let more = traverse(refs, next, unconfirmed.remove(top)).unwrap().0;
            let blocks = traverse(refs, stack, unconfirmed).unwrap().0;
            assert(blocks == seq![top] + more);
            assert forall|i: int| 0 <= i < blocks.len() implies refs.contains_key(
                #[trigger] blocks[i],
            ) by {
                if i > 0 {
                    assert(blocks[i] == more[i - 1]);
                }
            }
        }
    }
}

proof fn lemma_rebuild_recorded(
    leader: Map<u64, H256>,
    refs: Map<H256, Seq<H256>>,
    level: u64,
    unconfirmed: Set<H256>,
)
    requires
        unconfirmed.finite(),
        rebuild(leader, refs, level, unconfirmed) is Some,
    ensures
        forall|k: int, i: int|
            0 <= k < rebuild(leader, refs, level, unconfirmed).unwrap().orders.len() && 0 <= i
                < rebuild(leader, refs, level, unconfirmed).unwrap().orders[k].len()
                ==> refs.contains_key(
                #[trigger] rebuild(leader, refs, level, unconfirmed).unwrap().orders[k][i],
            ),
    decreases u64::MAX - level,
{
    if let Some(block) = at(leader, level) {
        let (found, rest) = traverse(refs, seq![block], unconfirmed).unwrap();
        lemma_traverse(refs, seq![block], unconfirmed);
        lemma_found_recorded(refs, seq![block], unconfirmed);
        lemma_rebuild_recorded(leader, refs, (level + 1) as u64, rest);
        let next = rebuild(leader, refs, (level + 1) as u64, rest).unwrap();
        let orders = rebuild(leader, refs, level, unconfirmed).unwrap().orders;
        assert(orders == seq![found.reverse()] + next.orders);
        assert forall|k: int, i: int|
            0 <= k < orders.len() && 0 <= i < orders[k].len() implies refs.contains_key(
            #[trigger] orders[k][i],
        ) by {
            if k == 0 {
                assert(orders[0][i] == found[found.len() - 1 - i]);
            } else {
                assert(orders[k] == next.orders[k - 1]);
                assert(refs.contains_key(next.orders[k - 1][i]));
            }
        }
    }
}

/// An update that goes through leaves the ledger recorded.
pub proof fn law_update_keeps_recorded(state: ChainState, t: Records)
    requires
        update(state, t) is Some,
        state.wf(),
        recorded(t),
    ensures
        update(state, t).unwrap().state.wf(),
        recorded(after_batches(t, update(state, t).unwrap().batches)),
{
    lemma_update_wf(state, t);
    lemma_update_parts(state, t);
    let after = after_batches(t, update(state, t).unwrap().batches);
    let u = elected_records(state, t);
    let leaders = elections(state, t);
    let before = with_best_tips(state);
    let end = (state.proposer_ledger_tip + 1) as nat;
    if leaders.len() > 0 {
        let begin = level_of(leaders[0]);
        lemma_relink_order(before, u, begin);
        if begin <= end {
            let removed = ledger_between(u.order, begin as nat, end).unwrap();
            vstd::seq_lib::seq_to_set_is_finite(removed);
            lemma_rebuild_recorded(
                u.leader,
                u.proposer_refs,
                begin,
                state.unconfirmed_proposers.union(removed.to_set()),
            );
            let rebuilt = relinked_levels(before, u, begin).unwrap();
            assert forall|level: u64, i: int|
                after.order.contains_key(level) && 0 <= i < after.order[level].len()
                    implies after.proposer_refs.contains_key(#[trigger] after.order[level][i]) by {
                assert(at(after.order, level) == if begin <= level <= rebuilt.tip {
                    Some(rebuilt.orders[level - begin])
                } else if begin <= level < end {
                    None
                } else {
                    at(t.order, level)
                });
                if begin <= level <= rebuilt.tip {
                    assert(u.proposer_refs.contains_key(rebuilt.orders[level - begin][i]));
                } else {
                    assert(t.proposer_refs.contains_key(t.order[level][i]));
                }
            }
        }
    }
}

/// A block leaves the ledger recorded, whatever it refers to.
pub proof fn law_insert_keeps_recorded(state: ChainState, t: Records, block: Block)
    requires
        insert(state, t, block) is Some,
        state.wf(),
        recorded(t),
    ensures
        insert(state, t, block).unwrap().0.wf(),
        recorded(t.apply_all(insert(state, t, block).unwrap().1)),
{
    lemma_records_with(state, t, block);
    let after = records_with(t, block);
    assert forall|level: u64, i: int|
        after.order.contains_key(level) && 0 <= i < after.order[level].len()
            implies after.proposer_refs.contains_key(#[trigger] after.order[level][i]) by {
        assert(t.proposer_refs.contains_key(t.order[level][i]));
    }
}

/// A recorded ledger without gaps can be had, and so can its transaction blocks.
pub proof fn law_recorded_ledger_can_be_had(state: ChainState, t: Records)
    requires
        gapless(state, t),
        recorded(t),
    ensures
        ledger_between(t.order, 0, (state.proposer_ledger_tip + 1) as nat) is Some,
        transactions_of(
            t.transaction_refs,
            ledger_of(state, t),
            ledger_of(state, t).len(),
        ) is Some,
{
    lemma_recorded_part(state, t, (state.proposer_ledger_tip + 1) as nat);
    lemma_transactions_exist(t.transaction_refs, ledger_of(state, t), ledger_of(state, t).len());
}

proof fn lemma_recorded_part(state: ChainState, t: Records, end: nat)
    requires
        gapless(state, t),
        recorded(t),
        end <= state.proposer_ledger_tip + 1,
    ensures
        ledger_between(t.order, 0, end) is Some,
        forall|i: int|
            0 <= i < ledger_between(t.order, 0, end).unwrap().len()
                ==> t.transaction_refs.contains_key(
                #[trigger] ledger_between(t.order, 0, end).unwrap()[i],
            ),
    decreases end,
{
    if end > 0 {
        lemma_recorded_part(state, t, (end - 1) as nat);
        let before = ledger_between(t.order, 0, (end - 1) as nat).unwrap();
        let level = (end - 1) as u64;
        assert(t.order.contains_key(level));
        let all = ledger_between(t.order, 0, end).unwrap();
        assert(all == before + t.order[level]);
        assert forall|i: int| 0 <= i < all.len() implies t.transaction_refs.contains_key(
            #[trigger] all[i],
        ) by {
            if i < before.len() {
                assert(all[i] == before[i]);
            } else {
                assert(t.proposer_refs.contains_key(t.order[level][i - before.len()]));
            }
        }
    }
}

/// Whether every known proposer block other than the genesis block is one level above its parent,
/// which is the first block that it refers to and is known.
pub open spec fn leveled(t: Records, genesis: H256) -> bool {
    &&& at(t.proposer_level, genesis) == Some(0u64)
    &&& forall|block: H256| #[trigger]
        t.proposer_level.contains_key(block) ==> if t.proposer_level[block] == 0 {
            block == genesis
        } else {
            t.proposer_refs[block].len() > 0 && at(t.proposer_level, t.proposer_refs[block][0])
                == Some((t.proposer_level[block] - 1) as u64)
        }
}

/// A proposer block that is new or recorded already, and any other block, leaves every proposer
/// block one level above its parent, whatever else it refers to.
pub proof fn law_insert_keeps_levels(state: ChainState, t: Records, block: Block, genesis: H256)
    requires
        insert(state, t, block) is Some,
        leveled(t, genesis),
        sound(t, block),
    ensures
        leveled(t.apply_all(insert(state, t, block).unwrap().1), genesis),
{
    lemma_records_with(state, t, block);
    let after = records_with(t, block);
    if after != t {
        assert forall|b: H256| #[trigger] after.proposer_level.contains_key(
            b,
        ) implies if after.proposer_level[b] == 0 {
            b == genesis
        } else {
            after.proposer_refs[b].len() > 0 && at(after.proposer_level, after.proposer_refs[b][0])
                == Some((after.proposer_level[b] - 1) as u64)
        } by {
            assert(t.proposer_level.contains_key(genesis));
            if t.proposer_level.contains_key(b) {
                if t.proposer_level[b] > 0 {
                    assert(t.proposer_level.contains_key(t.proposer_refs[b][0]));
                }
            }
        }
    }
}

proof fn lemma_parents_descend(t: Records, genesis: H256, block: H256, n: nat)
    requires
        leveled(t, genesis),
        t.proposer_level.contains_key(block),
        n <= t.proposer_level[block],
    ensures
        at(t.proposer_level, nth_parent(t.proposer_refs, block, n)) == Some(
            (t.proposer_level[block] - n) as u64,
        ),
    decreases n,
{
    if n > 0 {
        let parent = t.proposer_refs[block][0];
        assert(t.proposer_level.contains_key(parent));
        lemma_parents_descend(t, genesis, parent, (n - 1) as nat);
    }
}

/// The block that is reached by following parents `n` times from a proposer block.
pub open spec fn nth_parent(refs: Map<H256, Seq<H256>>, block: H256, n: nat) -> H256
    decreases n,
{
    if n == 0 {
        block
    } else {
        nth_parent(refs, refs[block][0], (n - 1) as nat)
    }
}

/// The level of a proposer block is the number of links from parent to parent that lead from it
/// to the genesis block; the blocks on the way are known and go down by one level each, so that
/// only the last of them is the genesis block.
pub proof fn law_level_counts_parents(t: Records, genesis: H256, block: H256)
    requires
        leveled(t, genesis),
        t.proposer_level.contains_key(block),
    ensures
        nth_parent(t.proposer_refs, block, t.proposer_level[block] as nat) == genesis,
        forall|n: nat|
            n <= t.proposer_level[block] ==> at(
                t.proposer_level,
                #[trigger] nth_parent(t.proposer_refs, block, n),
            ) == Some((t.proposer_level[block] - n) as u64),
        forall|n: nat|
            n < t.proposer_level[block] ==> #[trigger] nth_parent(t.proposer_refs, block, n)
                != genesis,
{
    let level = t.proposer_level[block];
    assert forall|n: nat| n <= level implies at(
        t.proposer_level,
        #[trigger] nth_parent(t.proposer_refs, block, n),
    ) == Some((level - n) as u64) by {
        lemma_parents_descend(t, genesis, block, n);
    }
    let bottom = nth_parent(t.proposer_refs, block, level as nat);
    assert(t.proposer_level.contains_key(bottom));
}

/// An update that goes through leaves the ledger as the one that the leaders give, whatever the
/// blocks refer to and however often a chain votes.
pub proof fn law_update_keeps_ledger(state: ChainState, t: Records)
    requires
        update(state, t) is Some,
        t.proposer_level.dom().finite(),
        ledger_fits(state, t),
    ensures
        ledger_fits(
            update(state, t).unwrap().state,
            after_batches(t, update(state, t).unwrap().batches),
        ),
{
    lemma_update_parts(state, t);
    let done = update(state, t).unwrap();
    let after = after_batches(t, done.batches);
    let u = elected_records(state, t);
    let leaders = elections(state, t);
    let all = t.proposer_level.dom();
    let refs = t.proposer_refs;
    let tip = state.proposer_ledger_tip;
    let end = (tip + 1) as nat;
    let rebuilt = rebuild(t.leader, refs, 0, all).unwrap();
    let orders = rebuilt.orders;
    lemma_rebuild(t.leader, refs, 0, all);
    if leaders.len() > 0 {
        let begin = level_of(leaders[0]);
        let before = with_best_tips(state);
        lemma_relink_order(before, u, begin);
        lemma_ledger_between(t.order, orders, 0, end);
        if begin > end {
            lemma_rebuild_split(t.leader, u.leader, refs, 0, all, end as u64);
            let dropped = orders.subrange(end as int, orders.len() as int);
            assert(dropped =~= Seq::empty());
            let left = rebuilt.unconfirmed.union(joined(dropped).to_set());
            assert(left =~= rebuilt.unconfirmed);
            assert(at(u.leader, end as u64) == at(t.leader, end as u64));
            let tail = rebuild(u.leader, refs, end as u64, left).unwrap();
            assert(orders.subrange(0, end as int) + tail.orders =~= orders);
        } else {
            let kept = orders.subrange(0, begin as int);
            let dropped = orders.subrange(begin as int, end as int);
            lemma_ledger_between(t.order, orders, begin as nat, end);
            lemma_rebuild_split(t.leader, u.leader, refs, 0, all, begin);
            let tail = relinked_levels(before, u, begin).unwrap();
            let now = rebuild(after.leader, refs, 0, all).unwrap();
            assert(now.orders == kept + tail.orders);
            assert forall|level: u64| #[trigger] after.order.contains_key(level) <==> level
                < now.orders.len() by {
                assert(at(after.order, level) == if begin <= level <= tail.tip {
                    Some(tail.orders[level - begin])
                } else if begin <= level < end {
                    None
                } else {
                    at(t.order, level)
                });
                assert(t.order.contains_key(level) <==> level < orders.len());
            }
            assert forall|level: u64| level < now.orders.len() implies #[trigger] after.order[level]
                == now.orders[level as int] by {
                assert(after.order.contains_key(level));
                assert(at(after.order, level) == if begin <= level <= tail.tip {
                    Some(tail.orders[level - begin])
                } else if begin <= level < end {
                    None
                } else {
                    at(t.order, level)
                });
                if level < begin {
                    assert(t.order.contains_key(level));
                    assert(t.order[level] == orders[level as int]);
                }
            }
        }
    }
}

/// Whether what a known proposer block refers to is recorded and known, and the leaders are known.
pub open spec fn refs_known(t: Records) -> bool {
    &&& t.proposer_level.dom().finite()
    &&& forall|block: H256| #[trigger]
        t.proposer_level.contains_key(block) ==> t.proposer_refs.contains_key(block)
    &&& forall|block: H256, i: int|
        t.proposer_level.contains_key(block) && 0 <= i < t.proposer_refs[block].len()
            ==> t.proposer_level.contains_key(#[trigger] t.proposer_refs[block][i])
    &&& forall|level: u64| #[trigger]
        t.leader.contains_key(level) ==> t.proposer_level.contains_key(t.leader[level])
}

/// A block keeps the ledger the one that the leaders give, if a proposer block is new and refers
/// to known blocks. It takes no condition on how often a chain votes.
pub proof fn law_insert_keeps_ledger_order(state: ChainState, t: Records, block: Block)
    requires
        insert(state, t, block) is Some,
        refs_known(t),
        ledger_fits(state, t),
        block.content matches Content::Proposer(content) ==> !t.proposer_level.contains_key(
            block.hash,
        ) && forall|i: int|
            0 <= i < content.proposer_refs@.len() ==> t.proposer_level.contains_key(
                #[trigger] content.proposer_refs@[i],
            ),
    ensures
        ({
            let (now, changes) = insert(state, t, block).unwrap();
            let after = t.apply_all(changes);
            &&& refs_known(after)
            &&& ledger_fits(now, after)
        }),
{
    lemma_records_with(state, t, block);
    let (now, changes) = insert(state, t, block).unwrap();
    let after = records_with(t, block);
    if let Content::Proposer(content) = block.content {
        let new = block.hash;
        let all = t.proposer_level.dom();
        let refs = seq![block.parent] + content.proposer_refs@;
        assert forall|b: H256, i: int|
            after.proposer_level.contains_key(b) && 0 <= i < after.proposer_refs[b].len()
                implies after.proposer_level.contains_key(
            #[trigger] after.proposer_refs[b][i],
        ) by {
            if b == new {
                if i > 0 {
                    assert(refs[i] == content.proposer_refs@[i - 1]);
                }
            } else {
                assert(t.proposer_level.contains_key(t.proposer_refs[b][i]));
            }
        }
        assert forall|other: H256| #[trigger] all.contains(
            other,
        ) implies t.proposer_refs.contains_key(other) && after.proposer_refs.contains_key(other)
            && after.proposer_refs[other] == t.proposer_refs[other]
            && !t.proposer_refs[other].contains(new) by {
            assert(t.proposer_level.contains_key(other));
            if t.proposer_refs[other].contains(new) {
                let list = t.proposer_refs[other];
                let i = choose|i: int| 0 <= i < list.len() && list[i] == new;
                assert(t.proposer_level.contains_key(t.proposer_refs[other][i]));
            }
        }
        assert forall|l: u64| #[trigger] t.leader.contains_key(l) implies t.leader[l] != new by {
            assert(t.proposer_level.contains_key(t.leader[l]));
        }
        lemma_rebuild_more(t.leader, t.proposer_refs, after.proposer_refs, 0, all, new);
        assert(after.proposer_level.dom() =~= all.insert(new));
        let rebuilt = rebuild(t.leader, t.proposer_refs, 0, all).unwrap();
        assert forall|level: u64| #[trigger] after.order.contains_key(level) <==> level
            < rebuilt.orders.len() by {
            assert(t.order.contains_key(level) <==> level < rebuilt.orders.len());
        }
        assert(ledger_fits(now, after));
    } else {
        assert forall|b: H256, i: int|
            after.proposer_level.contains_key(b) && 0 <= i < after.proposer_refs[b].len()
                implies after.proposer_level.contains_key(
            #[trigger] after.proposer_refs[b][i],
        ) by {
            assert(t.proposer_level.contains_key(t.proposer_refs[b][i]));
        }
    }
}

/// Whether the genesis block is alone on level 0 of the proposer tree and of the ledger, and refers
/// to no block.
pub open spec fn rooted(t: Records, genesis: H256) -> bool {
    &&& at(t.proposer_level, genesis) == Some(0u64)
    &&& at(t.tree, 0) == Some(seq![genesis])
    &&& at(t.order, 0) == Some(seq![genesis])
    &&& at(t.proposer_refs, genesis) == Some(Seq::<H256>::empty())
    &&& at(t.transaction_refs, genesis) == Some(Seq::<H256>::empty())
}

/// A proposer block that is new or recorded already, and any other block, leaves the genesis block
/// alone on level 0, whatever it refers to.
pub proof fn law_insert_keeps_root(state: ChainState, t: Records, block: Block, genesis: H256)
    requires
        insert(state, t, block) is Some,
        rooted(t, genesis),
        sound(t, block),
    ensures
        rooted(t.apply_all(insert(state, t, block).unwrap().1), genesis),
{
    lemma_records_with(state, t, block);
}

/// An update that goes through leaves the genesis block alone on level 0, whatever the blocks refer
/// to and however often a chain votes.
pub proof fn law_update_keeps_root(state: ChainState, t: Records, genesis: H256)
    requires
        update(state, t) is Some,
        state.wf(),
        gapless(state, t),
        elected(t),
        rooted(t, genesis),
    ensures
        rooted(after_batches(t, update(state, t).unwrap().batches), genesis),
{
    law_update_elects(state, t);
    law_update_leaves_no_gap(state, t);
    lemma_update_parts(state, t);
    let after = after_batches(t, update(state, t).unwrap().batches);
    let u = elected_records(state, t);
    let leaders = elections(state, t);
    let before = with_best_tips(state);
    let end = (state.proposer_ledger_tip + 1) as nat;
    assert(after.leader.contains_key(0));
    assert(at(after.leader, 0) == leader_of(after, 0));
    law_leader_has_most_votes(after.node_votes, after.tree[0]);
    assert(u.leader[0] == genesis);
    if leaders.len() > 0 {
        let begin = level_of(leaders[0]);
        lemma_relink_order(before, u, begin);
        if begin == 0 {
            let removed = ledger_between(u.order, 0, end).unwrap();
            lemma_between_splits(u.order, 0, 1, end);
            assert(ledger_between(u.order, 0, 0) == Some(Seq::<H256>::empty()));
            assert(removed[0] == genesis);
            assert(removed.contains(genesis));
            vstd::seq_lib::seq_to_set_is_finite(removed);
            let unconfirmed = state.unconfirmed_proposers.union(removed.to_set());
            lemma_root_found(u.proposer_refs, genesis, unconfirmed);
            let rebuilt = relinked_levels(before, u, begin).unwrap();
            assert(rebuilt.orders[0] == seq![genesis].reverse());
            assert(seq![genesis].reverse() =~= seq![genesis]);
            assert(at(after.order, 0) == Some(rebuilt.orders[0]));
        } else {
            assert(at(after.order, 0) == at(t.order, 0));
        }
    }
}

/// A consistent chain has these properties.
pub proof fn law_consistent_in_every_part(state: ChainState, t: Records)
    requires
        consistent(state, t),
    ensures
        gapless(state, t),
        elected(t),
        linked(state, t),
        refs_known(t),
        leveled(t, genesis_of(t)),
{
    law_ledger(state, t);
    assert forall|block: H256| #[trigger] t.proposer_level.contains_key(
        block,
    ) implies if t.proposer_level[block] == 0 {
        block == genesis_of(t)
    } else {
        t.proposer_refs[block].len() > 0 && at(t.proposer_level, t.proposer_refs[block][0])
            == Some((t.proposer_level[block] - 1) as u64)
    } by {
        assert(proposer_fits(t, block));
        if t.proposer_level[block] == 0 {
            assert(t.tree[0].contains(block));
        } else {
            assert(t.proposer_level.contains_key(t.proposer_refs[block][0]));
        }
    }
    assert(level_fits(t, 0));
    assert(at(t.proposer_level, t.tree[0][0]) == Some(0u64));
    assert forall|level: u64, i: int|
        t.tree.contains_key(level) && 0 <= i < t.tree[level].len() implies at(
        t.proposer_level,
        #[trigger] t.tree[level][i],
    ) == Some(level) by {
        assert(level_fits(t, level));
    }
    assert forall|block: H256|
        (#[trigger] list_at(t.node_votes, block)).len() > 0 implies t.proposer_level.contains_key(
        block,
    ) by {
        let list = list_at(t.node_votes, block);
        let (chain, level) = list[0];
        assert(list.contains((chain, level)));
        assert(counted_votes(state, t).contains((block, chain, level)));
        assert(chain_fits(state, t, chain as int));
        lemma_votes_known(
            state,
            t,
            state.voter_ledger_tips[chain as int],
            (block, level),
        );
    }
    assert forall|block: H256| #[trigger] t.voter_level.contains_key(block) implies once(
        votes_up_to(t, block),
    ) && (t.voter_level[block] > 0 ==> t.voter_level.contains_key(t.voter_parent[block])
        && t.voter_level[t.voter_parent[block]] == t.voter_level[block] - 1) by {
        assert(voter_fits(state, t, block));
    }
    assert forall|chain: int|
        0 <= chain < state.voter_best.len() implies t.voter_level.contains_key(
        (#[trigger] state.voter_best[chain]).0,
    ) && t.voter_level.contains_key(state.voter_ledger_tips[chain]) by {
        assert(chain_fits(state, t, chain));
    }
    assert forall|block: H256| #[trigger] t.proposer_level.contains_key(
        block,
    ) implies t.proposer_refs.contains_key(block) by {
        assert(proposer_fits(t, block));
    }
    assert forall|block: H256, i: int|
        t.proposer_level.contains_key(block) && 0 <= i < t.proposer_refs[block].len()
            implies t.proposer_level.contains_key(#[trigger] t.proposer_refs[block][i]) by {
        assert(proposer_fits(t, block));
    }
    assert forall|level: u64| #[trigger] t.leader.contains_key(
        level,
    ) implies t.proposer_level.contains_key(t.leader[level]) by {
        lemma_leaders_known(state, t, level);
    }
}

} // verus!
