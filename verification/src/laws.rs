//! What holds of the ledger: it follows the votes, and an update reports how it changes.

use vstd::prelude::*;

use crate::block::H256;
use crate::chain::ChainState;
use crate::change::{lemma_apply_all_concat, Change};
use crate::consistency::{
    chain_fits, consistent, counted_votes, genesis_of, leader_of, leaders_fit, ledger_fits,
    level_fits, proposer_fits, proposers_fit, tallies, unreferred_fit, voter_fits, voters_fit,
    votes_up_to,
};
use crate::election::{
    law_leader_has_most_votes, lemma_affected_electable, lemma_leaders_follow_votes, votes_of,
};
use crate::insertion::lemma_leaders_known;
use crate::ledger::{
    affected_levels, all_levels, cleared, joined, leader_changes, ledger_between,
    lemma_only_leaders, lemma_only_votes, level_of, only_votes, ordered, rebuild, relink,
    transactions_of, traverse, update, vote_changes, vote_list, with_best_tips, Updated,
};
use crate::ordering::{
    confirms, lemma_joined_concat, lemma_leader_confirmed_below, lemma_rebuild,
    lemma_rebuild_closed, lemma_rebuild_ends, lemma_rebuild_split,
};
use crate::store::{at, list_at, Records};
use crate::tally::{lemma_count_votes, switched_votes};
use crate::votes::{law_diff_of_same, lemma_chain_votes_alone};

verus! {

/// Every voter chain votes for the proposer genesis block.
proof fn lemma_chain_votes_for_genesis(state: ChainState, t: Records, block: H256)
    requires
        voters_fit(state, t),
        t.voter_level.contains_key(block),
    ensures
        votes_up_to(t, block).contains((genesis_of(t), 0)),
    decreases t.voter_level[block],
{
    let level = t.voter_level[block];
    let votes = votes_up_to(t, block);
    assert(voter_fits(state, t, block));
    if level == 0 {
        assert(t.votes[block][0] == genesis_of(t));
        assert(votes[0] == (genesis_of(t), 0u64));
    } else {
        let parent = t.voter_parent[block];
        lemma_chain_votes_for_genesis(state, t, parent);
        let below = votes_up_to(t, parent);
        let i = choose|i: int| 0 <= i < below.len() && below[i] == (genesis_of(t), 0u64);
        assert(votes[list_at(t.votes, block).len() + i] == (genesis_of(t), 0u64));
    }
}

/// Changes that take levels of the ledger away leave everything else as it is.
pub(crate) proof fn lemma_clear(t: Records, begin: nat, end: nat)
    requires
        end <= all_levels(),
    ensures
        ({
            let after = t.apply_all(cleared(begin, end));
            &&& after == (Records { order: after.order, ..t })
            &&& forall|level: u64| #[trigger]
                at(after.order, level) == if begin <= level < end {
                    None
                } else {
                    at(t.order, level)
                }
        }),
    decreases end,
{
    let changes = cleared(begin, end);
    if begin < end {
        assert(changes.drop_last() =~= cleared(begin, (end - 1) as nat));
        assert(changes.last() == Change::NoOrder((end - 1) as u64));
        lemma_clear(t, begin, (end - 1) as nat);
        let before = t.apply_all(cleared(begin, (end - 1) as nat));
        let after = t.apply_all(changes);
        assert forall|level: u64| #[trigger] at(after.order, level) == if begin <= level < end {
            None
        } else {
            at(t.order, level)
        } by {
            assert(at(before.order, level) == if begin <= level < end - 1 {
                None
            } else {
                at(t.order, level)
            });
        }
    } else {
        assert(changes =~= Seq::empty());
    }
}

/// Changes that set levels of the ledger leave everything else as it is.
pub(crate) proof fn lemma_order(t: Records, begin: u64, orders: Seq<Seq<H256>>)
    requires
        begin + orders.len() <= all_levels(),
    ensures
        ({
            let after = t.apply_all(ordered(begin, orders));
            &&& after == (Records { order: after.order, ..t })
            &&& forall|level: u64| #[trigger]
                at(after.order, level) == if begin <= level < begin + orders.len() {
                    Some(orders[level - begin])
                } else {
                    at(t.order, level)
                }
        }),
    decreases orders.len(),
{
    let changes = ordered(begin, orders);
    if orders.len() > 0 {
        let some = orders.drop_last();
        assert(changes.drop_last() =~= ordered(begin, some));
        assert(changes.last() == Change::Order(
            (begin + orders.len() - 1) as u64,
            orders.last(),
        ));
        lemma_order(t, begin, some);
        let before = t.apply_all(ordered(begin, some));
        let after = t.apply_all(changes);
        assert forall|level: u64| #[trigger] at(after.order, level) == if begin <= level < begin
            + orders.len() {
            Some(orders[level - begin])
        } else {
            at(t.order, level)
        } by {
            assert(at(before.order, level) == if begin <= level < begin + some.len() {
                Some(some[level - begin])
            } else {
                at(t.order, level)
            });
        }
    }
}

/// The blocks of the ledger between two levels.
pub(crate) proof fn lemma_ledger_between(
    order: Map<u64, Seq<H256>>,
    orders: Seq<Seq<H256>>,
    begin: nat,
    end: nat,
)
    requires
        begin <= end <= orders.len() <= all_levels(),
        forall|level: u64| #[trigger] order.contains_key(level) <==> level < orders.len(),
        forall|level: u64|
            level < orders.len() ==> #[trigger] order[level] == orders[level as int],
    ensures
        ledger_between(order, begin, end) == Some(
            joined(orders.subrange(begin as int, end as int)),
        ),
    decreases end,
{
    if begin < end {
        lemma_ledger_between(order, orders, begin, (end - 1) as nat);
        let some = orders.subrange(begin as int, end as int);
        assert(some.drop_last() =~= orders.subrange(begin as int, end - 1));
        assert(order.contains_key((end - 1) as u64));
        assert(order[(end - 1) as u64] == orders[end - 1]);
        assert(some.last() == orders[end - 1]);
    } else {
        assert(orders.subrange(begin as int, end as int) =~= Seq::empty());
    }
}

/// The transaction blocks of proposer blocks can be had if what these refer to is known.
pub(crate) proof fn lemma_transactions_exist(refs: Map<H256, Seq<H256>>, blocks: Seq<H256>, n: nat)
    requires
        n <= blocks.len(),
        forall|i: int| 0 <= i < blocks.len() ==> refs.contains_key(#[trigger] blocks[i]),
    ensures
        transactions_of(refs, blocks, n) is Some,
    decreases n,
{
    if n > 0 {
        lemma_transactions_exist(refs, blocks, (n - 1) as nat);
        assert(refs.contains_key(blocks[n - 1]));
    }
}

/// The records after batches of changes, made one after the other.
pub open spec fn after_batches(t: Records, batches: Seq<Seq<Change>>) -> Records
    decreases batches.len(),
{
    if batches.len() == 0 {
        t
    } else {
        after_batches(t, batches.drop_last()).apply_all(batches.last())
    }
}

pub(crate) proof fn lemma_after_batches(t: Records, a: Seq<Change>, b: Seq<Change>, c: Seq<Change>)
    ensures
        after_batches(t, seq![a, b]) == t.apply_all(a).apply_all(b),
        after_batches(t, seq![a, b, c]) == t.apply_all(a).apply_all(b).apply_all(c),
{
    let none = Seq::<Seq<Change>>::empty();
    assert(seq![a].drop_last() =~= none);
    assert(after_batches(t, none) == t);
    assert(after_batches(t, seq![a]) == t.apply_all(a));
    assert(seq![a, b].drop_last() =~= seq![a]);
    assert(after_batches(t, seq![a, b]) == t.apply_all(a).apply_all(b));
    let all = seq![a, b, c];
    assert(all.drop_last() =~= seq![a, b]);
    assert(all.last() == c);
    assert(after_batches(t, all) == after_batches(t, all.drop_last()).apply_all(all.last()));
}

/// The blocks of the ledger, in order.
pub open spec fn ledger_of(state: ChainState, t: Records) -> Seq<H256> {
    ledger_between(t.order, 0, (state.proposer_ledger_tip + 1) as nat).unwrap()
}

/// The transaction blocks of the ledger, in order.
pub open spec fn transactions_in_ledger(state: ChainState, t: Records) -> Seq<H256> {
    let ledger = ledger_of(state, t);
    transactions_of(t.transaction_refs, ledger, ledger.len()).unwrap()
}

/// Counting votes and electing leaders keeps what holds of the blocks.
proof fn lemma_blocks_fit(state: ChainState, t: Records, u: Records)
    requires
        consistent(state, t),
        u == (Records { node_votes: u.node_votes, leader: u.leader, ..t }),
    ensures
        proposers_fit(with_best_tips(state), u),
        voters_fit(with_best_tips(state), u),
        unreferred_fit(with_best_tips(state), u),
        counted_votes(with_best_tips(state), u) == switched_votes(
            state,
            t,
            state.voter_best.len(),
        ),
{
    let now = with_best_tips(state);
    assert forall|block: H256| #[trigger] u.proposer_level.contains_key(
        block,
    ) implies proposer_fits(u, block) by {
        assert(proposer_fits(t, block));
    }
    assert forall|level: u64| #[trigger] u.tree.contains_key(level) implies level_fits(
        u,
        level,
    ) by {
        assert(level_fits(t, level));
    }
    assert forall|block: H256| votes_up_to(u, block) == #[trigger] votes_up_to(t, block) by {
        lemma_chain_votes_alone(u, t, block, t.voter_level[block]);
    }
    assert forall|block: H256| #[trigger] u.voter_level.contains_key(block) implies voter_fits(
        now,
        u,
        block,
    ) by {
        assert(voter_fits(state, t, block));
        assert(votes_up_to(u, block) == votes_up_to(t, block));
    }
    assert forall|chain: int| 0 <= chain < now.voter_best.len() implies #[trigger] chain_fits(
        now,
        u,
        chain,
    ) by {
        assert(chain_fits(state, t, chain));
    }
    assert(counted_votes(now, u) =~= switched_votes(state, t, state.voter_best.len())) by {
        assert forall|vote: (H256, u16, u64)|
            counted_votes(now, u).contains(vote) <==> switched_votes(
                state,
                t,
                state.voter_best.len(),
            ).contains(vote) by {
            if vote.1 < state.voter_best.len() {
                let best = state.voter_best[vote.1 as int].0;
                assert(now.voter_ledger_tips[vote.1 as int] == best);
                assert(votes_up_to(u, best) == votes_up_to(t, best));
            }
        }
    }
}

/// Level 0 has a leader as long as there is a voter chain.
proof fn lemma_genesis_leads(state: ChainState, u: Records)
    requires
        proposers_fit(state, u),
        voters_fit(state, u),
        tallies(u.node_votes, counted_votes(state, u)),
        leaders_fit(u),
    ensures
        u.leader.contains_key(0),
{
    let genesis = genesis_of(u);
    assert(chain_fits(state, u, 0));
    let tip = state.voter_ledger_tips[0];
    lemma_chain_votes_for_genesis(state, u, tip);
    assert(counted_votes(state, u).contains((genesis, 0u16, 0u64)));
    assert(list_at(u.node_votes, genesis).contains((0u16, 0u64)));
    assert(u.tree.contains_key(0));
    law_leader_has_most_votes(u.node_votes, u.tree[0]);
    assert(votes_of(u.node_votes, u.tree[0][0]) > 0);
    assert(at(u.leader, 0) == leader_of(u, 0));
}

/// Rebuilding the ledger from the first level whose leader changes keeps it the one that the
/// leaders give.
proof fn lemma_relink(state: ChainState, old_records: Records, t: Records, begin: u64)
    requires
        state.wf(),
        proposers_fit(state, t),
        leaders_fit(t),
        t.leader.contains_key(0),
        ledger_fits(state, old_records),
        old_records == (Records {
            node_votes: old_records.node_votes,
            leader: old_records.leader,
            ..t
        }),
        forall|level: u64|
            level < begin ==> #[trigger] at(t.leader, level) == at(old_records.leader, level),
    ensures
        relink(state, t, begin) is Some,
        ({
            let relinked = relink(state, t, begin).unwrap();
            let after = t.apply_all(relinked.changes);
            &&& after == (Records { order: after.order, ..t })
            &&& relinked.state == (ChainState {
                unconfirmed_proposers: relinked.state.unconfirmed_proposers,
                proposer_ledger_tip: relinked.state.proposer_ledger_tip,
                ..state
            })
            &&& relinked.state.wf()
            &&& ledger_fits(relinked.state, after)
            &&& relinked.added.to_set().subset_of(t.proposer_level.dom())
            &&& relinked.removed.to_set().subset_of(t.proposer_level.dom())
            &&& exists|kept: Seq<H256>|
                ledger_of(state, t) == #[trigger] (kept + relinked.removed) && ledger_of(
                    relinked.state,
                    after,
                ) == kept + relinked.added
        }),
{
    let all = t.proposer_level.dom();
    let refs = t.proposer_refs;
    let old_leader = old_records.leader;
    assert(old_records.order == t.order);
    assert(old_records.proposer_refs == refs);
    assert(old_records.proposer_level.dom() == all);
    let rebuilt = rebuild(old_leader, refs, 0, all).unwrap();
    lemma_rebuild(old_leader, refs, 0, all);
    let tip = state.proposer_ledger_tip;
    let end = (tip + 1) as nat;
    let orders = rebuilt.orders;
    assert(end == orders.len());
    lemma_ledger_between(t.order, orders, 0, end);
    assert(orders.subrange(0, end as int) =~= orders);
    let none = Seq::<H256>::empty();
    if begin > end {
        assert(ledger_between(t.order, begin as nat, end) == Some(none));
        let relinked = relink(state, t, begin).unwrap();
        let after = t.apply_all(relinked.changes);
        assert(after == t);
        lemma_rebuild_split(old_leader, t.leader, refs, 0, all, end as u64);
        let dropped = orders.subrange(end as int, orders.len() as int);
        assert(dropped =~= Seq::empty());
        assert(at(t.leader, end as u64) == at(old_leader, end as u64));
        let left = rebuilt.unconfirmed.union(joined(dropped).to_set());
        assert(left =~= rebuilt.unconfirmed);
        let tail = rebuild(t.leader, refs, end as u64, left).unwrap();
        assert(orders + tail.orders =~= orders);
        assert(ledger_fits(state, t));
        assert(ledger_of(state, t) =~= ledger_of(state, t) + none);
        assert(none.to_set().subset_of(all));
    } else {
        let kept = orders.subrange(0, begin as int);
        let dropped = orders.subrange(begin as int, end as int);
        let removed = joined(dropped);
        lemma_ledger_between(t.order, orders, begin as nat, end);
        lemma_rebuild_split(old_leader, t.leader, refs, 0, all, begin);
        assert(kept + dropped =~= orders);
        lemma_joined_concat(kept, dropped);
        let blocks = joined(orders);
        let unconfirmed = state.unconfirmed_proposers.union(removed.to_set());
        assert forall|block: H256| unconfirmed.contains(block) implies all.contains(block) by {
            if removed.contains(block) {
                let i = choose|i: int| 0 <= i < removed.len() && removed[i] == block;
                assert(blocks[joined(kept).len() + i] == block);
                assert(blocks.to_set().contains(block));
            }
        }
        assert forall|block: H256| unconfirmed.contains(block) implies refs.dom().contains(
            block,
        ) by {
            assert(t.proposer_level.contains_key(block));
            assert(proposer_fits(t, block));
        }
        vstd::seq_lib::seq_to_set_is_finite(removed);
        assert forall|level: u64| #[trigger] t.leader.contains_key(level) implies level
            <= state.proposer_best.1 by {
            assert(at(t.leader, level) == leader_of(t, level));
        }
        lemma_rebuild_ends(t.leader, refs, begin, unconfirmed, state.proposer_best.1);
        lemma_rebuild(t.leader, refs, begin, unconfirmed);
        let tail = rebuild(t.leader, refs, begin, unconfirmed).unwrap();
        let relinked = relink(state, t, begin).unwrap();
        let middle = t.apply_all(cleared(begin as nat, end));
        lemma_apply_all_concat(t, cleared(begin as nat, end), ordered(begin, tail.orders));
        lemma_clear(t, begin as nat, end);
        lemma_order(middle, begin, tail.orders);
        let after = t.apply_all(relinked.changes);
        let now = rebuild(after.leader, refs, 0, all).unwrap();
        assert(now.orders == kept + tail.orders);
        assert forall|level: u64| #[trigger] after.order.contains_key(level) <==> level
            < now.orders.len() by {
            assert(at(middle.order, level) == if begin <= level < end {
                None
            } else {
                at(t.order, level)
            });
            assert(at(after.order, level) == if begin <= level < begin + tail.orders.len() {
                Some(tail.orders[level - begin])
            } else {
                at(middle.order, level)
            });
            assert(t.order.contains_key(level) <==> level < orders.len());
        }
        assert forall|level: u64| level < now.orders.len() implies #[trigger] after.order[level]
            == now.orders[level as int] by {
            assert(after.order.contains_key(level));
            assert(at(middle.order, level) == if begin <= level < end {
                None
            } else {
                at(t.order, level)
            });
            assert(at(after.order, level) == if begin <= level < begin + tail.orders.len() {
                Some(tail.orders[level - begin])
            } else {
                at(middle.order, level)
            });
            if level < begin {
                assert(t.order.contains_key(level));
                assert(t.order[level] == orders[level as int]);
                assert(kept[level as int] == orders[level as int]);
            }
        }
        assert(ledger_fits(relinked.state, after));
        lemma_ledger_between(after.order, now.orders, 0, now.orders.len());
        assert(now.orders.subrange(0, now.orders.len() as int) =~= now.orders);
        lemma_joined_concat(kept, tail.orders);
        assert(ledger_of(state, t) == joined(kept) + relinked.removed);
        assert(ledger_of(relinked.state, after) == joined(kept) + relinked.added);
        assert(relinked.removed.to_set().subset_of(all)) by {
            assert(removed.to_set().subset_of(unconfirmed));
        }
        assert(relinked.added.to_set().subset_of(all));
    }
}

pub(crate) proof fn lemma_transactions_concat(
    refs: Map<H256, Seq<H256>>,
    first: Seq<H256>,
    second: Seq<H256>,
    n: nat,
)
    requires
        n <= second.len(),
        transactions_of(refs, first, first.len()) is Some,
        transactions_of(refs, second, n) is Some,
    ensures
        transactions_of(refs, first + second, first.len() + n) == Some(
            transactions_of(refs, first, first.len()).unwrap() + transactions_of(
                refs,
                second,
                n,
            ).unwrap(),
        ),
    decreases n,
{
    let all = first + second;
    let start = transactions_of(refs, first, first.len()).unwrap();
    if n == 0 {
        lemma_transactions_prefix(refs, first, second, first.len());
        assert(start + Seq::<H256>::empty() =~= start);
    } else {
        lemma_transactions_concat(refs, first, second, (n - 1) as nat);
        assert(all[first.len() + n - 1] == second[n - 1]);
        let before = transactions_of(refs, second, (n - 1) as nat).unwrap();
        let list = refs[second[n - 1]];
        assert((start + before) + list =~= start + (before + list));
    }
}

proof fn lemma_transactions_prefix(
    refs: Map<H256, Seq<H256>>,
    first: Seq<H256>,
    second: Seq<H256>,
    n: nat,
)
    requires
        n <= first.len(),
    ensures
        transactions_of(refs, first + second, n) == transactions_of(refs, first, n),
    decreases n,
{
    if n > 0 {
        lemma_transactions_prefix(refs, first, second, (n - 1) as nat);
        assert((first + second)[n - 1] == first[n - 1]);
    }
}

/// The blocks of the ledger can be had, and so can their transaction blocks.
pub(crate) proof fn lemma_ledger_exists(state: ChainState, t: Records)
    requires
        proposers_fit(state, t),
        ledger_fits(state, t),
    ensures
        ledger_between(t.order, 0, (state.proposer_ledger_tip + 1) as nat) is Some,
        ledger_of(state, t).no_duplicates(),
        ledger_of(state, t).to_set().subset_of(t.proposer_level.dom()),
        state.unconfirmed_proposers == t.proposer_level.dom().difference(
            ledger_of(state, t).to_set(),
        ),
        transactions_of(
            t.transaction_refs,
            ledger_of(state, t),
            ledger_of(state, t).len(),
        ) is Some,
{
    let all = t.proposer_level.dom();
    lemma_rebuild(t.leader, t.proposer_refs, 0, all);
    let rebuilt = rebuild(t.leader, t.proposer_refs, 0, all).unwrap();
    let orders = rebuilt.orders;
    lemma_ledger_between(t.order, orders, 0, orders.len());
    assert(orders.subrange(0, orders.len() as int) =~= orders);
    let ledger = ledger_of(state, t);
    assert(ledger == joined(orders));
    lemma_known_blocks(state, t, ledger);
    lemma_transactions_exist(t.transaction_refs, ledger, ledger.len());
}

pub(crate) proof fn lemma_known_blocks(state: ChainState, t: Records, blocks: Seq<H256>)
    requires
        proposers_fit(state, t),
        blocks.to_set().subset_of(t.proposer_level.dom()),
    ensures
        forall|i: int|
            0 <= i < blocks.len() ==> t.transaction_refs.contains_key(#[trigger] blocks[i]),
{
    assert forall|i: int| 0 <= i < blocks.len() implies t.transaction_refs.contains_key(
        #[trigger] blocks[i],
    ) by {
        assert(blocks.to_set().contains(blocks[i]));
        assert(t.proposer_level.contains_key(blocks[i]));
        assert(proposer_fits(t, blocks[i]));
    }
}

/// A ledger that was rebuilt leaves the chain consistent.
proof fn lemma_relinked_consistent(
    state: ChainState,
    t: Records,
    now: ChainState,
    after: Records,
)
    requires
        state.wf(),
        now.wf(),
        proposers_fit(state, t),
        voters_fit(state, t),
        unreferred_fit(state, t),
        tallies(t.node_votes, counted_votes(state, t)),
        leaders_fit(t),
        after == (Records { order: after.order, ..t }),
        now == (ChainState {
            unconfirmed_proposers: now.unconfirmed_proposers,
            proposer_ledger_tip: now.proposer_ledger_tip,
            ..state
        }),
        ledger_fits(now, after),
    ensures
        consistent(now, after),
{
    assert forall|block: H256| #[trigger] after.proposer_level.contains_key(
        block,
    ) implies proposer_fits(after, block) by {
        assert(proposer_fits(t, block));
    }
    assert forall|level: u64| #[trigger] after.tree.contains_key(level) implies level_fits(
        after,
        level,
    ) by {
        assert(level_fits(t, level));
    }
    assert forall|block: H256| votes_up_to(after, block) == #[trigger] votes_up_to(t, block) by {
        lemma_chain_votes_alone(after, t, block, t.voter_level[block]);
    }
    assert forall|block: H256| #[trigger] after.voter_level.contains_key(
        block,
    ) implies voter_fits(now, after, block) by {
        assert(voter_fits(state, t, block));
        assert(votes_up_to(after, block) == votes_up_to(t, block));
    }
    assert forall|chain: int| 0 <= chain < now.voter_best.len() implies #[trigger] chain_fits(
        now,
        after,
        chain,
    ) by {
        assert(chain_fits(state, t, chain));
    }
    assert(counted_votes(now, after) =~= counted_votes(state, t)) by {
        assert forall|vote: (H256, u16, u64)|
            counted_votes(now, after).contains(vote) <==> counted_votes(state, t).contains(
                vote,
            ) by {
            if vote.1 < state.voter_best.len() {
                let tip = state.voter_ledger_tips[vote.1 as int];
                assert(votes_up_to(after, tip) == votes_up_to(t, tip));
            }
        }
    }
    assert forall|level: u64| #[trigger] at(after.leader, level) == leader_of(after, level) by {
        assert(at(t.leader, level) == leader_of(t, level));
    }
}

/// What holds once the votes are counted and the leaders elected.
proof fn lemma_settled(state: ChainState, t: Records)
    requires
        consistent(state, t),
    ensures
        vote_changes(state, t, state.voter_best.len()) is Some,
        ({
            let now = with_best_tips(state);
            let votes = vote_changes(state, t, state.voter_best.len()).unwrap();
            let counted = t.apply_all(votes);
            let found = leader_changes(counted, affected_levels(t, votes), all_levels());
            let leaders = found.unwrap();
            let u = counted.apply_all(leaders);
            &&& found is Some
            &&& u == (Records { node_votes: u.node_votes, leader: u.leader, ..t })
            &&& now.wf()
            &&& proposers_fit(now, u)
            &&& voters_fit(now, u)
            &&& unreferred_fit(now, u)
            &&& tallies(u.node_votes, counted_votes(now, u))
            &&& leaders_fit(u)
            &&& leaders.len() == 0 ==> u.leader == t.leader
            &&& leaders.len() > 0 ==> forall|level: u64|
                level < level_of(leaders[0]) ==> #[trigger] at(u.leader, level) == at(
                    t.leader,
                    level,
                )
        }),
{
    let n = state.voter_best.len();
    lemma_count_votes(state, t, n);
    let votes = vote_changes(state, t, n).unwrap();
    assert(only_votes(votes));
    let counted = t.apply_all(votes);
    lemma_only_votes(t, votes);
    assert forall|block: H256| #[trigger] t.proposer_level.contains_key(
        block,
    ) implies t.tree.contains_key(t.proposer_level[block]) by {
        assert(proposer_fits(t, block));
    }
    assert forall|level: u64, i: int|
        t.tree.contains_key(level) && 0 <= i < t.tree[level].len() implies at(
        t.proposer_level,
        #[trigger] t.tree[level][i],
    ) == Some(level) by {
        assert(level_fits(t, level));
    }
    lemma_affected_electable(t, votes);
    lemma_leaders_follow_votes(t, votes);
    let leaders = leader_changes(counted, affected_levels(t, votes), all_levels()).unwrap();
    lemma_only_leaders(counted, leaders);
    lemma_blocks_fit(state, t, counted.apply_all(leaders));
}

/// Rebuilding the ledger reports how its transaction blocks change.
proof fn lemma_relink_reports(state: ChainState, old_records: Records, t: Records, begin: u64)
    requires
        state.wf(),
        proposers_fit(state, t),
        voters_fit(state, t),
        unreferred_fit(state, t),
        tallies(t.node_votes, counted_votes(state, t)),
        leaders_fit(t),
        ledger_fits(state, old_records),
        old_records == (Records {
            node_votes: old_records.node_votes,
            leader: old_records.leader,
            ..t
        }),
        forall|level: u64|
            level < begin ==> #[trigger] at(t.leader, level) == at(old_records.leader, level),
    ensures
        relink(state, t, begin) is Some,
        ({
            let relinked = relink(state, t, begin).unwrap();
            let after = t.apply_all(relinked.changes);
            let refs = t.transaction_refs;
            let added = transactions_of(refs, relinked.added, relinked.added.len());
            let removed = transactions_of(refs, relinked.removed, relinked.removed.len());
            &&& consistent(relinked.state, after)
            &&& after == (Records { order: after.order, ..t })
            &&& relinked.state == (ChainState {
                unconfirmed_proposers: relinked.state.unconfirmed_proposers,
                proposer_ledger_tip: relinked.state.proposer_ledger_tip,
                ..state
            })
            &&& added is Some
            &&& removed is Some
            &&& exists|kept: Seq<H256>|
                transactions_in_ledger(state, t) == #[trigger] (kept + removed.unwrap())
                    && transactions_in_ledger(relinked.state, after) == kept + added.unwrap()
        }),
{
    lemma_genesis_leads(state, t);
    lemma_relink(state, old_records, t, begin);
    let relinked = relink(state, t, begin).unwrap();
    let after = t.apply_all(relinked.changes);
    let refs = t.transaction_refs;
    lemma_known_blocks(state, t, relinked.added);
    lemma_known_blocks(state, t, relinked.removed);
    lemma_transactions_exist(refs, relinked.added, relinked.added.len());
    lemma_transactions_exist(refs, relinked.removed, relinked.removed.len());
    lemma_relinked_consistent(state, t, relinked.state, after);
    let kept = choose|kept: Seq<H256>|
        ledger_of(state, t) == #[trigger] (kept + relinked.removed) && ledger_of(
            relinked.state,
            after,
        ) == kept + relinked.added;
    let ledger = ledger_of(relinked.state, after);
    lemma_ledger_exists(relinked.state, after);
    lemma_known_blocks(relinked.state, after, ledger);
    assert forall|i: int| 0 <= i < kept.len() implies refs.contains_key(#[trigger] kept[i]) by {
        assert(ledger[i] == kept[i]);
    }
    lemma_transactions_exist(refs, kept, kept.len());
    lemma_transactions_concat(refs, kept, relinked.removed, relinked.removed.len());
    lemma_transactions_concat(refs, kept, relinked.added, relinked.added.len());
    let start = transactions_of(refs, kept, kept.len()).unwrap();
    let added = transactions_of(refs, relinked.added, relinked.added.len()).unwrap();
    let removed = transactions_of(refs, relinked.removed, relinked.removed.len()).unwrap();
    assert(transactions_in_ledger(state, t) == start + removed);
    assert(transactions_in_ledger(relinked.state, after) == start + added);
}

/// An update that changes no leader leaves the ledger as it is.
proof fn lemma_steady(state: ChainState, t: Records, u: Records)
    requires
        consistent(state, t),
        u == (Records { node_votes: u.node_votes, ..t }),
        with_best_tips(state).wf(),
        proposers_fit(with_best_tips(state), u),
        voters_fit(with_best_tips(state), u),
        unreferred_fit(with_best_tips(state), u),
        tallies(u.node_votes, counted_votes(with_best_tips(state), u)),
        leaders_fit(u),
    ensures
        consistent(with_best_tips(state), u),
        transactions_in_ledger(with_best_tips(state), u) == transactions_in_ledger(state, t),
{
    assert(ledger_fits(with_best_tips(state), u));
}

/// What an update reports: the transaction blocks of the ledger before and after it have a common
/// start, which is followed by what leaves and by what enters.
pub open spec fn reports_difference(
    before: Seq<H256>,
    after: Seq<H256>,
    added: Seq<H256>,
    removed: Seq<H256>,
) -> bool {
    exists|kept: Seq<H256>| before == #[trigger] (kept + removed) && after == kept + added
}

/// An update of a consistent chain comes to an end and leaves the chain consistent: the votes
/// that are counted are those of every voter chain up to its best block, every level has the
/// leader elected by them, and the ledger is the one that the leaders give. Nothing else changes.
/// What it reports is how the transaction blocks of the ledger change.
#[verifier::spinoff_prover]
#[verifier::rlimit(30)]
pub proof fn law_update(state: ChainState, t: Records)
    requires
        consistent(state, t),
    ensures
        update(state, t) is Some,
        ({
            let done = update(state, t).unwrap();
            let after = after_batches(t, done.batches);
            &&& consistent(done.state, after)
            &&& done.state == (ChainState {
                unconfirmed_proposers: done.state.unconfirmed_proposers,
                proposer_ledger_tip: done.state.proposer_ledger_tip,
                ..with_best_tips(state)
            })
            &&& after == (Records {
                node_votes: after.node_votes,
                leader: after.leader,
                order: after.order,
                ..t
            })
            &&& reports_difference(
                transactions_in_ledger(state, t),
                transactions_in_ledger(done.state, after),
                done.added,
                done.removed,
            )
        }),
{
    let now = with_best_tips(state);
    lemma_settled(state, t);
    let votes = vote_changes(state, t, state.voter_best.len()).unwrap();
    let counted = t.apply_all(votes);
    let leaders = leader_changes(counted, affected_levels(t, votes), all_levels()).unwrap();
    let u = counted.apply_all(leaders);
    assert(ledger_fits(now, t));
    if leaders.len() == 0 {
        lemma_after_batches(t, votes, leaders, leaders);
        lemma_steady(state, t, u);
        let before = transactions_in_ledger(state, t);
        assert(before =~= before + Seq::<H256>::empty());
    } else {
        let begin = level_of(leaders[0]);
        lemma_relink_reports(now, t, u, begin);
        let relinked = relink(now, u, begin).unwrap();
        lemma_after_batches(t, votes, leaders, relinked.changes);
        assert(transactions_in_ledger(state, t) == transactions_in_ledger(now, u));
    }
}

/// Where every tip is the best block already, no vote changes.
proof fn lemma_no_vote_changes(state: ChainState, t: Records, n: nat)
    requires
        n <= state.voter_best.len(),
        state.voter_ledger_tips == with_best_tips(state).voter_ledger_tips,
        forall|chain: int|
            0 <= chain < state.voter_best.len() ==> t.voter_level.contains_key(
                (#[trigger] state.voter_best[chain]).0,
            ),
    ensures
        vote_changes(state, t, n) == Some(Seq::<Change>::empty()),
    decreases n,
{
    if n > 0 {
        lemma_no_vote_changes(state, t, (n - 1) as nat);
        let best = state.voter_best[n - 1].0;
        assert(state.voter_ledger_tips[n - 1] == best);
        law_diff_of_same(t, best);
        let none = Seq::<(H256, u64)>::empty();
        let chain = (n - 1) as u16;
        assert(vote_list(none, false, chain) + vote_list(none, true, chain) =~= Seq::empty());
        assert(Seq::<Change>::empty() + Seq::<Change>::empty() =~= Seq::empty());
    }
}

proof fn lemma_no_leader_changes(t: Records, n: nat)
    requires
        n <= all_levels(),
    ensures
        leader_changes(t, Set::empty(), n) == Some(Seq::<Change>::empty()),
    decreases n,
{
    if n > 0 {
        lemma_no_leader_changes(t, (n - 1) as nat);
    }
}

/// Once the votes of the best blocks are counted, a further update changes nothing.
pub proof fn law_second_update_changes_nothing(state: ChainState, t: Records)
    requires
        state.voter_best.len() == state.voter_ledger_tips.len(),
        forall|chain: int|
            0 <= chain < state.voter_best.len() ==> state.voter_ledger_tips[chain] == (
            #[trigger] state.voter_best[chain]).0 && t.voter_level.contains_key(
                state.voter_best[chain].0,
            ),
    ensures
        update(state, t) == Some(
            Updated {
                state,
                batches: seq![Seq::<Change>::empty(), Seq::<Change>::empty()],
                added: Seq::empty(),
                removed: Seq::empty(),
            },
        ),
{
    assert(state.voter_ledger_tips =~= with_best_tips(state).voter_ledger_tips);
    lemma_no_vote_changes(state, t, state.voter_best.len());
    let none = Seq::<Change>::empty();
    assert(t.apply_all(none) == t);
    assert(affected_levels(t, none) =~= Set::empty());
    lemma_no_leader_changes(t, all_levels());
}

/// The ledger of a consistent chain: it has every level up to its tip and no other; every block
/// is in it or unconfirmed, and not both; no block is in it twice; and with a block it holds all
/// blocks that the block refers to. Up to the tip every level has a leader, the level after it
/// has none, and the leaders are in the ledger; the blocks of a level end with its leader, unless
/// a lower level confirms that.
#[verifier::spinoff_prover]
pub proof fn law_ledger(state: ChainState, t: Records)
    requires
        consistent(state, t),
    ensures
        ({
            let tip = state.proposer_ledger_tip;
            let ledger = ledger_of(state, t);
            &&& ledger_between(t.order, 0, (tip + 1) as nat) is Some
            &&& forall|level: u64| #[trigger] t.order.contains_key(level) <==> level <= tip
            &&& ledger.no_duplicates()
            &&& forall|block: H256|
                ledger.contains(block) <==> t.proposer_level.contains_key(block)
                    && !#[trigger] state.unconfirmed_proposers.contains(block)
            &&& state.unconfirmed_proposers.subset_of(t.proposer_level.dom())
            &&& forall|i: int, j: int|
                0 <= i < ledger.len() && 0 <= j < t.proposer_refs[ledger[i]].len()
                    ==> ledger.contains(#[trigger] t.proposer_refs[ledger[i]][j])
            &&& forall|level: u64|
                level <= tip ==> #[trigger] t.leader.contains_key(level) && ledger.contains(
                    t.leader[level],
                ) && if t.order[level].len() > 0 {
                    t.order[level].last() == t.leader[level]
                } else {
                    ledger_between(t.order, 0, level as nat).unwrap().contains(t.leader[level])
                }
            &&& tip < u64::MAX
            &&& !t.leader.contains_key((tip + 1) as u64)
        }),
{
    let all = t.proposer_level.dom();
    let refs = t.proposer_refs;
    let tip = state.proposer_ledger_tip;
    let ledger = ledger_of(state, t);
    lemma_ledger_exists(state, t);
    lemma_rebuild(t.leader, refs, 0, all);
    lemma_rebuild_closed(t.leader, refs, 0, all);
    let rebuilt = rebuild(t.leader, refs, 0, all).unwrap();
    lemma_ledger_between(t.order, rebuilt.orders, 0, rebuilt.orders.len());
    assert(rebuilt.orders.subrange(0, rebuilt.orders.len() as int) =~= rebuilt.orders);
    assert(ledger == joined(rebuilt.orders));
    assert(rebuilt.tip == tip);
    assert forall|level: u64| #[trigger] t.order.contains_key(level) <==> level <= tip by {
        assert(t.order.contains_key(level) <==> level < rebuilt.orders.len());
    }
    assert forall|block: H256| ledger.contains(block) <==> t.proposer_level.contains_key(block)
        && !#[trigger] state.unconfirmed_proposers.contains(block) by {
        assert(ledger.contains(block) <==> ledger.to_set().contains(block));
        assert(all.contains(block) <==> t.proposer_level.contains_key(block));
    }
    assert forall|i: int, j: int|
        0 <= i < ledger.len() && 0 <= j < t.proposer_refs[ledger[i]].len()
            implies ledger.contains(#[trigger] t.proposer_refs[ledger[i]][j]) by {
        let block = ledger[i];
        assert(ledger.to_set().contains(block));
        assert(t.proposer_level.contains_key(block));
        assert(proposer_fits(t, block));
        assert(!state.unconfirmed_proposers.contains(t.proposer_refs[block][j]));
    }
    assert forall|level: u64| level <= tip implies #[trigger] t.leader.contains_key(level)
        && ledger.contains(t.leader[level]) && if t.order[level].len() > 0 {
        t.order[level].last() == t.leader[level]
    } else {
        ledger_between(t.order, 0, level as nat).unwrap().contains(t.leader[level])
    } by {
        assert(rebuilt.orders[level as int] == t.order[level]);
        assert(confirms(rebuilt, level as int, t.leader[(0 + level) as u64]));
        lemma_leaders_known(state, t, level);
        assert(!state.unconfirmed_proposers.contains(t.leader[level]));
        if t.order[level].len() == 0 {
            lemma_leader_confirmed_below(t.leader, refs, all, level);
            lemma_ledger_between(t.order, rebuilt.orders, 0, level as nat);
        }
    }
}

/// A traversal from a block that refers to none finds that block alone.
pub(crate) proof fn lemma_root_found(
    refs: Map<H256, Seq<H256>>,
    block: H256,
    unconfirmed: Set<H256>,
)
    requires
        unconfirmed.finite(),
        unconfirmed.contains(block),
        at(refs, block) matches Some(list) && list.len() == 0,
    ensures
        traverse(refs, seq![block], unconfirmed) == Some((seq![block], unconfirmed.remove(block))),
{
    let stack = seq![block];
    let next = stack.drop_last() + refs[block];
    assert(next =~= Seq::empty());
    assert(stack.last() == block);
    assert(traverse(refs, next, unconfirmed.remove(block)) == Some(
        (Seq::<H256>::empty(), unconfirmed.remove(block)),
    ));
    assert(seq![block] + Seq::<H256>::empty() =~= seq![block]);
}

/// Level 0 of the ledger is the proposer genesis block alone, which has no transaction blocks.
pub proof fn law_ledger_starts_with_genesis(state: ChainState, t: Records)
    requires
        consistent(state, t),
    ensures
        at(t.order, 0) == Some(seq![genesis_of(t)]),
        at(t.transaction_refs, genesis_of(t)) == Some(Seq::<H256>::empty()),
{
    let genesis = genesis_of(t);
    let all = t.proposer_level.dom();
    lemma_genesis_leads(state, t);
    assert(at(t.leader, 0) == leader_of(t, 0));
    law_leader_has_most_votes(t.node_votes, t.tree[0]);
    assert(t.leader[0] == genesis);
    assert(level_fits(t, 0));
    assert(at(t.proposer_level, t.tree[0][0]) == Some(0u64));
    assert(proposer_fits(t, genesis));
    let rebuilt = rebuild(t.leader, t.proposer_refs, 0, all).unwrap();
    lemma_root_found(t.proposer_refs, genesis, all);
    let (found, rest) = traverse(t.proposer_refs, seq![genesis], all).unwrap();
    assert(found.reverse() =~= seq![genesis]);
    assert(rebuilt.orders[0] == found.reverse());
    assert(t.order[0] == rebuilt.orders[0]);
    assert(t.transaction_refs[genesis] =~= Seq::empty());
}

} // verus!
