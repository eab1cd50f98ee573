//! What an update of the ledger does, in terms of the records before and after it.

use vstd::prelude::*;

use crate::block::H256;
use crate::chain::ChainState;
use crate::change::Change;
use crate::election::{lemma_known_changes_prefix, lemma_leader_changes};
use crate::flat::{
    law_joined_levels, law_ledger_between_levels, law_transactions_are_those_of_every_block,
};
use crate::invariants::{
    elected_records, elections, lemma_relink_order, lemma_update_parts, relinked_levels,
};
use crate::laws::after_batches;
use crate::ledger::{
    affected_levels, all_levels, cleared, elect, leader_change, leader_changes, lemma_only_votes,
    level_of, ordered, relink, stopped_update, update, vote_changes, with_best_tips,
};
use crate::ordering::lemma_rebuild;
use crate::store::{at, Records};

verus! {

/// An update changes the votes, the leaders and the ledger, and no other record. Of the chain in
/// memory it changes which blocks are unconfirmed and how far the ledger goes, and it counts each
/// voter chain up to its best block.
pub proof fn law_update_leaves_the_rest(state: ChainState, t: Records)
    requires
        update(state, t) is Some,
        state.wf(),
    ensures
        ({
            let done = update(state, t).unwrap();
            let after = after_batches(t, done.batches);
            let now = done.state;
            &&& after.proposer_level == t.proposer_level
            &&& after.voter_level == t.voter_level
            &&& after.voter_chain == t.voter_chain
            &&& after.tree == t.tree
            &&& after.voted_level == t.voted_level
            &&& after.parent == t.parent
            &&& after.votes == t.votes
            &&& after.voter_parent == t.voter_parent
            &&& after.transaction_refs == t.transaction_refs
            &&& after.proposer_refs == t.proposer_refs
            &&& now.proposer_best == state.proposer_best
            &&& now.voter_best == state.voter_best
            &&& now.unreferred_transactions == state.unreferred_transactions
            &&& now.unreferred_proposers == state.unreferred_proposers
            &&& now.voter_ledger_tips.len() == state.voter_best.len()
            &&& forall|i: int|
                0 <= i < state.voter_best.len() ==> #[trigger] now.voter_ledger_tips[i]
                    == state.voter_best[i].0
        }),
{
    lemma_update_parts(state, t);
}

/// An update after which every level has the leader that it had before leaves the ledger as it is,
/// and reports that no transaction block enters or leaves it.
pub proof fn law_same_leaders_same_ledger(state: ChainState, t: Records)
    requires
        update(state, t) is Some,
        ({
            let after = after_batches(t, update(state, t).unwrap().batches);
            forall|level: u64| #[trigger] at(after.leader, level) == at(t.leader, level)
        }),
    ensures
        ({
            let done = update(state, t).unwrap();
            let after = after_batches(t, done.batches);
            &&& done.added.len() == 0
            &&& done.removed.len() == 0
            &&& after.order == t.order
            &&& done.state.proposer_ledger_tip == state.proposer_ledger_tip
            &&& done.state.unconfirmed_proposers == state.unconfirmed_proposers
        }),
{
    lemma_update_parts(state, t);
    let leaders = elections(state, t);
    if leaders.len() > 0 {
        let after = after_batches(t, update(state, t).unwrap().batches);
        let begin = level_of(leaders[0]);
        assert(at(after.leader, begin) == at(t.leader, begin));
    }
}

/// Where the lowest level whose leader an update changes is above the level that follows on the
/// ledger, the ledger stays as it is, and nothing enters or leaves it.
pub proof fn law_leader_above_the_ledger(state: ChainState, t: Records, first: u64)
    requires
        update(state, t) is Some,
        first > state.proposer_ledger_tip + 1,
        ({
            let after = after_batches(t, update(state, t).unwrap().batches);
            &&& at(after.leader, first) != at(t.leader, first)
            &&& forall|level: u64|
                level < first ==> #[trigger] at(after.leader, level) == at(t.leader, level)
        }),
    ensures
        ({
            let done = update(state, t).unwrap();
            let after = after_batches(t, done.batches);
            &&& done.added.len() == 0
            &&& done.removed.len() == 0
            &&& after.order == t.order
            &&& done.state.proposer_ledger_tip == state.proposer_ledger_tip
            &&& done.state.unconfirmed_proposers == state.unconfirmed_proposers
        }),
{
    lemma_update_parts(state, t);
    lemma_first_change(state, t, first);
    let done = update(state, t).unwrap();
    let before = with_best_tips(state);
    let u = elected_records(state, t);
    lemma_relink_order(before, u, first);
    let relinked = relink(before, u, first).unwrap();
    assert(relinked.added =~= Seq::empty());
    assert(relinked.removed =~= Seq::empty());
    law_transactions_are_those_of_every_block(t.transaction_refs, relinked.added);
    assert(done.added =~= Seq::empty());
    assert(done.removed =~= Seq::empty());
}

proof fn lemma_first_change(state: ChainState, t: Records, first: u64)
    requires
        update(state, t) is Some,
        ({
            let after = after_batches(t, update(state, t).unwrap().batches);
            &&& at(after.leader, first) != at(t.leader, first)
            &&& forall|level: u64|
                level < first ==> #[trigger] at(after.leader, level) == at(t.leader, level)
        }),
    ensures
        elections(state, t).len() > 0,
        level_of(elections(state, t)[0]) == first,
{
    lemma_update_parts(state, t);
    let after = after_batches(t, update(state, t).unwrap().batches);
    let leaders = elections(state, t);
    if leaders.len() > 0 {
        let begin = level_of(leaders[0]);
        assert(at(after.leader, begin) != at(t.leader, begin));
        if first < begin {
            assert(at(after.leader, first) == at(t.leader, first));
        }
    }
}

/// Where the lowest level whose leader an update changes is one of the ledger, or the next, the
/// levels below keep their blocks. The transaction blocks of all blocks that the ledger had from
/// that level on leave it, in order, and those of all blocks that it then has from there on enter
/// it, in order. The blocks that leave become unconfirmed, but for those that enter.
pub proof fn law_ledger_is_replaced(state: ChainState, t: Records, first: u64)
    requires
        state.wf(),
        update(state, t) is Some,
        first <= state.proposer_ledger_tip + 1,
        ({
            let after = after_batches(t, update(state, t).unwrap().batches);
            &&& at(after.leader, first) != at(t.leader, first)
            &&& forall|level: u64|
                level < first ==> #[trigger] at(after.leader, level) == at(t.leader, level)
        }),
    ensures
        ({
            let done = update(state, t).unwrap();
            let after = after_batches(t, done.batches);
            let tip = state.proposer_ledger_tip;
            let new_tip = done.state.proposer_ledger_tip;
            let old_blocks = Seq::new(
                (tip + 1 - first) as nat,
                |i: int| t.order[(first + i) as u64],
            ).flatten();
            let new_blocks = Seq::new(
                (new_tip + 1 - first) as nat,
                |i: int| after.order[(first + i) as u64],
            ).flatten();
            &&& first <= new_tip + 1
            &&& new_tip < u64::MAX
            &&& forall|level: u64| first <= level <= tip ==> #[trigger] t.order.contains_key(level)
            &&& forall|level: u64|
                first <= level <= new_tip ==> #[trigger] after.leader.contains_key(level)
                    && after.order.contains_key(level)
            &&& !after.leader.contains_key((new_tip + 1) as u64)
            &&& forall|level: u64|
                level < first ==> #[trigger] at(after.order, level) == at(t.order, level)
            &&& forall|level: u64|
                new_tip < level <= tip ==> #[trigger] at(after.order, level) is None
            &&& forall|level: u64|
                new_tip < level && tip < level ==> #[trigger] at(after.order, level) == at(
                    t.order,
                    level,
                )
            &&& done.removed == old_blocks.map_values(
                |block: H256| t.transaction_refs[block],
            ).flatten()
            &&& done.added == new_blocks.map_values(
                |block: H256| t.transaction_refs[block],
            ).flatten()
            &&& done.state.unconfirmed_proposers == state.unconfirmed_proposers.union(
                old_blocks.to_set(),
            ).difference(new_blocks.to_set())
        }),
{
    lemma_update_parts(state, t);
    lemma_first_change(state, t, first);
    let done = update(state, t).unwrap();
    let after = after_batches(t, done.batches);
    let before = with_best_tips(state);
    let u = elected_records(state, t);
    let tip = state.proposer_ledger_tip;
    let end = (tip + 1) as nat;
    let relinked = relink(before, u, first).unwrap();
    lemma_relink_order(before, u, first);
    let rebuilt = relinked_levels(before, u, first).unwrap();
    let old_lists = Seq::new((tip + 1 - first) as nat, |i: int| t.order[(first + i) as u64]);
    let new_lists = Seq::new(
        (rebuilt.tip + 1 - first) as nat,
        |i: int| after.order[(first + i) as u64],
    );
    law_ledger_between_levels(t.order, first as nat, end);
    assert(old_lists =~= Seq::new(
        (end - first) as nat,
        |i: int| t.order[(first as nat + i) as u64],
    ));
    assert(relinked.removed == old_lists.flatten());
    assert forall|i: int| 0 <= i < rebuilt.orders.len() implies #[trigger] rebuilt.orders[i]
        == new_lists[i] by {
        let level = (first + i) as u64;
        assert(at(after.order, level) == Some(rebuilt.orders[level - first]));
    }
    assert(rebuilt.orders =~= new_lists);
    law_joined_levels(rebuilt.orders);
    assert forall|level: u64| first <= level <= rebuilt.tip implies #[trigger]
        after.leader.contains_key(level) && after.order.contains_key(level) by {
        assert(u.leader.contains_key(level));
        assert(at(after.order, level) == Some(rebuilt.orders[level - first]));
    }
    law_transactions_are_those_of_every_block(t.transaction_refs, relinked.added);
    law_transactions_are_those_of_every_block(t.transaction_refs, relinked.removed);
    vstd::seq_lib::seq_to_set_is_finite(relinked.removed);
    let unconfirmed = state.unconfirmed_proposers.union(relinked.removed.to_set());
    lemma_rebuild(u.leader, u.proposer_refs, first, unconfirmed);
    assert(rebuilt.unconfirmed =~= unconfirmed.difference(relinked.added.to_set()));
}

/// Whether a change gives a level the leader that it has in the end and did not have before.
spec fn announces(change: Change, level: u64, old: Option<H256>, new: Option<H256>) -> bool {
    &&& old != new
    &&& change == match new {
        Some(block) => Change::Leader(level, block),
        None => Change::NoLeader(level),
    }
}

proof fn lemma_changes_announce(t: Records, levels: Set<u64>, n: nat)
    requires
        n <= all_levels(),
        leader_changes(t, levels, n) is Some,
    ensures
        ({
            let changes = leader_changes(t, levels, n).unwrap();
            let after = t.apply_all(changes).leader;
            &&& forall|i: int|
                0 <= i < changes.len() ==> {
                    let level = level_of(#[trigger] changes[i]);
                    level < n && announces(changes[i], level, at(t.leader, level), at(after, level))
                }
            &&& forall|i: int, j: int|
                0 <= i < j < changes.len() ==> level_of(#[trigger] changes[i]) < level_of(
                    #[trigger] changes[j],
                )
            &&& forall|level: u64|
                #[trigger] at(after, level) != at(t.leader, level) ==> exists|i: int|
                    0 <= i < changes.len() && level_of(#[trigger] changes[i]) == level
        }),
    decreases n,
{
    lemma_leader_changes(t, levels, n);
    if n == 0 {
        assert(t.apply_all(Seq::<Change>::empty()) == t);
    } else {
        let k = (n - 1) as nat;
        let top = k as u64;
        lemma_leader_changes(t, levels, k);
        lemma_changes_announce(t, levels, k);
        let before = leader_changes(t, levels, k).unwrap();
        let changes = leader_changes(t, levels, n).unwrap();
        let earlier = t.apply_all(before).leader;
        let after = t.apply_all(changes).leader;
        if changes != before {
            let leader = elect(t.node_votes, t.tree[top]);
            let change = leader_change(top, leader);
            assert(changes == before.push(change));
            assert(changes[before.len() as int] == change);
            assert forall|i: int| 0 <= i < before.len() implies changes[i] == #[trigger] before[i]
                && level_of(before[i]) < top by {}
            assert forall|level: u64| level != top implies #[trigger] at(after, level) == at(
                earlier,
                level,
            ) by {}
            assert(at(after, top) == leader);
            assert forall|i: int| 0 <= i < changes.len() implies {
                let level = level_of(#[trigger] changes[i]);
                level < n && announces(changes[i], level, at(t.leader, level), at(after, level))
            } by {
                if i < before.len() {
                    assert(changes[i] == before[i]);
                    let level = level_of(before[i]);
                    assert(at(after, level) == at(earlier, level));
                }
            }
            assert forall|i: int, j: int| 0 <= i < j < changes.len() implies level_of(
                #[trigger] changes[i],
            ) < level_of(#[trigger] changes[j]) by {
                assert(changes[i] == before[i]);
                if j < before.len() {
                    assert(changes[j] == before[j]);
                }
            }
            assert forall|level: u64| #[trigger] at(after, level) != at(
                t.leader,
                level,
            ) implies exists|i: int|
                0 <= i < changes.len() && level_of(#[trigger] changes[i]) == level by {
                if level == top {
                    assert(level_of(changes[before.len() as int]) == level);
                } else {
                    assert(at(after, level) == at(earlier, level));
                    let i = choose|i: int|
                        0 <= i < before.len() && level_of(#[trigger] before[i]) == level;
                    assert(changes[i] == before[i]);
                }
            }
        }
    }
}

/// The second batch of an update has the levels whose leader changes, each once, with the leader
/// that they then have, or without one.
pub proof fn law_second_batch_has_the_leaders(state: ChainState, t: Records)
    requires
        update(state, t) is Some,
    ensures
        ({
            let done = update(state, t).unwrap();
            let after = after_batches(t, done.batches);
            let leaders = done.batches[1];
            &&& done.batches.len() >= 2
            &&& leaders.no_duplicates()
            &&& forall|change: Change| #[trigger]
                leaders.contains(change) <==> match change {
                    Change::Leader(level, block) => at(after.leader, level) == Some(block) && at(
                        t.leader,
                        level,
                    ) != Some(block),
                    Change::NoLeader(level) => t.leader.contains_key(level)
                        && !after.leader.contains_key(level),
                    _ => false,
                }
        }),
{
    lemma_update_parts(state, t);
    let done = update(state, t).unwrap();
    let after = after_batches(t, done.batches);
    let votes = vote_changes(state, t, state.voter_best.len()).unwrap();
    let counted = t.apply_all(votes);
    let leaders = elections(state, t);
    assert(done.batches[1] == leaders);
    lemma_known_changes_prefix(t, votes);
    lemma_only_votes(t, votes);
    lemma_changes_announce(counted, affected_levels(t, votes), all_levels());
    let last = counted.apply_all(leaders).leader;
    assert(after.leader == last);
    assert forall|change: Change| #[trigger] leaders.contains(change) <==> match change {
        Change::Leader(level, block) => at(after.leader, level) == Some(block) && at(
            t.leader,
            level,
        ) != Some(block),
        Change::NoLeader(level) => t.leader.contains_key(level) && !after.leader.contains_key(
            level,
        ),
        _ => false,
    } by {
        if leaders.contains(change) {
            let i = choose|i: int| 0 <= i < leaders.len() && leaders[i] == change;
            let level = level_of(leaders[i]);
            assert(announces(leaders[i], level, at(t.leader, level), at(last, level)));
        }
        if change is Leader || change is NoLeader {
            let level = level_of(change);
            if at(last, level) != at(t.leader, level) {
                let i = choose|i: int|
                    0 <= i < leaders.len() && level_of(#[trigger] leaders[i]) == level;
                assert(announces(leaders[i], level, at(t.leader, level), at(last, level)));
            }
        }
    }
    assert forall|i: int, j: int| 0 <= i < j < leaders.len() implies leaders[i] != leaders[j] by {
        assert(level_of(leaders[i]) < level_of(leaders[j]));
    }
}

/// An update has a third batch if and only if a leader changes. It takes the blocks of every level
/// of the ledger from the lowest such level on away, and gives the levels from there on their new
/// blocks; it is empty where that level does not follow on the ledger.
pub proof fn law_third_batch_has_the_ledger(state: ChainState, t: Records, first: u64)
    requires
        update(state, t) is Some,
        ({
            let after = after_batches(t, update(state, t).unwrap().batches);
            &&& at(after.leader, first) != at(t.leader, first)
            &&& forall|level: u64|
                level < first ==> #[trigger] at(after.leader, level) == at(t.leader, level)
        }),
    ensures
        ({
            let done = update(state, t).unwrap();
            let after = after_batches(t, done.batches);
            let tip = state.proposer_ledger_tip;
            let new_tip = done.state.proposer_ledger_tip;
            &&& done.batches.len() == 3
            &&& first > tip + 1 ==> done.batches[2].len() == 0
            &&& first <= tip + 1 ==> done.batches[2] == Seq::new(
                (tip + 1 - first) as nat,
                |i: int| Change::NoOrder((first + i) as u64),
            ) + Seq::new(
                (new_tip + 1 - first) as nat,
                |i: int| Change::Order((first + i) as u64, after.order[(first + i) as u64]),
            )
        }),
{
    lemma_update_parts(state, t);
    lemma_first_change(state, t, first);
    let done = update(state, t).unwrap();
    let after = after_batches(t, done.batches);
    let before = with_best_tips(state);
    let u = elected_records(state, t);
    let tip = state.proposer_ledger_tip;
    let relinked = relink(before, u, first).unwrap();
    lemma_relink_order(before, u, first);
    assert(done.batches[2] == relinked.changes);
    if first <= tip + 1 {
        let rebuilt = relinked_levels(before, u, first).unwrap();
        assert(cleared(first as nat, (tip + 1) as nat) =~= Seq::new(
            (tip + 1 - first) as nat,
            |i: int| Change::NoOrder((first + i) as u64),
        ));
        let sets = Seq::new(
            (rebuilt.tip + 1 - first) as nat,
            |i: int| Change::Order((first + i) as u64, after.order[(first + i) as u64]),
        );
        assert forall|i: int| 0 <= i < rebuilt.orders.len() implies #[trigger] sets[i] == ordered(
            first,
            rebuilt.orders,
        )[i] by {
            let level = (first + i) as u64;
            assert(at(after.order, level) == Some(rebuilt.orders[level - first]));
        }
        assert(ordered(first, rebuilt.orders) =~= sets);
    }
}

/// An update after which every level has the leader that it had before has no third batch.
pub proof fn law_no_third_batch_without_new_leaders(state: ChainState, t: Records)
    requires
        update(state, t) is Some,
        ({
            let after = after_batches(t, update(state, t).unwrap().batches);
            forall|level: u64| #[trigger] at(after.leader, level) == at(t.leader, level)
        }),
    ensures
        update(state, t).unwrap().batches.len() == 2,
        update(state, t).unwrap().batches[1].len() == 0,
{
    lemma_update_parts(state, t);
    let leaders = elections(state, t);
    if leaders.len() > 0 {
        let after = after_batches(t, update(state, t).unwrap().batches);
        let begin = level_of(leaders[0]);
        assert(at(after.leader, begin) == at(t.leader, begin));
    }
}

/// An update that comes to a stop, where a whole one can be had: the batches that it has made are
/// the first ones of the whole update. Only the tips of the voter chains, which blocks are
/// unconfirmed and how far the ledger goes can be other than before. Each tip is the old one or the
/// best block, and the latter once the first batch is made; no block changes to be unconfirmed or
/// confirmed before the second batch is made, and the ledger goes as far as before until the third
/// is.
pub proof fn law_stopped_update_is_a_start(
    state: ChainState,
    t: Records,
    now: ChainState,
    batches: Seq<Seq<Change>>,
)
    requires
        state.wf(),
        update(state, t) is Some,
        stopped_update(state, t, now, batches),
    ensures
        ({
            let done = update(state, t).unwrap();
            &&& batches.len() <= done.batches.len()
            &&& batches == done.batches.subrange(0, batches.len() as int)
            &&& now.proposer_best == state.proposer_best
            &&& now.voter_best == state.voter_best
            &&& now.unreferred_transactions == state.unreferred_transactions
            &&& now.unreferred_proposers == state.unreferred_proposers
            &&& now.voter_ledger_tips.len() == state.voter_ledger_tips.len()
            &&& forall|i: int|
                0 <= i < state.voter_best.len() ==> (#[trigger] now.voter_ledger_tips[i]
                    == state.voter_ledger_tips[i] && batches.len() == 0)
                    || now.voter_ledger_tips[i] == state.voter_best[i].0
            &&& batches.len() < 2 ==> now.unconfirmed_proposers == state.unconfirmed_proposers
            &&& batches.len() < 3 ==> now.proposer_ledger_tip == state.proposer_ledger_tip
            &&& batches.len() == 3 ==> now == done.state
        }),
{
    lemma_update_parts(state, t);
    let done = update(state, t).unwrap();
    let whole = done.batches;
    assert(batches =~= whole.subrange(0, batches.len() as int)) by {
        assert(whole.subrange(0, 0) =~= Seq::empty());
    }
}

} // verus!
