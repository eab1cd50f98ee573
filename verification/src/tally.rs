//! Counting votes: the lists of votes stay those of the voter chains.

use vstd::prelude::*;

use crate::block::H256;
use crate::chain::ChainState;
use crate::change::{lemma_apply_all_concat, Change};
use crate::consistency::{
    chain_fits, counted_votes, once, tallies, voter_fits, voters_fit, votes_up_to, VoteSet,
};
use crate::ledger::{known, vote_changes, vote_list};
use crate::merge::{first_vote_of, lemma_first_vote, with_vote_change};
use crate::store::{list_at, Records};
use crate::votes::{chain_votes, diff, diff_at, law_diff_splits_chains, meeting, stamped, step};

verus! {

/// Where a block has one vote of a chain, removing a vote of the chain removes that vote.
proof fn lemma_remove_vote(
    lists: Map<H256, Seq<(u16, u64)>>,
    votes: VoteSet,
    block: H256,
    chain: u16,
    level: u64,
)
    requires
        tallies(lists, votes),
        votes.contains((block, chain, level)),
        forall|l: u64| votes.contains((block, chain, l)) ==> l == level,
    ensures
        tallies(
            lists.insert(block, with_vote_change(list_at(lists, block), (false, chain, level))),
            votes.remove((block, chain, level)),
        ),
{
    let list = list_at(lists, block);
    let new = with_vote_change(list, (false, chain, level));
    let i = first_vote_of(list, chain, 0);
    lemma_first_vote(list, chain, 0);
    assert(list.contains((chain, level)));
    let k = choose|k: int| 0 <= k < list.len() && list[k] == (chain, level);
    assert(list[k].0 == chain);
    assert(i < list.len());
    assert(list.contains(list[i]));
    assert(list.contains((chain, list[i].1)));
    assert(list[i] == (chain, level));
    assert(new.no_duplicates()) by {
        assert forall|a: int, b: int| 0 <= a < b < new.len() implies new[a] != new[b] by {
            assert(list[a] != list[b]);
            assert(list[a] != list[list.len() - 1]);
            assert(list[b] != list[list.len() - 1]);
        }
    }
    assert forall|c: u16, l: u64| #[trigger] new.contains((c, l)) <==> votes.remove(
        (block, chain, level),
    ).contains((block, c, l)) by {
        if new.contains((c, l)) {
            let a = choose|a: int| 0 <= a < new.len() && new[a] == (c, l);
            if a == i {
                assert(list[list.len() - 1] == (c, l));
            } else {
                assert(list[a] == (c, l));
            }
            assert(list.contains((c, l)));
            assert((c, l) != (chain, level));
        }
        if votes.contains((block, c, l)) && (c, l) != (chain, level) {
            assert(list.contains((c, l)));
            let a = choose|a: int| 0 <= a < list.len() && list[a] == (c, l);
            if a == list.len() - 1 {
                assert(new[i] == (c, l));
            } else {
                assert(new[a] == (c, l));
            }
        }
    }
    let after = lists.insert(block, new);
    assert forall|b: H256| (#[trigger] list_at(after, b)).no_duplicates() by {
        if b != block {
            assert(list_at(after, b) == list_at(lists, b));
        }
    }
    assert forall|b: H256, c: u16, l: u64| #[trigger] list_at(after, b).contains((c, l))
        <==> votes.remove((block, chain, level)).contains((b, c, l)) by {
        if b != block {
            assert(list_at(after, b) == list_at(lists, b));
        }
    }
}

proof fn lemma_add_vote(
    lists: Map<H256, Seq<(u16, u64)>>,
    votes: VoteSet,
    block: H256,
    chain: u16,
    level: u64,
)
    requires
        tallies(lists, votes),
    ensures
        tallies(
            lists.insert(block, with_vote_change(list_at(lists, block), (true, chain, level))),
            votes.insert((block, chain, level)),
        ),
{
    let list = list_at(lists, block);
    let new = with_vote_change(list, (true, chain, level));
    assert forall|c: u16, l: u64| #[trigger] new.contains((c, l)) <==> votes.insert(
        (block, chain, level),
    ).contains((block, c, l)) by {
        if new.contains((c, l)) {
            let a = choose|a: int| 0 <= a < new.len() && new[a] == (c, l);
            if a < list.len() {
                assert(list[a] == (c, l));
                assert(list.contains((c, l)));
            }
        }
        if list.contains((c, l)) {
            let a = choose|a: int| 0 <= a < list.len() && list[a] == (c, l);
            assert(new[a] == (c, l));
        }
        if (c, l) == (chain, level) && !list.contains((chain, level)) {
            assert(new[list.len() as int] == (c, l));
        }
        assert(list.contains((c, l)) <==> votes.contains((block, c, l)));
    }
    let after = lists.insert(block, new);
    assert forall|b: H256| (#[trigger] list_at(after, b)).no_duplicates() by {
        assert(list_at(lists, b).no_duplicates());
        if b == block && !list.contains((chain, level)) {
            assert forall|i: int, j: int| 0 <= i < j < new.len() implies new[i] != new[j] by {
                if j == list.len() {
                    assert(list.contains(list[i]));
                }
            }
        }
    }
    assert forall|b: H256, c: u16, l: u64| #[trigger] list_at(after, b).contains((c, l))
        <==> votes.insert((block, chain, level)).contains((b, c, l)) by {
        if b != block {
            assert(list_at(after, b) == list_at(lists, b));
        }
    }
}

/// Votes of a chain, by block, chain and level.
spec fn of_chain(votes: Seq<(H256, u64)>, chain: u16) -> VoteSet {
    Set::new(
        |vote: (H256, u16, u64)| vote.1 == chain && votes.contains((vote.0, vote.2)),
    )
}

proof fn lemma_vote_list_last(votes: Seq<(H256, u64)>, add: bool, chain: u16)
    requires
        votes.len() > 0,
    ensures
        vote_list(votes, add, chain).len() == votes.len(),
        vote_list(votes, add, chain).drop_last() == vote_list(votes.drop_last(), add, chain),
        vote_list(votes, add, chain).last() == Change::NodeVote(
            votes.last().0,
            add,
            chain,
            votes.last().1,
        ),
        of_chain(votes, chain) == of_chain(votes.drop_last(), chain).insert(
            (votes.last().0, chain, votes.last().1),
        ),
{
    assert(vote_list(votes, add, chain).drop_last() =~= vote_list(
        votes.drop_last(),
        add,
        chain,
    ));
    let some = votes.drop_last();
    assert forall|vote: (H256, u16, u64)|
        of_chain(votes, chain).contains(vote) <==> of_chain(some, chain).insert(
            (votes.last().0, chain, votes.last().1),
        ).contains(vote) by {
        let pair = (vote.0, vote.2);
        if votes.contains(pair) {
            let i = choose|i: int| 0 <= i < votes.len() && votes[i] == pair;
            if i < some.len() {
                assert(some[i] == pair);
            }
        }
        if some.contains(pair) {
            let i = choose|i: int| 0 <= i < some.len() && some[i] == pair;
            assert(votes[i] == pair);
        }
        assert(votes[votes.len() - 1] == votes.last());
    }
    assert(of_chain(votes, chain) =~= of_chain(some, chain).insert(
        (votes.last().0, chain, votes.last().1),
    ));
}

/// Removing the votes of a chain, no two of them for one block.
proof fn lemma_remove_votes(t: Records, all: VoteSet, votes: Seq<(H256, u64)>, chain: u16)
    requires
        tallies(t.node_votes, all),
        once(votes),
        forall|i: int|
            0 <= i < votes.len() ==> all.contains(
                ((#[trigger] votes[i]).0, chain, votes[i].1),
            ),
        forall|block: H256, a: u64, b: u64|
            all.contains((block, chain, a)) && all.contains((block, chain, b)) ==> a == b,
    ensures
        tallies(
            t.apply_all(vote_list(votes, false, chain)).node_votes,
            all.difference(of_chain(votes, chain)),
        ),
    decreases votes.len(),
{
    if votes.len() == 0 {
        assert(vote_list(votes, false, chain) =~= Seq::empty());
        assert(all.difference(of_chain(votes, chain)) =~= all);
    } else {
        let some = votes.drop_last();
        let last = votes.last();
        lemma_vote_list_last(votes, false, chain);
        assert forall|i: int| 0 <= i < some.len() implies all.contains(
            ((#[trigger] some[i]).0, chain, some[i].1),
        ) by {
            assert(some[i] == votes[i]);
        }
        assert forall|i: int, j: int| 0 <= i < j < some.len() implies (#[trigger] some[i]).0 != (
        #[trigger] some[j]).0 by {
            assert(some[i] == votes[i]);
            assert(some[j] == votes[j]);
        }
        lemma_remove_votes(t, all, some, chain);
        let rest = all.difference(of_chain(some, chain));
        assert(votes[votes.len() - 1] == last);
        assert(rest.contains((last.0, chain, last.1))) by {
            if some.contains((last.0, last.1)) {
                let i = choose|i: int| 0 <= i < some.len() && some[i] == (last.0, last.1);
                assert(votes[i].0 == votes[votes.len() - 1].0);
            }
        }
        lemma_remove_vote(
            t.apply_all(vote_list(some, false, chain)).node_votes,
            rest,
            last.0,
            chain,
            last.1,
        );
        assert(rest.remove((last.0, chain, last.1)) =~= all.difference(of_chain(votes, chain)));
    }
}

/// Adding the votes of a chain.
proof fn lemma_add_votes(t: Records, all: VoteSet, votes: Seq<(H256, u64)>, chain: u16)
    requires
        tallies(t.node_votes, all),
    ensures
        tallies(
            t.apply_all(vote_list(votes, true, chain)).node_votes,
            all.union(of_chain(votes, chain)),
        ),
    decreases votes.len(),
{
    if votes.len() == 0 {
        assert(vote_list(votes, true, chain) =~= Seq::empty());
        assert(all.union(of_chain(votes, chain)) =~= all);
    } else {
        let some = votes.drop_last();
        let last = votes.last();
        lemma_vote_list_last(votes, true, chain);
        lemma_add_votes(t, all, some, chain);
        let before = all.union(of_chain(some, chain));
        lemma_add_vote(
            t.apply_all(vote_list(some, true, chain)).node_votes,
            before,
            last.0,
            chain,
            last.1,
        );
        assert(before.insert((last.0, chain, last.1)) =~= all.union(of_chain(votes, chain)));
    }
}

proof fn lemma_known_concat(t: Records, first: Seq<(H256, u64)>, second: Seq<(H256, u64)>)
    requires
        known(t, first),
        known(t, second),
    ensures
        known(t, first + second),
{
    let both = first + second;
    assert forall|i: int| 0 <= i < both.len() implies t.proposer_level.contains_key(
        #[trigger] both[i].0,
    ) by {
        if i < first.len() {
            assert(both[i] == first[i]);
        } else {
            assert(both[i] == second[i - first.len()]);
        }
    }
}

proof fn lemma_step_known(state: ChainState, t: Records, block: H256)
    requires
        voters_fit(state, t),
        t.voter_level.contains_key(block),
        t.voter_level[block] > 0,
    ensures
        step(t, block, t.voter_level[block]) == Some(
            (stamped(t.votes[block], t.voter_level[block]), t.voter_parent[block]),
        ),
        known(t, stamped(t.votes[block], t.voter_level[block])),
{
    assert(voter_fits(state, t, block));
    let votes = stamped(t.votes[block], t.voter_level[block]);
    assert forall|i: int| 0 <= i < votes.len() implies t.proposer_level.contains_key(
        #[trigger] votes[i].0,
    ) by {
        assert(votes[i].0 == t.votes[block][i]);
    }
}

/// Two blocks of one voter chain have a common ancestor.
proof fn lemma_diff_at_exists(
    state: ChainState,
    t: Records,
    from: H256,
    from_level: u64,
    to: H256,
    to_level: u64,
)
    requires
        voters_fit(state, t),
        t.voter_level.contains_key(from),
        t.voter_level[from] == from_level,
        t.voter_level.contains_key(to),
        t.voter_level[to] == to_level,
        t.voter_chain[from] == t.voter_chain[to],
    ensures
        diff_at(t, from, from_level, to, to_level) matches Some((added, removed)) && known(
            t,
            added,
        ) && known(t, removed),
    decreases from_level + to_level,
{
    let none = Seq::<(H256, u64)>::empty();
    assert(voter_fits(state, t, from));
    assert(voter_fits(state, t, to));
    if to_level > from_level {
        lemma_step_known(state, t, to);
        let parent = t.voter_parent[to];
        lemma_diff_at_exists(state, t, from, from_level, parent, (to_level - 1) as u64);
        let (a, r) = diff_at(t, from, from_level, parent, (to_level - 1) as u64).unwrap();
        lemma_known_concat(t, stamped(t.votes[to], to_level), a);
        lemma_known_concat(t, none, r);
    } else if from_level > to_level {
        lemma_step_known(state, t, from);
        let parent = t.voter_parent[from];
        lemma_diff_at_exists(state, t, parent, (from_level - 1) as u64, to, to_level);
        let (a, r) = diff_at(t, parent, (from_level - 1) as u64, to, to_level).unwrap();
        lemma_known_concat(t, none, a);
        lemma_known_concat(t, stamped(t.votes[from], from_level), r);
    } else if to != from {
        assert(to_level > 0);
        lemma_step_known(state, t, to);
        lemma_step_known(state, t, from);
        let to_parent = t.voter_parent[to];
        let from_parent = t.voter_parent[from];
        lemma_diff_at_exists(
            state,
            t,
            from_parent,
            (from_level - 1) as u64,
            to_parent,
            (to_level - 1) as u64,
        );
        let (a, r) = diff_at(
            t,
            from_parent,
            (from_level - 1) as u64,
            to_parent,
            (to_level - 1) as u64,
        ).unwrap();
        lemma_known_concat(t, stamped(t.votes[to], to_level), a);
        lemma_known_concat(t, stamped(t.votes[from], from_level), r);
    }
}

/// Between two blocks of one voter chain there is always a difference of votes, and all of these
/// votes are for known blocks.
pub proof fn law_diff_exists(state: ChainState, t: Records, from: H256, to: H256)
    requires
        voters_fit(state, t),
        t.voter_level.contains_key(from),
        t.voter_level.contains_key(to),
        t.voter_chain[from] == t.voter_chain[to],
    ensures
        diff(t, from, to) matches Some((added, removed)) && known(t, added) && known(t, removed),
{
    lemma_diff_at_exists(state, t, from, t.voter_level[from], to, t.voter_level[to]);
}

/// The votes once the first `n` voter chains are counted up to their best blocks.
pub open spec fn switched_votes(state: ChainState, t: Records, n: nat) -> VoteSet {
    Set::new(
        |vote: (H256, u16, u64)|
            vote.1 < state.voter_best.len() && votes_up_to(
                t,
                if vote.1 < n {
                    state.voter_best[vote.1 as int].0
                } else {
                    state.voter_ledger_tips[vote.1 as int]
                },
            ).contains((vote.0, vote.2)),
    )
}

/// A switch of one chain takes the votes of the old chain to those of the new one.
proof fn lemma_switch_chain(
    t: Records,
    all: VoteSet,
    old_votes: Seq<(H256, u64)>,
    new_votes: Seq<(H256, u64)>,
    added: Seq<(H256, u64)>,
    removed: Seq<(H256, u64)>,
    common: Seq<(H256, u64)>,
    chain: u16,
)
    requires
        tallies(t.node_votes, all),
        old_votes == removed + common,
        new_votes == added + common,
        once(old_votes),
        forall|block: H256, level: u64|
            all.contains((block, chain, level)) <==> #[trigger] old_votes.contains((block, level)),
    ensures
        tallies(
            t.apply_all(
                vote_list(removed, false, chain) + vote_list(added, true, chain),
            ).node_votes,
            all.difference(of_chain(removed, chain)).union(of_chain(added, chain)),
        ),
        forall|block: H256, level: u64|
            all.difference(of_chain(removed, chain)).union(of_chain(added, chain)).contains(
                (block, chain, level),
            ) <==> #[trigger] new_votes.contains((block, level)),
{
    assert forall|i: int| 0 <= i < removed.len() implies all.contains(
        ((#[trigger] removed[i]).0, chain, removed[i].1),
    ) by {
        assert(old_votes[i] == removed[i]);
        assert(old_votes.contains((removed[i].0, removed[i].1)));
    }
    assert forall|i: int, j: int| 0 <= i < j < removed.len() implies (#[trigger] removed[i]).0 != (
    #[trigger] removed[j]).0 by {
        assert(old_votes[i] == removed[i]);
        assert(old_votes[j] == removed[j]);
    }
    assert forall|block: H256, a: u64, b: u64|
        all.contains((block, chain, a)) && all.contains((block, chain, b)) implies a == b by {
        assert(old_votes.contains((block, a)));
        assert(old_votes.contains((block, b)));
        let i = choose|i: int| 0 <= i < old_votes.len() && old_votes[i] == (block, a);
        let j = choose|j: int| 0 <= j < old_votes.len() && old_votes[j] == (block, b);
        if i < j {
            assert(old_votes[i].0 != old_votes[j].0);
        } else if j < i {
            assert(old_votes[j].0 != old_votes[i].0);
        }
    }
    lemma_remove_votes(t, all, removed, chain);
    let rest = all.difference(of_chain(removed, chain));
    let u = t.apply_all(vote_list(removed, false, chain));
    lemma_add_votes(u, rest, added, chain);
    lemma_apply_all_concat(t, vote_list(removed, false, chain), vote_list(added, true, chain));
    assert forall|block: H256, level: u64|
        rest.union(of_chain(added, chain)).contains((block, chain, level))
            <==> #[trigger] new_votes.contains((block, level)) by {
        let vote = (block, level);
        assert(all.contains((block, chain, level)) <==> old_votes.contains(vote));
        if new_votes.contains(vote) {
            let i = choose|i: int| 0 <= i < new_votes.len() && new_votes[i] == vote;
            if i < added.len() {
                assert(added[i] == vote);
            } else {
                let k = i - added.len();
                assert(common[k] == vote);
                assert(old_votes[removed.len() + k] == vote);
                if removed.contains(vote) {
                    let j = choose|j: int| 0 <= j < removed.len() && removed[j] == vote;
                    assert(old_votes[j] == vote);
                    assert(old_votes[j].0 != old_votes[removed.len() + k].0);
                }
            }
        }
        if added.contains(vote) {
            let i = choose|i: int| 0 <= i < added.len() && added[i] == vote;
            assert(new_votes[i] == vote);
        }
        if old_votes.contains(vote) && !removed.contains(vote) {
            let i = choose|i: int| 0 <= i < old_votes.len() && old_votes[i] == vote;
            if i < removed.len() {
                assert(removed[i] == vote);
            }
            assert(common[i - removed.len()] == vote);
            assert(new_votes[added.len() + i - removed.len()] == vote);
        }
    }
}

/// Whether every change is to the votes of a known block.
pub open spec fn known_changes(t: Records, changes: Seq<Change>) -> bool {
    forall|i: int|
        0 <= i < changes.len() ==> (#[trigger] changes[i]) is NodeVote
            && t.proposer_level.contains_key(changes[i]->NodeVote_0)
}

proof fn lemma_vote_list_known(t: Records, votes: Seq<(H256, u64)>, add: bool, chain: u16)
    requires
        known(t, votes),
    ensures
        known_changes(t, vote_list(votes, add, chain)),
{
    let changes = vote_list(votes, add, chain);
    assert forall|i: int| 0 <= i < changes.len() implies (#[trigger] changes[i]) is NodeVote
        && t.proposer_level.contains_key(changes[i]->NodeVote_0) by {
        assert(t.proposer_level.contains_key(votes[i].0));
    }
}

/// The changes of votes, where they can be had, are to the votes of known blocks.
pub(crate) proof fn lemma_vote_changes_known(state: ChainState, t: Records, n: nat)
    requires
        vote_changes(state, t, n) is Some,
    ensures
        known_changes(t, vote_changes(state, t, n).unwrap()),
    decreases n,
{
    if n > 0 {
        let k = (n - 1) as nat;
        let chain = k as u16;
        lemma_vote_changes_known(state, t, k);
        let before = vote_changes(state, t, k).unwrap();
        let from = state.voter_ledger_tips[k as int];
        let to = state.voter_best[k as int].0;
        let (added, removed) = diff(t, from, to).unwrap();
        lemma_vote_list_known(t, removed, false, chain);
        lemma_vote_list_known(t, added, true, chain);
        let r = vote_list(removed, false, chain);
        let a = vote_list(added, true, chain);
        let list = vote_changes(state, t, n).unwrap();
        assert(list == before + (r + a));
        assert forall|i: int| 0 <= i < list.len() implies (#[trigger] list[i]) is NodeVote
            && t.proposer_level.contains_key(list[i]->NodeVote_0) by {
            if i < before.len() {
                assert(list[i] == before[i]);
            } else if i < before.len() + r.len() {
                assert(list[i] == r[i - before.len()]);
            } else {
                assert(list[i] == a[i - before.len() - r.len()]);
            }
        }
    }
}

/// Where no chain votes twice for a block up to its tip, and the changes of votes can be had, the
/// lists of votes are then those of the chains up to their best blocks.
pub(crate) proof fn lemma_votes_counted(state: ChainState, t: Records, n: nat)
    requires
        state.wf(),
        forall|chain: int|
            0 <= chain < state.voter_best.len() ==> once(
                votes_up_to(t, #[trigger] state.voter_ledger_tips[chain]),
            ),
        tallies(t.node_votes, counted_votes(state, t)),
        n <= state.voter_best.len(),
        vote_changes(state, t, n) is Some,
    ensures
        tallies(
            t.apply_all(vote_changes(state, t, n).unwrap()).node_votes,
            switched_votes(state, t, n),
        ),
    decreases n,
{
    if n == 0 {
        assert(switched_votes(state, t, 0) =~= counted_votes(state, t));
    } else {
        let k = (n - 1) as nat;
        let chain = k as u16;
        lemma_votes_counted(state, t, k);
        let before = vote_changes(state, t, k).unwrap();
        let u = t.apply_all(before);
        let from = state.voter_ledger_tips[k as int];
        let to = state.voter_best[k as int].0;
        law_diff_splits_chains(t, from, to);
        let (added, removed) = diff(t, from, to).unwrap();
        let (block, level) = meeting(t, from, t.voter_level[from], to, t.voter_level[to]);
        let all = switched_votes(state, t, k);
        lemma_switch_chain(
            u,
            all,
            votes_up_to(t, from),
            votes_up_to(t, to),
            added,
            removed,
            chain_votes(t, block, level),
            chain,
        );
        let changes = vote_list(removed, false, chain) + vote_list(added, true, chain);
        lemma_apply_all_concat(t, before, changes);
        let now = all.difference(of_chain(removed, chain)).union(of_chain(added, chain));
        assert(now =~= switched_votes(state, t, n)) by {
            assert forall|vote: (H256, u16, u64)|
                now.contains(vote) <==> switched_votes(state, t, n).contains(vote) by {
                if vote.1 == chain {
                    assert(votes_up_to(t, to).contains((vote.0, vote.2)) <==> now.contains(
                        (vote.0, chain, vote.2),
                    ));
                }
            }
        }
    }
}

/// The votes of the chains can always be counted.
proof fn lemma_votes_countable(state: ChainState, t: Records, n: nat)
    requires
        voters_fit(state, t),
        n <= state.voter_best.len(),
    ensures
        vote_changes(state, t, n) is Some,
    decreases n,
{
    if n > 0 {
        lemma_votes_countable(state, t, (n - 1) as nat);
        assert(chain_fits(state, t, n - 1));
        law_diff_exists(state, t, state.voter_ledger_tips[n - 1], state.voter_best[n - 1].0);
    }
}

/// The votes of the chains can always be counted, and the lists of votes are then those of the
/// chains up to their best blocks.
pub proof fn lemma_count_votes(state: ChainState, t: Records, n: nat)
    requires
        state.wf(),
        voters_fit(state, t),
        tallies(t.node_votes, counted_votes(state, t)),
        n <= state.voter_best.len(),
    ensures
        vote_changes(state, t, n) is Some,
        known_changes(t, vote_changes(state, t, n).unwrap()),
        tallies(
            t.apply_all(vote_changes(state, t, n).unwrap()).node_votes,
            switched_votes(state, t, n),
        ),
{
    lemma_votes_countable(state, t, n);
    lemma_vote_changes_known(state, t, n);
    assert forall|chain: int| 0 <= chain < state.voter_best.len() implies once(
        votes_up_to(t, #[trigger] state.voter_ledger_tips[chain]),
    ) by {
        assert(chain_fits(state, t, chain));
        assert(voter_fits(state, t, state.voter_ledger_tips[chain]));
    }
    lemma_votes_counted(state, t, n);
}

} // verus!
