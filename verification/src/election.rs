//! Electing leaders: what the leader of a level is, and that the leaders follow the votes.

use vstd::prelude::*;

use crate::block::H256;
use crate::change::Change;
use crate::consistency::{leader_of, leaders_fit};
use crate::ledger::{
    affected_levels, all_levels, elect, front_runner, leader_change, leader_changes,
    lemma_only_leaders, lemma_only_votes, level_of, only_leaders, only_votes,
};
use crate::store::{at, list_at, Records};
use crate::tally::known_changes;

verus! {

/// The number of votes that a block has.
pub open spec fn votes_of(votes: Map<H256, Seq<(u16, u64)>>, block: H256) -> nat {
    list_at(votes, block).len()
}

proof fn lemma_front_runner(votes: Map<H256, Seq<(u16, u64)>>, blocks: Seq<H256>, n: nat)
    requires
        n <= blocks.len(),
    ensures
        ({
            let (leader, most) = front_runner(votes, blocks, n);
            &&& forall|i: int| 0 <= i < n ==> votes_of(votes, #[trigger] blocks[i]) <= most
            &&& match leader {
                Some(block) => exists|i: int| #[trigger]
                    leads_at(votes, blocks, n, i) && blocks[i] == block && votes_of(votes, block)
                        == most,
                None => most == 0,
            }
        }),
    decreases n,
{
    if n > 0 {
        let k = (n - 1) as nat;
        lemma_front_runner(votes, blocks, k);
        let (leader, most) = front_runner(votes, blocks, k);
        let count = votes_of(votes, blocks[k as int]);
        if count > most {
            assert(leads_at(votes, blocks, n, k as int));
        } else if leader is Some {
            let i = choose|i: int| #[trigger]
                leads_at(votes, blocks, k, i) && blocks[i] == leader.unwrap() && votes_of(
                    votes,
                    leader.unwrap(),
                ) == most;
            assert(leads_at(votes, blocks, n, i));
        }
    }
}

/// Whether the block at an index leads the first `n` blocks: it has a vote, more votes than any
/// block before it, and no fewer than any block after it.
pub open spec fn leads_at(
    votes: Map<H256, Seq<(u16, u64)>>,
    blocks: Seq<H256>,
    n: nat,
    index: int,
) -> bool {
    &&& 0 <= index < n
    &&& votes_of(votes, blocks[index]) > 0
    &&& forall|i: int|
        0 <= i < index ==> votes_of(votes, #[trigger] blocks[i]) < votes_of(votes, blocks[index])
    &&& forall|i: int|
        index < i < n ==> votes_of(votes, #[trigger] blocks[i]) <= votes_of(votes, blocks[index])
}

/// The leader is the block with the most votes, the first of them that was heard; there is none
/// if and only if no block has a vote.
pub proof fn law_leader_has_most_votes(votes: Map<H256, Seq<(u16, u64)>>, blocks: Seq<H256>)
    ensures
        match elect(votes, blocks) {
            Some(block) => exists|i: int| #[trigger]
                leads_at(votes, blocks, blocks.len(), i) && blocks[i] == block,
            None => forall|i: int|
                0 <= i < blocks.len() ==> votes_of(votes, #[trigger] blocks[i]) == 0,
        },
{
    lemma_front_runner(votes, blocks, blocks.len());
}

/// The election looks at the number of votes alone.
pub(crate) proof fn lemma_same_votes_same_leader(
    a: Map<H256, Seq<(u16, u64)>>,
    b: Map<H256, Seq<(u16, u64)>>,
    blocks: Seq<H256>,
    n: nat,
)
    requires
        n <= blocks.len(),
        forall|i: int|
            0 <= i < blocks.len() ==> votes_of(a, #[trigger] blocks[i]) == votes_of(b, blocks[i]),
    ensures
        front_runner(a, blocks, n) == front_runner(b, blocks, n),
    decreases n,
{
    if n > 0 {
        lemma_same_votes_same_leader(a, b, blocks, (n - 1) as nat);
        assert(votes_of(a, blocks[n - 1]) == votes_of(b, blocks[n - 1]));
    }
}

pub(crate) proof fn lemma_known_changes_prefix(t: Records, changes: Seq<Change>)
    requires
        known_changes(t, changes),
    ensures
        only_votes(changes),
        changes.len() > 0 ==> known_changes(t, changes.drop_last()),
{
    if changes.len() > 0 {
        let some = changes.drop_last();
        assert forall|i: int| 0 <= i < some.len() implies (#[trigger] some[i]) is NodeVote
            && t.proposer_level.contains_key(some[i]->NodeVote_0) by {
            assert(some[i] == changes[i]);
        }
    }
}

/// A block whose level is not affected keeps its votes.
proof fn lemma_unaffected(t: Records, changes: Seq<Change>, block: H256)
    requires
        known_changes(t, changes),
        !affected_levels(t, changes).contains(t.proposer_level[block]),
    ensures
        list_at(t.apply_all(changes).node_votes, block) == list_at(t.node_votes, block),
    decreases changes.len(),
{
    if changes.len() > 0 {
        lemma_known_changes_prefix(t, changes);
        assert(changes.last() is NodeVote);
        lemma_unaffected(t, changes.drop_last(), block);
    }
}

/// The affected levels have blocks.
proof fn lemma_affected_exist(t: Records, changes: Seq<Change>, level: u64)
    requires
        known_changes(t, changes),
        affected_levels(t, changes).contains(level),
    ensures
        exists|block: H256| #[trigger]
            t.proposer_level.contains_key(block) && t.proposer_level[block] == level,
    decreases changes.len(),
{
    if changes.len() > 0 {
        lemma_known_changes_prefix(t, changes);
        let last = changes.last();
        assert(last is NodeVote);
        assert(t.proposer_level.contains_key(last->NodeVote_0));
        if t.proposer_level[last->NodeVote_0] != level {
            lemma_affected_exist(t, changes.drop_last(), level);
        }
    }
}

/// The leaders of levels that have blocks can be elected.
pub proof fn lemma_leaders_electable(t: Records, levels: Set<u64>, n: nat)
    requires
        n <= all_levels(),
        forall|level: u64| levels.contains(level) ==> #[trigger] t.tree.contains_key(level),
    ensures
        leader_changes(t, levels, n) is Some,
    decreases n,
{
    if n > 0 {
        lemma_leaders_electable(t, levels, (n - 1) as nat);
        if levels.contains((n - 1) as u64) {
            assert(t.tree.contains_key((n - 1) as u64));
        }
    }
}

/// What changes of leaders do: the levels that are looked at get the leader elected from their
/// blocks, and below the first change every leader stays.
pub proof fn lemma_leader_changes(t: Records, levels: Set<u64>, n: nat)
    requires
        n <= all_levels(),
        leader_changes(t, levels, n) is Some,
    ensures
        ({
            let changes = leader_changes(t, levels, n).unwrap();
            let after = t.apply_all(changes).leader;
            &&& only_leaders(changes)
            &&& forall|level: u64|
                level < n && levels.contains(level) ==> #[trigger] t.tree.contains_key(level)
            &&& forall|level: u64| #[trigger]
                at(after, level) == if level < n && levels.contains(level) {
                    elect(t.node_votes, t.tree[level])
                } else {
                    at(t.leader, level)
                }
            &&& changes.len() > 0 ==> level_of(changes[0]) < n && levels.contains(
                level_of(changes[0]),
            ) && at(after, level_of(changes[0])) != at(t.leader, level_of(changes[0])) && forall|
                level: u64,
            |
                level < level_of(changes[0]) ==> #[trigger] at(after, level) == at(t.leader, level)
        }),
    decreases n,
{
    if n == 0 {
        assert(t.apply_all(Seq::<Change>::empty()) == t);
    } else {
        let level = (n - 1) as u64;
        lemma_leader_changes(t, levels, (n - 1) as nat);
        let before = leader_changes(t, levels, (n - 1) as nat).unwrap();
        let changes = leader_changes(t, levels, n).unwrap();
        if levels.contains(level) {
            assert(t.tree.contains_key(level));
            let leader = elect(t.node_votes, t.tree[level]);
            if leader != at(t.leader, level) {
                let change = leader_change(level, leader);
                assert(changes == before.push(change));
                assert(changes.drop_last() =~= before);
                assert(only_leaders(changes)) by {
                    assert forall|i: int| 0 <= i < changes.len() implies (#[trigger] changes[i])
                        is Leader || changes[i] is NoLeader by {
                        if i < before.len() {
                            assert(changes[i] == before[i]);
                        }
                    }
                }
                let after = t.apply_all(changes).leader;
                let earlier = t.apply_all(before).leader;
                assert forall|l: u64| l != level implies #[trigger] at(after, l) == at(
                    earlier,
                    l,
                ) by {}
                assert(at(after, level) == leader);
                if before.len() > 0 {
                    assert(changes[0] == before[0]);
                } else {
                    assert(changes[0] == change);
                    assert(level_of(change) == level);
                    assert(t.apply_all(before) == t);
                }
            }
        }
    }
}

/// The leaders of the levels that votes affect can be elected where known blocks have a level.
pub proof fn lemma_affected_electable(t: Records, votes: Seq<Change>)
    requires
        known_changes(t, votes),
        forall|block: H256| #[trigger]
            t.proposer_level.contains_key(block) ==> t.tree.contains_key(t.proposer_level[block]),
    ensures
        leader_changes(t.apply_all(votes), affected_levels(t, votes), all_levels()) is Some,
{
    let counted = t.apply_all(votes);
    let levels = affected_levels(t, votes);
    lemma_known_changes_prefix(t, votes);
    lemma_only_votes(t, votes);
    assert forall|level: u64| levels.contains(level) implies #[trigger] counted.tree.contains_key(
        level,
    ) by {
        lemma_affected_exist(t, votes, level);
    }
    lemma_leaders_electable(counted, levels, all_levels());
}

/// After the votes are counted, electing the leaders of the affected levels anew gives every
/// level the leader that it is to have.
pub proof fn lemma_leaders_follow_votes(t: Records, votes: Seq<Change>)
    requires
        leaders_fit(t),
        known_changes(t, votes),
        leader_changes(t.apply_all(votes), affected_levels(t, votes), all_levels()) is Some,
        forall|level: u64, i: int|
            t.tree.contains_key(level) && 0 <= i < t.tree[level].len() ==> at(
                t.proposer_level,
                #[trigger] t.tree[level][i],
            ) == Some(level),
    ensures
        ({
            let leaders = leader_changes(
                t.apply_all(votes),
                affected_levels(t, votes),
                all_levels(),
            ).unwrap();
            let after = t.apply_all(votes).apply_all(leaders);
            &&& only_leaders(leaders)
            &&& leaders_fit(after)
            &&& leaders.len() > 0 ==> affected_levels(t, votes).contains(level_of(leaders[0]))
                && forall|level: u64|
                level < level_of(leaders[0]) ==> #[trigger] at(after.leader, level) == at(
                    t.leader,
                    level,
                )
        }),
{
    let counted = t.apply_all(votes);
    let levels = affected_levels(t, votes);
    lemma_known_changes_prefix(t, votes);
    lemma_only_votes(t, votes);
    lemma_leader_changes(counted, levels, all_levels());
    let leaders = leader_changes(counted, levels, all_levels()).unwrap();
    lemma_only_leaders(counted, leaders);
    let after = counted.apply_all(leaders);
    assert forall|level: u64| #[trigger] at(after.leader, level) == leader_of(after, level) by {
        assert(at(t.leader, level) == leader_of(t, level));
        if !levels.contains(level) && t.tree.contains_key(level) {
            let blocks = t.tree[level];
            assert forall|i: int| 0 <= i < blocks.len() implies votes_of(
                counted.node_votes,
                #[trigger] blocks[i],
            ) == votes_of(t.node_votes, blocks[i]) by {
                assert(at(t.proposer_level, t.tree[level][i]) == Some(level));
                lemma_unaffected(t, votes, blocks[i]);
            }
            lemma_same_votes_same_leader(counted.node_votes, t.node_votes, blocks, blocks.len());
        }
    }
}

} // verus!
