//! Records that are whole: no record is missing that a question about the chain needs.

use vstd::prelude::*;

use crate::block::{Block, Content, H256};
use crate::chain::{insert, ChainState};
use crate::change::Change;
use crate::consistency::{
    chain_fits, consistent, counted_votes, level_fits, proposer_fits, voter_fits,
};
use crate::insertion::{lemma_records_with, records_with};
use crate::invariants::{lemma_update_parts, sound};
use crate::laws::after_batches;
use crate::ledger::{update, vote_changes, vote_list};
use crate::merge::{lemma_first_vote, with_vote_change};
use crate::store::{at, list_at, Records};
use crate::votes::diff;

verus! {

/// Whether the known proposer blocks are on their levels, and the levels go without a gap up to
/// that of the best block.
pub open spec fn tree_whole(state: ChainState, t: Records) -> bool {
    &&& forall|block: H256| #[trigger]
        t.proposer_level.contains_key(block) ==> t.tree.contains_key(t.proposer_level[block])
            && t.tree[t.proposer_level[block]].contains(block)
    &&& forall|level: u64| #[trigger]
        t.tree.contains_key(level) <==> level <= state.proposer_best.1
    &&& forall|level: u64| #[trigger] t.tree.contains_key(level) ==> t.tree[level].len() > 0
}

/// Whether everything about a voter block is recorded: it is on one of the voter chains, and one
/// level above its parent, which is known, unless it has none.
pub open spec fn voter_whole(state: ChainState, t: Records, block: H256) -> bool {
    &&& t.voter_chain.contains_key(block)
    &&& t.voter_chain[block] < state.voter_best.len()
    &&& t.voted_level.contains_key(block)
    &&& t.votes.contains_key(block)
    &&& if t.voter_level[block] == 0 {
        !t.voter_parent.contains_key(block)
    } else {
        t.voter_parent.contains_key(block) && at(t.voter_level, t.voter_parent[block]) == Some(
            (t.voter_level[block] - 1) as u64,
        )
    }
}

/// Whether everything about the known voter blocks is recorded, and the best blocks are known.
pub open spec fn voters_whole(state: ChainState, t: Records) -> bool {
    &&& forall|block: H256| #[trigger]
        t.voter_level.contains_key(block) ==> voter_whole(state, t, block)
    &&& forall|chain: int|
        0 <= chain < state.voter_best.len() ==> at(
            t.voter_level,
            (#[trigger] state.voter_best[chain]).0,
        ) == Some(state.voter_best[chain].1)
}

/// Whether the votes that are counted are of the voter chains.
pub open spec fn votes_whole(state: ChainState, t: Records) -> bool {
    forall|block: H256, i: int|
        0 <= i < list_at(t.node_votes, block).len() ==> (#[trigger] list_at(
            t.node_votes,
            block,
        )[i]).0 < state.voter_best.len()
}

/// Whether a voter block is new, or recorded already as it is.
pub open spec fn sound_voter(t: Records, block: Block) -> bool {
    block.content is Voter ==> !t.voter_level.contains_key(block.hash) || records_with(t, block)
        == t
}

/// A proposer block that is new or recorded already, and any other block, leaves the tree whole,
/// whatever it refers to.
pub proof fn law_insert_keeps_tree_whole(state: ChainState, t: Records, block: Block)
    requires
        insert(state, t, block) is Some,
        tree_whole(state, t),
        sound(t, block),
    ensures
        tree_whole(
            insert(state, t, block).unwrap().0,
            t.apply_all(insert(state, t, block).unwrap().1),
        ),
{
    lemma_records_with(state, t, block);
    let now = insert(state, t, block).unwrap().0;
    let after = records_with(t, block);
    if block.content is Proposer {
        let level = (t.proposer_level[block.parent] + 1) as u64;
        assert(t.proposer_level.contains_key(block.parent));
        assert(t.tree.contains_key(t.proposer_level[block.parent]));
        assert(level <= state.proposer_best.1 + 1);
        let list = list_at(t.tree, level);
        if !list.contains(block.hash) {
            assert(list.push(block.hash)[list.len() as int] == block.hash);
        }
        assert(after.tree[level].contains(block.hash));
        assert forall|b: H256| #[trigger] after.proposer_level.contains_key(
            b,
        ) implies after.tree.contains_key(after.proposer_level[b])
            && after.tree[after.proposer_level[b]].contains(b) by {
            if b != block.hash {
                assert(t.proposer_level.contains_key(b));
                let old_list = t.tree[t.proposer_level[b]];
                let i = choose|i: int| 0 <= i < old_list.len() && old_list[i] == b;
                assert(after.tree[t.proposer_level[b]][i] == b);
            }
        }
        if after == t {
            assert(t.proposer_level.contains_key(block.hash));
        }
        assert forall|l: u64| #[trigger] after.tree.contains_key(l) <==> l
            <= now.proposer_best.1 by {
            assert(t.tree.contains_key(l) <==> l <= state.proposer_best.1);
        }
        assert forall|l: u64| #[trigger] after.tree.contains_key(l) implies after.tree[l].len()
            > 0 by {
            if l != level {
                assert(t.tree.contains_key(l));
            }
        }
    }
}

/// A voter block that is new or recorded already, and any other block, leaves the voter blocks
/// whole, whatever it votes for.
pub proof fn law_insert_keeps_voters_whole(state: ChainState, t: Records, block: Block)
    requires
        insert(state, t, block) is Some,
        voters_whole(state, t),
        sound_voter(t, block),
    ensures
        voters_whole(
            insert(state, t, block).unwrap().0,
            t.apply_all(insert(state, t, block).unwrap().1),
        ),
{
    lemma_records_with(state, t, block);
    let now = insert(state, t, block).unwrap().0;
    let after = records_with(t, block);
    match block.content {
        Content::Voter(content) => {
            let parent = content.voter_parent;
            assert(t.voter_level.contains_key(parent));
            assert(voter_whole(state, t, parent));
            if after == t {
                assert(at(after.voter_level, block.hash) == Some(
                    (t.voter_level[parent] + 1) as u64,
                ));
            }
            assert forall|b: H256| #[trigger] after.voter_level.contains_key(
                b,
            ) implies voter_whole(now, after, b) by {
                if after == t {
                    assert(voter_whole(state, t, b));
                } else if b != block.hash {
                    assert(t.voter_level.contains_key(b));
                    assert(voter_whole(state, t, b));
                    if t.voter_level[b] > 0 {
                        assert(t.voter_level.contains_key(t.voter_parent[b]));
                    }
                }
            }
            assert forall|chain: int| 0 <= chain < now.voter_best.len() implies at(
                after.voter_level,
                (#[trigger] now.voter_best[chain]).0,
            ) == Some(now.voter_best[chain].1) by {
                assert(at(t.voter_level, state.voter_best[chain].0) == Some(
                    state.voter_best[chain].1,
                ));
            }
        },
        _ => {
            assert forall|b: H256| #[trigger] after.voter_level.contains_key(
                b,
            ) implies voter_whole(now, after, b) by {
                assert(voter_whole(state, t, b));
            }
            assert forall|chain: int| 0 <= chain < now.voter_best.len() implies at(
                after.voter_level,
                (#[trigger] now.voter_best[chain]).0,
            ) == Some(now.voter_best[chain].1) by {
                assert(at(t.voter_level, state.voter_best[chain].0) == Some(
                    state.voter_best[chain].1,
                ));
            }
        },
    }
}

/// An update that goes through leaves the tree and the voter blocks whole.
pub proof fn law_update_keeps_whole(state: ChainState, t: Records)
    requires
        update(state, t) is Some,
    ensures
        ({
            let done = update(state, t).unwrap();
            let after = after_batches(t, done.batches);
            &&& tree_whole(state, t) ==> tree_whole(done.state, after)
            &&& voters_whole(state, t) ==> voters_whole(done.state, after)
        }),
{
    lemma_update_parts(state, t);
    let done = update(state, t).unwrap();
    let after = after_batches(t, done.batches);
    if voters_whole(state, t) {
        assert forall|b: H256| #[trigger] after.voter_level.contains_key(b) implies voter_whole(
            done.state,
            after,
            b,
        ) by {
            assert(voter_whole(state, t, b));
        }
    }
}

/// Whether the changes to votes are of the first `n` voter chains.
spec fn of_chains(changes: Seq<Change>, n: nat) -> bool {
    forall|i: int|
        0 <= i < changes.len() ==> (#[trigger] changes[i]) is NodeVote && changes[i]->NodeVote_2 < n
}

proof fn lemma_vote_changes_of_chains(state: ChainState, t: Records, n: nat)
    requires
        n <= u16::MAX,
        vote_changes(state, t, n) is Some,
    ensures
        of_chains(vote_changes(state, t, n).unwrap(), n),
    decreases n,
{
    if n > 0 {
        let k = (n - 1) as nat;
        lemma_vote_changes_of_chains(state, t, k);
        let before = vote_changes(state, t, k).unwrap();
        let (added, removed) = diff(
            t,
            state.voter_ledger_tips[k as int],
            state.voter_best[k as int].0,
        ).unwrap();
        let r = vote_list(removed, false, k as u16);
        let a = vote_list(added, true, k as u16);
        let list = vote_changes(state, t, n).unwrap();
        assert(list == before + (r + a));
        assert forall|i: int| 0 <= i < list.len() implies (#[trigger] list[i]) is NodeVote
            && list[i]->NodeVote_2 < n by {
            if i < before.len() {
                assert(list[i] == before[i]);
            } else if i < before.len() + r.len() {
                assert(list[i] == r[i - before.len()]);
            } else {
                assert(list[i] == a[i - before.len() - r.len()]);
            }
        }
    }
}

proof fn lemma_votes_stay_whole(state: ChainState, t: Records, changes: Seq<Change>)
    requires
        votes_whole(state, t),
        of_chains(changes, state.voter_best.len()),
    ensures
        votes_whole(state, t.apply_all(changes)),
    decreases changes.len(),
{
    if changes.len() > 0 {
        let some = changes.drop_last();
        let last = changes.last();
        assert forall|i: int| 0 <= i < some.len() implies (#[trigger] some[i]) is NodeVote
            && some[i]->NodeVote_2 < state.voter_best.len() by {
            assert(some[i] == changes[i]);
        }
        lemma_votes_stay_whole(state, t, some);
        assert(changes[changes.len() - 1] == last);
        let before = t.apply_all(some);
        let after = t.apply_all(changes);
        let changed = last->NodeVote_0;
        let list = list_at(before.node_votes, changed);
        let change = (last->NodeVote_1, last->NodeVote_2, last->NodeVote_3);
        lemma_first_vote(list, change.1, 0);
        assert forall|block: H256, i: int|
            0 <= i < list_at(after.node_votes, block).len() implies (#[trigger] list_at(
            after.node_votes,
            block,
        )[i]).0 < state.voter_best.len() by {
            if block == changed {
                let new = with_vote_change(list, change);
                assert(list_at(after.node_votes, block) == new);
                if i < list.len() {
                    assert(list_at(before.node_votes, changed)[i].0 < state.voter_best.len());
                }
                if list.len() > 0 {
                    assert(list_at(before.node_votes, changed)[list.len() - 1].0
                        < state.voter_best.len());
                }
            } else {
                assert(list_at(after.node_votes, block) == list_at(before.node_votes, block));
            }
        }
    }
}

/// An update that goes through leaves only votes of the voter chains.
pub proof fn law_update_keeps_votes_whole(state: ChainState, t: Records)
    requires
        update(state, t) is Some,
        state.wf(),
        votes_whole(state, t),
    ensures
        votes_whole(
            update(state, t).unwrap().state,
            after_batches(t, update(state, t).unwrap().batches),
        ),
{
    lemma_update_parts(state, t);
    let n = state.voter_best.len();
    let votes = vote_changes(state, t, n).unwrap();
    lemma_vote_changes_of_chains(state, t, n);
    lemma_votes_stay_whole(state, t, votes);
    let done = update(state, t).unwrap();
    let after = after_batches(t, done.batches);
    let counted = t.apply_all(votes);
    assert(after.node_votes == counted.node_votes);
    assert forall|block: H256, i: int|
        0 <= i < list_at(after.node_votes, block).len() implies (#[trigger] list_at(
        after.node_votes,
        block,
    )[i]).0 < done.state.voter_best.len() by {
        assert(list_at(counted.node_votes, block)[i].0 < state.voter_best.len());
    }
}

/// A block leaves the votes that are counted as they are.
pub proof fn law_insert_keeps_votes_whole(state: ChainState, t: Records, block: Block)
    requires
        insert(state, t, block) is Some,
        votes_whole(state, t),
    ensures
        votes_whole(
            insert(state, t, block).unwrap().0,
            t.apply_all(insert(state, t, block).unwrap().1),
        ),
{
    lemma_records_with(state, t, block);
    let now = insert(state, t, block).unwrap().0;
    let after = records_with(t, block);
    assert forall|b: H256, i: int|
        0 <= i < list_at(after.node_votes, b).len() implies (#[trigger] list_at(
        after.node_votes,
        b,
    )[i]).0 < now.voter_best.len() by {
        assert(list_at(t.node_votes, b)[i].0 < state.voter_best.len());
    }
}

/// A consistent chain is whole.
pub proof fn law_consistent_is_whole(state: ChainState, t: Records)
    requires
        consistent(state, t),
    ensures
        tree_whole(state, t),
        voters_whole(state, t),
        votes_whole(state, t),
{
    assert forall|block: H256| #[trigger] t.proposer_level.contains_key(
        block,
    ) implies t.tree.contains_key(t.proposer_level[block])
        && t.tree[t.proposer_level[block]].contains(block) by {
        assert(proposer_fits(t, block));
    }
    assert forall|level: u64| #[trigger] t.tree.contains_key(level) implies t.tree[level].len()
        > 0 by {
        assert(level_fits(t, level));
    }
    assert forall|block: H256| #[trigger] t.voter_level.contains_key(block) implies voter_whole(
        state,
        t,
        block,
    ) by {
        assert(voter_fits(state, t, block));
    }
    assert forall|chain: int| 0 <= chain < state.voter_best.len() implies at(
        t.voter_level,
        (#[trigger] state.voter_best[chain]).0,
    ) == Some(state.voter_best[chain].1) by {
        assert(chain_fits(state, t, chain));
    }
    assert forall|block: H256, i: int|
        0 <= i < list_at(t.node_votes, block).len() implies (#[trigger] list_at(
        t.node_votes,
        block,
    )[i]).0 < state.voter_best.len() by {
        let (chain, level) = list_at(t.node_votes, block)[i];
        assert(list_at(t.node_votes, block).contains((chain, level)));
        assert(counted_votes(state, t).contains((block, chain, level)));
    }
}

} // verus!
