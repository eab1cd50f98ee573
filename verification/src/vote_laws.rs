//! The votes of voter chains, block by block.

use vstd::prelude::*;

use crate::block::H256;
use crate::chain::ChainState;
use crate::change::Change;
use crate::consistency::{counted_votes, tallies, votes_up_to};
use crate::flat::lemma_flatten_last;
use crate::invariants::{law_update_counts, linked};
use crate::laws::after_batches;
use crate::ledger::{update, vote_changes};
use crate::store::{list_at, Records};
use crate::update_laws::law_update_leaves_the_rest;
use crate::votes::{chain_votes, diff, diff_at, step};

verus! {

/// The block that a number of links leads to.
pub open spec fn nth_parent(links: Map<H256, H256>, block: H256, n: nat) -> H256
    decreases n,
{
    if n == 0 {
        block
    } else {
        nth_parent(links, links[block], (n - 1) as nat)
    }
}

/// The votes of a block and of its ancestors, block by block, each with the level it is from.
spec fn votes_down(t: Records, block: H256, level: u64, n: nat) -> Seq<Seq<(H256, u64)>> {
    Seq::new(
        n,
        |k: int|
            list_at(t.votes, nth_parent(t.voter_parent, block, k as nat)).map_values(
                |vote: H256| (vote, (level - k) as u64),
            ),
    )
}

proof fn lemma_votes_down_first(t: Records, block: H256, level: u64, n: nat)
    requires
        n > 0,
        level > 0 || n == 1,
    ensures
        votes_down(t, block, level, n).flatten() == list_at(t.votes, block).map_values(
            |vote: H256| (vote, level),
        ) + votes_down(
            t,
            t.voter_parent[block],
            (level - 1) as u64,
            (n - 1) as nat,
        ).flatten(),
{
    let all = votes_down(t, block, level, n);
    let rest = votes_down(t, t.voter_parent[block], (level - 1) as u64, (n - 1) as nat);
    let first = seq![list_at(t.votes, block).map_values(|vote: H256| (vote, level))];
    assert forall|k: int| 0 <= k < n implies #[trigger] all[k] == (first + rest)[k] by {
        if k > 0 {
            assert(all[k] =~= rest[k - 1]);
        } else {
            assert(all[0] =~= first[0]);
        }
    }
    assert(all =~= first + rest);
    vstd::seq_lib::lemma_flatten_concat(first, rest);
    first.lemma_flatten_one_element();
}

/// The votes on a chain: those of the block that it ends in, then those of its parent, and so on
/// down to level 0, all of them, each with the level it is from.
pub proof fn law_votes_on_a_chain(t: Records, block: H256, level: u64)
    ensures
        chain_votes(t, block, level) == Seq::new(
            (level + 1) as nat,
            |k: int|
                list_at(t.votes, nth_parent(t.voter_parent, block, k as nat)).map_values(
                    |vote: H256| (vote, (level - k) as u64),
                ),
        ).flatten(),
    decreases level,
{
    let n = (level + 1) as nat;
    assert(votes_down(t, block, level, n) =~= Seq::new(
        n,
        |k: int|
            list_at(t.votes, nth_parent(t.voter_parent, block, k as nat)).map_values(
                |vote: H256| (vote, (level - k) as u64),
            ),
    ));
    lemma_votes_down_first(t, block, level, n);
    let own = list_at(t.votes, block).map_values(|vote: H256| (vote, level));
    if level == 0 {
        let none = votes_down(t, t.voter_parent[block], (level - 1) as u64, 0);
        assert(none =~= Seq::empty());
        assert(none.flatten() =~= Seq::empty());
        assert(own + none.flatten() =~= own);
    } else {
        let below = (level - 1) as u64;
        law_votes_on_a_chain(t, t.voter_parent[block], below);
        assert(votes_down(t, t.voter_parent[block], below, level as nat) =~= Seq::new(
            (below + 1) as nat,
            |k: int|
                list_at(
                    t.votes,
                    nth_parent(t.voter_parent, t.voter_parent[block], k as nat),
                ).map_values(|vote: H256| (vote, (below - k) as u64)),
        ));
    }
}

/// A chain has a vote from a level if and only if the block of the chain on that level has it.
proof fn lemma_chain_has_vote(t: Records, block: H256, level: u64, vote: H256, from: u64)
    ensures
        chain_votes(t, block, level).contains((vote, from)) <==> from <= level && list_at(
            t.votes,
            nth_parent(t.voter_parent, block, (level - from) as nat),
        ).contains(vote),
    decreases level,
{
    let own = list_at(t.votes, block);
    let here = own.map_values(|vote: H256| (vote, level));
    assert forall|v: H256, l: u64| #[trigger] here.contains((v, l)) <==> l == level && own.contains(
        v,
    ) by {
        if here.contains((v, l)) {
            let i = choose|i: int| 0 <= i < here.len() && here[i] == (v, l);
            assert(own[i] == v);
        }
        if l == level && own.contains(v) {
            let i = choose|i: int| 0 <= i < own.len() && own[i] == v;
            assert(here[i] == (v, l));
        }
    }
    let all = chain_votes(t, block, level);
    if level > 0 {
        let rest = chain_votes(t, t.voter_parent[block], (level - 1) as u64);
        lemma_chain_has_vote(t, t.voter_parent[block], (level - 1) as u64, vote, from);
        assert(all =~= here + rest);
        assert(all.contains((vote, from)) <==> here.contains((vote, from)) || rest.contains(
            (vote, from),
        )) by {
            if here.contains((vote, from)) {
                let i = choose|i: int| 0 <= i < here.len() && here[i] == (vote, from);
                assert(all[i] == (vote, from));
            }
            if rest.contains((vote, from)) {
                let i = choose|i: int| 0 <= i < rest.len() && rest[i] == (vote, from);
                assert(all[here.len() + i] == (vote, from));
            }
            if all.contains((vote, from)) {
                let i = choose|i: int| 0 <= i < all.len() && all[i] == (vote, from);
                if i < here.len() {
                    assert(here[i] == (vote, from));
                } else {
                    assert(rest[i - here.len()] == (vote, from));
                }
            }
        }
    } else {
        assert(all =~= here);
    }
}

/// After an update the list of votes for a block has a vote from a level of a voter chain, once, if
/// and only if the block on that level of the way to the chain's best block votes for it.
pub proof fn law_update_counts_every_vote(
    state: ChainState,
    t: Records,
    block: H256,
    chain: u16,
    level: u64,
)
    requires
        update(state, t) is Some,
        linked(state, t),
        tallies(t.node_votes, counted_votes(state, t)),
    ensures
        ({
            let after = after_batches(t, update(state, t).unwrap().batches);
            let best = state.voter_best[chain as int].0;
            let top = t.voter_level[best];
            &&& list_at(after.node_votes, block).no_duplicates()
            &&& list_at(after.node_votes, block).contains((chain, level)) <==> chain
                < state.voter_best.len() && level <= top && list_at(
                t.votes,
                nth_parent(t.voter_parent, best, (top - level) as nat),
            ).contains(block)
        }),
{
    law_update_counts(state, t);
    law_update_leaves_the_rest(state, t);
    let done = update(state, t).unwrap();
    let after = after_batches(t, done.batches);
    assert(counted_votes(done.state, after).contains((block, chain, level)) <==> list_at(
        after.node_votes,
        block,
    ).contains((chain, level)));
    if chain < state.voter_best.len() {
        let best = state.voter_best[chain as int].0;
        assert(done.state.voter_ledger_tips[chain as int] == best);
        lemma_chain_has_vote(after, best, after.voter_level[best], block, level);
        assert(votes_up_to(after, best) == chain_votes(after, best, after.voter_level[best]));
    }
}

/// Whether two voter chains meet after so many steps down from the blocks that they end in, and not
/// before.
pub open spec fn meet_after(
    t: Records,
    from: H256,
    from_level: u64,
    to: H256,
    to_level: u64,
    n: nat,
    m: nat,
) -> bool {
    &&& n <= from_level
    &&& m <= to_level
    &&& from_level - n == to_level - m
    &&& nth_parent(t.voter_parent, from, n) == nth_parent(t.voter_parent, to, m)
    &&& forall|i: nat, j: nat|
        i < n && j < m && from_level - i == to_level - j ==> #[trigger] nth_parent(
            t.voter_parent,
            from,
            i,
        ) != #[trigger] nth_parent(t.voter_parent, to, j)
}

/// Whether these are the votes that so many blocks from a block down cast.
pub open spec fn cast_by(
    t: Records,
    block: H256,
    level: u64,
    n: nat,
    votes: Seq<(H256, u64)>,
) -> bool {
    &&& forall|k: nat|
        k < n ==> t.votes.contains_key(#[trigger] nth_parent(t.voter_parent, block, k))
    &&& votes == Seq::new(
        n,
        |k: int|
            t.votes[nth_parent(t.voter_parent, block, k as nat)].map_values(
                |vote: H256| (vote, (level - k) as u64),
            ),
    ).flatten()
}

proof fn lemma_cast_by_more(
    t: Records,
    block: H256,
    level: u64,
    n: nat,
    rest: Seq<(H256, u64)>,
)
    requires
        level > 0,
        t.votes.contains_key(block),
        cast_by(t, t.voter_parent[block], (level - 1) as u64, n, rest),
    ensures
        cast_by(
            t,
            block,
            level,
            n + 1,
            t.votes[block].map_values(|vote: H256| (vote, level)) + rest,
        ),
{
    let below = (level - 1) as u64;
    let parent = t.voter_parent[block];
    assert forall|k: nat| k < n + 1 implies t.votes.contains_key(
        #[trigger] nth_parent(t.voter_parent, block, k),
    ) by {
        if k > 0 {
            assert(t.votes.contains_key(nth_parent(t.voter_parent, parent, (k - 1) as nat)));
        }
    }
    lemma_votes_down_first(t, block, level, n + 1);
    let more = Seq::new(
        n,
        |k: int|
            t.votes[nth_parent(t.voter_parent, parent, k as nat)].map_values(
                |vote: H256| (vote, (below - k) as u64),
            ),
    );
    assert forall|k: int| 0 <= k < n implies #[trigger] more[k] == votes_down(
        t,
        parent,
        below,
        n,
    )[k] by {
        assert(t.votes.contains_key(nth_parent(t.voter_parent, parent, k as nat)));
    }
    assert(more =~= votes_down(t, parent, below, n));
    let all = Seq::new(
        n + 1,
        |k: int|
            t.votes[nth_parent(t.voter_parent, block, k as nat)].map_values(
                |vote: H256| (vote, (level - k) as u64),
            ),
    );
    assert forall|k: int| 0 <= k < n + 1 implies #[trigger] all[k] == votes_down(
        t,
        block,
        level,
        n + 1,
    )[k] by {
        assert(t.votes.contains_key(nth_parent(t.voter_parent, block, k as nat)));
    }
    assert(all =~= votes_down(t, block, level, n + 1));
}

proof fn lemma_cast_by_none(t: Records, block: H256, level: u64)
    ensures
        cast_by(t, block, level, 0, Seq::empty()),
{
    let none = Seq::new(
        0,
        |k: int|
            t.votes[nth_parent(t.voter_parent, block, k as nat)].map_values(
                |vote: H256| (vote, (level - k) as u64),
            ),
    );
    assert(none =~= Seq::empty());
    assert(none.flatten() =~= Seq::empty());
}

/// What one more step up on one or both chains does to where they meet.
proof fn lemma_meet_one_up(
    t: Records,
    from: H256,
    from_level: u64,
    to: H256,
    to_level: u64,
    n: nat,
    m: nat,
    up_from: nat,
    up_to: nat,
)
    requires
        up_from <= 1,
        up_to <= 1,
        up_from + up_to > 0,
        up_from <= from_level,
        up_to <= to_level,
        up_from == 1 && up_to == 1 ==> from_level == to_level && from != to,
        up_from == 0 ==> from_level < to_level,
        up_to == 0 ==> to_level < from_level,
        meet_after(
            t,
            nth_parent(t.voter_parent, from, up_from),
            (from_level - up_from) as u64,
            nth_parent(t.voter_parent, to, up_to),
            (to_level - up_to) as u64,
            n,
            m,
        ),
    ensures
        meet_after(t, from, from_level, to, to_level, n + up_from, m + up_to),
{
    let links = t.voter_parent;
    lemma_nth_parent_sum(links, from, up_from, n);
    lemma_nth_parent_sum(links, to, up_to, m);
    assert forall|i: nat, j: nat|
        i < n + up_from && j < m + up_to && from_level - i == to_level - j implies #[trigger]
        nth_parent(links, from, i) != #[trigger] nth_parent(links, to, j) by {
        if i >= up_from && j >= up_to {
            lemma_nth_parent_sum(links, from, up_from, (i - up_from) as nat);
            lemma_nth_parent_sum(links, to, up_to, (j - up_to) as nat);
            assert(nth_parent(links, nth_parent(links, from, up_from), (i - up_from) as nat)
                != nth_parent(links, nth_parent(links, to, up_to), (j - up_to) as nat));
        }
    }
}

proof fn lemma_nth_parent_sum(links: Map<H256, H256>, block: H256, a: nat, b: nat)
    ensures
        nth_parent(links, block, a + b) == nth_parent(links, nth_parent(links, block, a), b),
    decreases a,
{
    if a > 0 {
        lemma_nth_parent_sum(links, links[block], (a - 1) as nat, b);
    }
}

proof fn lemma_diff_meets(
    t: Records,
    from: H256,
    from_level: u64,
    to: H256,
    to_level: u64,
) -> (steps: (nat, nat))
    requires
        diff_at(t, from, from_level, to, to_level) is Some,
    ensures
        meet_after(t, from, from_level, to, to_level, steps.0, steps.1),
        diff_at(t, from, from_level, to, to_level) matches Some((added, removed)) && cast_by(
            t,
            to,
            to_level,
            steps.1,
            added,
        ) && cast_by(t, from, from_level, steps.0, removed),
    decreases from_level + to_level,
{
    reveal_with_fuel(nth_parent, 2);
    let none = Seq::<(H256, u64)>::empty();
    if to_level > from_level {
        let (votes, parent) = step(t, to, to_level).unwrap();
        let below = (to_level - 1) as u64;
        let (n, m) = lemma_diff_meets(t, from, from_level, parent, below);
        let (a, r) = diff_at(t, from, from_level, parent, below).unwrap();
        lemma_cast_by_more(t, to, to_level, m, a);
        assert(none + r =~= r);
        lemma_meet_one_up(t, from, from_level, to, to_level, n, m, 0, 1);
        (n, m + 1)
    } else if from_level > to_level {
        let (votes, parent) = step(t, from, from_level).unwrap();
        let below = (from_level - 1) as u64;
        let (n, m) = lemma_diff_meets(t, parent, below, to, to_level);
        let (a, r) = diff_at(t, parent, below, to, to_level).unwrap();
        lemma_cast_by_more(t, from, from_level, n, r);
        assert(none + a =~= a);
        lemma_meet_one_up(t, from, from_level, to, to_level, n, m, 1, 0);
        (n + 1, m)
    } else if to == from {
        lemma_cast_by_none(t, to, to_level);
        (0, 0)
    } else {
        let (added, to_parent) = step(t, to, to_level).unwrap();
        let (removed, from_parent) = step(t, from, from_level).unwrap();
        let below = (to_level - 1) as u64;
        let (n, m) = lemma_diff_meets(t, from_parent, below, to_parent, below);
        let (a, r) = diff_at(t, from_parent, below, to_parent, below).unwrap();
        lemma_cast_by_more(t, to, to_level, m, a);
        lemma_cast_by_more(t, from, from_level, n, r);
        lemma_meet_one_up(t, from, from_level, to, to_level, n, m, 1, 1);
        (n + 1, m + 1)
    }
}

/// A switch of a voter chain from one block to another adds the votes of the new block and of its
/// ancestors above the block where the two chains first meet, from the new block down, and removes
/// those of the old block and of its ancestors above there, from the old block down; each vote
/// comes with the level it is from.
pub proof fn law_switch_changes_votes_above_the_meeting(t: Records, from: H256, to: H256)
    requires
        diff(t, from, to) is Some,
    ensures
        ({
            let (added, removed) = diff(t, from, to).unwrap();
            let from_level = t.voter_level[from];
            let to_level = t.voter_level[to];
            exists|n: nat, m: nat| #[trigger]
                meet_after(t, from, from_level, to, to_level, n, m) && cast_by(
                    t,
                    to,
                    to_level,
                    m,
                    added,
                ) && cast_by(t, from, from_level, n, removed)
        }),
{
    let (n, m) = lemma_diff_meets(t, from, t.voter_level[from], to, t.voter_level[to]);
    assert(meet_after(t, from, t.voter_level[from], to, t.voter_level[to], n, m));
}

/// The first batch of an update has, voter chain by voter chain, the votes that the switch from the
/// chain's tip to its best block removes, and then those that it adds.
pub proof fn law_first_batch_has_the_votes(state: ChainState, t: Records)
    requires
        update(state, t) is Some,
        state.wf(),
    ensures
        ({
            let tips = state.voter_ledger_tips;
            let best = state.voter_best;
            &&& update(state, t).unwrap().batches.len() >= 2
            &&& forall|c: int|
                0 <= c < best.len() ==> diff(t, #[trigger] tips[c], best[c].0) is Some
            &&& update(state, t).unwrap().batches[0] == Seq::new(
                best.len(),
                |c: int|
                    diff(t, tips[c], best[c].0).unwrap().1.map_values(
                        |vote: (H256, u64)| Change::NodeVote(vote.0, false, c as u16, vote.1),
                    ) + diff(t, tips[c], best[c].0).unwrap().0.map_values(
                        |vote: (H256, u64)| Change::NodeVote(vote.0, true, c as u16, vote.1),
                    ),
            ).flatten()
        }),
{
    lemma_vote_lists(state, t, state.voter_best.len());
    let done = update(state, t).unwrap();
    assert(done.batches[0] == vote_changes(state, t, state.voter_best.len()).unwrap());
}

proof fn lemma_vote_lists(state: ChainState, t: Records, n: nat)
    requires
        n <= state.voter_best.len(),
        vote_changes(state, t, n) is Some,
    ensures
        forall|c: int|
            0 <= c < n ==> diff(t, #[trigger] state.voter_ledger_tips[c], state.voter_best[c].0)
                is Some,
        vote_changes(state, t, n).unwrap() == Seq::new(
            n,
            |c: int|
                diff(t, state.voter_ledger_tips[c], state.voter_best[c].0).unwrap().1.map_values(
                    |vote: (H256, u64)| Change::NodeVote(vote.0, false, c as u16, vote.1),
                ) + diff(
                    t,
                    state.voter_ledger_tips[c],
                    state.voter_best[c].0,
                ).unwrap().0.map_values(
                    |vote: (H256, u64)| Change::NodeVote(vote.0, true, c as u16, vote.1),
                ),
        ).flatten(),
    decreases n,
{
    let lists = Seq::new(
        n,
        |c: int|
            diff(t, state.voter_ledger_tips[c], state.voter_best[c].0).unwrap().1.map_values(
                |vote: (H256, u64)| Change::NodeVote(vote.0, false, c as u16, vote.1),
            ) + diff(t, state.voter_ledger_tips[c], state.voter_best[c].0).unwrap().0.map_values(
                |vote: (H256, u64)| Change::NodeVote(vote.0, true, c as u16, vote.1),
            ),
    );
    if n > 0 {
        lemma_vote_lists(state, t, (n - 1) as nat);
        lemma_flatten_last(lists);
        assert(lists.drop_last() =~= Seq::new(
            (n - 1) as nat,
            |c: int|
                diff(t, state.voter_ledger_tips[c], state.voter_best[c].0).unwrap().1.map_values(
                    |vote: (H256, u64)| Change::NodeVote(vote.0, false, c as u16, vote.1),
                ) + diff(
                    t,
                    state.voter_ledger_tips[c],
                    state.voter_best[c].0,
                ).unwrap().0.map_values(
                    |vote: (H256, u64)| Change::NodeVote(vote.0, true, c as u16, vote.1),
                ),
        ));
        let (added, removed) = diff(
            t,
            state.voter_ledger_tips[n - 1],
            state.voter_best[n - 1].0,
        ).unwrap();
        let c = (n - 1) as u16;
        assert(crate::ledger::vote_list(removed, false, c) + crate::ledger::vote_list(
            added,
            true,
            c,
        ) =~= lists.last());
    } else {
        assert(lists =~= Seq::empty());
        assert(lists.flatten() =~= Seq::empty());
    }
}

} // verus!
