//! The chain starts consistent.

use vstd::prelude::*;

use crate::block::H256;
use crate::chain::{genesis_changes, genesis_state, proposer_genesis_changes, voter_genesis_changes};
use crate::change::{lemma_apply_all_concat, Change};
use crate::consistency::{
    chain_fits, consistent, counted_votes, leader_of, ledger_fits, level_fits, proposer_fits,
    proposers_fit, tallies, unreferred_fit, voter_fits, voters_fit, votes_up_to,
};
use crate::election::votes_of;
use crate::ledger::{front_runner, rebuild, traverse, Rebuilt};
use crate::query_laws::{votes_below, votes_within};
use crate::store::{at, list_at, Records};
use crate::votes::stamped;

verus! {

/// The votes for the proposer genesis block: one from the genesis block of each voter chain.
pub open spec fn genesis_votes(n: nat) -> Seq<(u16, u64)> {
    Seq::new(n, |i: int| (i as u16, 0u64))
}

/// Whether the records are those of the genesis blocks of the first `n` voter chains and of the
/// proposer genesis block.
pub open spec fn holds_genesis(t: Records, proposer: H256, voters: Seq<H256>, n: nat) -> bool {
    let none = Seq::<H256>::empty();
    let known = voters.subrange(0, n as int);
    &&& t.proposer_level == Map::empty().insert(proposer, 0u64)
    &&& t.tree == Map::empty().insert(0u64, seq![proposer])
    &&& t.leader == Map::empty().insert(0u64, proposer)
    &&& t.order == Map::empty().insert(0u64, seq![proposer])
    &&& t.proposer_refs == Map::empty().insert(proposer, none)
    &&& t.transaction_refs == Map::empty().insert(proposer, none)
    &&& t.voter_parent == Map::<H256, H256>::empty()
    &&& list_at(t.node_votes, proposer) == genesis_votes(n)
    &&& forall|block: H256|
        block != proposer ==> #[trigger] list_at(t.node_votes, block) == Seq::<(u16, u64)>::empty()
    &&& forall|block: H256| #[trigger]
        at(t.voter_level, block) == if known.contains(block) {
            Some(0u64)
        } else {
            None
        }
    &&& forall|block: H256| #[trigger]
        at(t.voted_level, block) == if known.contains(block) {
            Some(0u64)
        } else {
            None
        }
    &&& forall|block: H256| #[trigger]
        at(t.parent, block) == if known.contains(block) {
            Some(proposer)
        } else {
            None
        }
    &&& forall|block: H256| #[trigger]
        at(t.votes, block) == if known.contains(block) {
            Some(seq![proposer])
        } else {
            None
        }
    &&& forall|block: H256| #[trigger]
        t.voter_chain.contains_key(block) <==> known.contains(block)
    &&& forall|i: int| 0 <= i < n ==> #[trigger] t.voter_chain[voters[i]] == i
}

proof fn lemma_proposer_genesis(proposer: H256, voters: Seq<H256>)
    ensures
        holds_genesis(
            Records::empty().apply_all(proposer_genesis_changes(proposer)),
            proposer,
            voters,
            0,
        ),
{
    reveal_with_fuel(Records::apply_all, 7);
    let changes = proposer_genesis_changes(proposer);
    let c5 = changes.drop_last();
    let c4 = c5.drop_last();
    let c3 = c4.drop_last();
    let c2 = c3.drop_last();
    let c1 = c2.drop_last();
    assert(c1.drop_last().len() == 0);
    let t = Records::empty().apply_all(changes);
    assert(t.tree[0] =~= seq![proposer]);
    assert(genesis_votes(0) =~= Seq::empty());
    assert(voters.subrange(0, 0) =~= Seq::empty());
}

proof fn lemma_voter_genesis(t: Records, proposer: H256, voter: H256, chain: u16)
    ensures
        ({
            let after = t.apply_all(voter_genesis_changes(proposer, voter, chain));
            after == (Records {
                parent: t.parent.insert(voter, proposer),
                votes: after.votes,
                node_votes: after.node_votes,
                voter_level: t.voter_level.insert(voter, 0),
                voted_level: t.voted_level.insert(voter, 0),
                voter_chain: t.voter_chain.insert(voter, chain),
                ..t
            }) && after.votes == t.apply(Change::OneMoreVote(voter, proposer)).votes
                && after.node_votes == t.apply(
                Change::NodeVote(proposer, true, chain, 0),
            ).node_votes
        }),
{
    reveal_with_fuel(Records::apply_all, 7);
    let changes = voter_genesis_changes(proposer, voter, chain);
    let c5 = changes.drop_last();
    let c4 = c5.drop_last();
    let c3 = c4.drop_last();
    let c2 = c3.drop_last();
    let c1 = c2.drop_last();
    assert(c1.drop_last().len() == 0);
}

/// What the records hold when the chain starts.
pub proof fn law_genesis_records(proposer: H256, voters: Seq<H256>, n: nat)
    requires
        voters.no_duplicates(),
        n <= voters.len() <= u16::MAX,
    ensures
        holds_genesis(
            Records::empty().apply_all(genesis_changes(proposer, voters, n)),
            proposer,
            voters,
            n,
        ),
    decreases n,
{
    if n == 0 {
        lemma_proposer_genesis(proposer, voters);
    } else {
        let k = (n - 1) as nat;
        law_genesis_records(proposer, voters, k);
        let before = genesis_changes(proposer, voters, k);
        let voter = voters[k as int];
        let chain = k as u16;
        lemma_apply_all_concat(
            Records::empty(),
            before,
            voter_genesis_changes(proposer, voter, chain),
        );
        let t = Records::empty().apply_all(before);
        lemma_voter_genesis(t, proposer, voter, chain);
        let after = t.apply_all(voter_genesis_changes(proposer, voter, chain));
        let old_known = voters.subrange(0, k as int);
        let known = voters.subrange(0, n as int);
        assert(known =~= old_known.push(voter));
        assert(!old_known.contains(voter)) by {
            if old_known.contains(voter) {
                let i = choose|i: int| 0 <= i < old_known.len() && old_known[i] == voter;
                assert(voters[i] == voters[k as int]);
            }
        }
        assert forall|block: H256| known.contains(block) <==> block == voter || old_known.contains(
            block,
        ) by {
            if known.contains(block) {
                let i = choose|i: int| 0 <= i < known.len() && known[i] == block;
                if i < k {
                    assert(old_known[i] == block);
                }
            }
            if old_known.contains(block) {
                let i = choose|i: int| 0 <= i < old_known.len() && old_known[i] == block;
                assert(known[i] == block);
            }
            assert(known[k as int] == voter);
        }
        assert(at(t.votes, voter) is None);
        assert(after.votes[voter] =~= seq![proposer]);
        let list = genesis_votes(k);
        assert(!list.contains((chain, 0u64))) by {
            if list.contains((chain, 0u64)) {
                let i = choose|i: int| 0 <= i < list.len() && list[i] == (chain, 0u64);
                assert(i as u16 == k as u16);
            }
        }
        assert(list_at(after.node_votes, proposer) =~= genesis_votes(n));
        assert forall|block: H256| block != proposer implies #[trigger] list_at(
            after.node_votes,
            block,
        ) == Seq::<(u16, u64)>::empty() by {
            assert(list_at(t.node_votes, block) == Seq::<(u16, u64)>::empty());
        }
        assert forall|block: H256| #[trigger] at(after.voter_level, block) == if known.contains(
            block,
        ) {
            Some(0u64)
        } else {
            None
        } by {
            assert(at(t.voter_level, block) == if old_known.contains(block) {
                Some(0u64)
            } else {
                None
            });
        }
        assert forall|block: H256| #[trigger] at(after.voted_level, block) == if known.contains(
            block,
        ) {
            Some(0u64)
        } else {
            None
        } by {
            assert(at(t.voted_level, block) == if old_known.contains(block) {
                Some(0u64)
            } else {
                None
            });
        }
        assert forall|block: H256| #[trigger] at(after.parent, block) == if known.contains(block) {
            Some(proposer)
        } else {
            None
        } by {
            assert(at(t.parent, block) == if old_known.contains(block) {
                Some(proposer)
            } else {
                None
            });
        }
        assert forall|block: H256| #[trigger] at(after.votes, block) == if known.contains(block) {
            Some(seq![proposer])
        } else {
            None
        } by {
            assert(at(t.votes, block) == if old_known.contains(block) {
                Some(seq![proposer])
            } else {
                None
            });
        }
        assert forall|i: int| 0 <= i < n implies #[trigger] after.voter_chain[voters[i]] == i by {
            if i < k {
                assert(voters[i] != voters[k as int]);
                assert(t.voter_chain[voters[i]] == i);
            }
        }
    }
}

/// The ledger of the genesis block.
proof fn lemma_genesis_ledger(t: Records, proposer: H256)
    requires
        t.leader == Map::empty().insert(0u64, proposer),
        t.proposer_refs == Map::empty().insert(proposer, Seq::<H256>::empty()),
    ensures
        rebuild(t.leader, t.proposer_refs, 0, set![proposer]) == Some(
            Rebuilt { orders: seq![seq![proposer]], unconfirmed: Set::empty(), tip: 0 },
        ),
{
    let all: Set<H256> = set![proposer];
    let stack = seq![proposer];
    let refs = t.proposer_refs;
    let none = Seq::<H256>::empty();
    assert(stack.last() == proposer);
    assert(stack.drop_last() + refs[proposer] =~= none);
    assert(all.remove(proposer) =~= Set::empty());
    assert(traverse(refs, none, Set::empty()) == Some((none, Set::<H256>::empty())));
    assert(seq![proposer] + none =~= seq![proposer]);
    assert(traverse(refs, stack, all) == Some((seq![proposer], Set::<H256>::empty())));
    assert(seq![proposer].reverse() =~= seq![proposer]);
    let rest = rebuild(t.leader, refs, 1, Set::empty());
    assert(rest == Some(Rebuilt { orders: Seq::empty(), unconfirmed: Set::empty(), tip: 0 }));
    assert(seq![seq![proposer]] + Seq::<Seq<H256>>::empty() =~= seq![seq![proposer]]);
}

/// A chain that holds the genesis blocks, of at least one voter chain and no two of them alike,
/// is consistent.
pub proof fn law_genesis(proposer: H256, voters: Seq<H256>)
    requires
        voters.no_duplicates(),
        0 < voters.len() <= u16::MAX,
    ensures
        consistent(
            genesis_state(proposer, voters),
            Records::empty().apply_all(genesis_changes(proposer, voters, voters.len())),
        ),
{
    let n = voters.len();
    law_genesis_records(proposer, voters, n);
    let t = Records::empty().apply_all(genesis_changes(proposer, voters, n));
    let state = genesis_state(proposer, voters);
    let known = voters.subrange(0, n as int);
    assert(known =~= voters);
    assert(t.proposer_level.dom() =~= set![proposer]);
    assert(t.tree[0][0] == proposer);
    // proposer blocks
    assert(proposer_fits(t, proposer)) by {
        assert(t.tree[0][0] == proposer);
    }
    assert(level_fits(t, 0));
    assert(proposers_fit(state, t));
    // voter blocks
    assert forall|block: H256| #[trigger] t.voter_level.contains_key(
        block,
    ) implies t.voter_level[block] == 0 && voters.contains(block) && t.votes.contains_key(block)
        && t.votes[block] == seq![proposer] by {
        assert(at(t.voter_level, block) is Some);
        assert(at(t.votes, block) is Some);
    }
    assert forall|block: H256| #[trigger] t.voter_level.contains_key(block) implies votes_up_to(
        t,
        block,
    ) == seq![(proposer, 0u64)] by {
        assert(list_at(t.votes, block) == seq![proposer]);
        assert(stamped(seq![proposer], 0) =~= seq![(proposer, 0u64)]);
    }
    assert forall|block: H256| #[trigger] t.voter_level.contains_key(block) implies voter_fits(
        state,
        t,
        block,
    ) by {
        let i = choose|i: int| 0 <= i < voters.len() && voters[i] == block;
        assert(t.voter_chain[voters[i]] == i);
        assert(t.voter_chain.contains_key(block));
        assert(at(t.voted_level, block) is Some);
        assert(state.voter_best[i].1 == 0);
    }
    assert forall|chain: int| 0 <= chain < n implies #[trigger] chain_fits(state, t, chain) by {
        let block = voters[chain];
        assert(voters.contains(block));
        assert(at(t.voter_level, block) is Some);
        assert(t.voter_chain[voters[chain]] == chain);
        assert(t.voter_chain.contains_key(block));
    }
    assert forall|a: H256, b: H256|
        (#[trigger] t.voter_level.contains_key(a)) && (#[trigger] t.voter_level.contains_key(b))
            && t.voter_level[a] == 0 && t.voter_level[b] == 0 && t.voter_chain[a]
            == t.voter_chain[b] implies a == b by {
        let i = choose|i: int| 0 <= i < voters.len() && voters[i] == a;
        let j = choose|j: int| 0 <= j < voters.len() && voters[j] == b;
        assert(t.voter_chain[voters[i]] == i);
        assert(t.voter_chain[voters[j]] == j);
    }
    assert(voters_fit(state, t));
    // votes
    let votes = counted_votes(state, t);
    assert(tallies(t.node_votes, votes)) by {
        let list = genesis_votes(n);
        assert forall|block: H256| (#[trigger] list_at(t.node_votes, block)).no_duplicates() by {
            if block == proposer {
                assert forall|i: int, j: int| 0 <= i < j < list.len() implies list[i]
                    != list[j] by {
                    assert(i as u16 != j as u16);
                }
            }
        }
        assert forall|block: H256, chain: u16, level: u64|
            (#[trigger] list_at(t.node_votes, block).contains((chain, level)))
                <==> votes.contains((block, chain, level)) by {
            if chain < n {
                assert(voters.contains(voters[chain as int]));
                assert(chain_fits(state, t, chain as int));
                let cast = votes_up_to(t, voters[chain as int]);
                assert(cast[0] == (proposer, 0u64));
                assert(list[chain as int] == (chain, 0u64));
            }
            if list_at(t.node_votes, block).contains((chain, level)) {
                let i = choose|i: int| 0 <= i < list.len() && list[i] == (chain, level);
                assert(i as u16 == chain);
            }
        }
    }
    // leaders and ledger
    assert forall|level: u64| #[trigger] at(t.leader, level) == leader_of(t, level) by {
        if level == 0 {
            let blocks = t.tree[0];
            assert(front_runner(t.node_votes, blocks, 0) == (None::<H256>, 0nat));
            assert(votes_of(t.node_votes, blocks[0]) == n);
            assert(front_runner(t.node_votes, blocks, 1) == (Some(proposer), n));
        }
    }
    lemma_genesis_ledger(t, proposer);
    assert(ledger_fits(state, t));
    // references
    assert forall|block: H256| #[trigger] state.unreferred_proposers.contains(block)
        <==> t.proposer_level.contains_key(block) && forall|other: H256| #[trigger]
        t.proposer_level.contains_key(other) ==> !t.proposer_refs[other].contains(block) by {
        assert(!t.proposer_refs[proposer].contains(block));
    }
    assert(unreferred_fit(state, t));
    assert(state.wf());
}

/// In a chain that holds the genesis blocks, votes are within what the voter blocks count as
/// having voted up to.
pub proof fn law_genesis_votes_within(proposer: H256, voters: Seq<H256>)
    requires
        voters.no_duplicates(),
        voters.len() <= u16::MAX,
    ensures
        votes_within(
            Records::empty().apply_all(genesis_changes(proposer, voters, voters.len())),
        ),
{
    let n = voters.len();
    law_genesis_records(proposer, voters, n);
    let t = Records::empty().apply_all(genesis_changes(proposer, voters, n));
    assert forall|block: H256| #[trigger] t.voter_level.contains_key(block) implies votes_below(
        t,
        block,
        t.voted_level[block],
    ) by {
        assert(at(t.voter_level, block) is Some);
        assert(at(t.votes, block) is Some);
        assert(list_at(t.votes, block) == seq![proposer]);
        assert(stamped(seq![proposer], 0) =~= seq![(proposer, 0u64)]);
        assert forall|i: int|
            0 <= i < votes_up_to(t, block).len() implies t.proposer_level[(#[trigger] votes_up_to(
            t,
            block,
        )[i]).0] <= t.voted_level[block] by {
            assert(votes_up_to(t, block) == seq![(proposer, 0u64)]);
        }
    }
}

/// What a chain of the genesis blocks is. In memory: the genesis blocks are the best ones, on level
/// 0, and the voter chains are counted up to them; only the proposer genesis block is unreferred,
/// and nothing is unconfirmed.
pub proof fn law_genesis_in_memory(proposer: H256, voters: Seq<H256>)
    ensures
        ({
            let state = genesis_state(proposer, voters);
            &&& state.proposer_best == (proposer, 0u64)
            &&& state.proposer_ledger_tip == 0
            &&& state.voter_best.len() == voters.len()
            &&& state.voter_ledger_tips.len() == voters.len()
            &&& forall|i: int|
                0 <= i < voters.len() ==> #[trigger] state.voter_best[i] == (voters[i], 0u64)
            &&& forall|i: int|
                0 <= i < voters.len() ==> #[trigger] state.voter_ledger_tips[i] == voters[i]
            &&& forall|block: H256| !(#[trigger] state.unreferred_transactions.contains(block))
            &&& forall|block: H256| !(#[trigger] state.unconfirmed_proposers.contains(block))
            &&& forall|block: H256| #[trigger]
                state.unreferred_proposers.contains(block) <==> block == proposer
        }),
{
}

/// What the records of the genesis blocks are. The proposer genesis block is on level 0, leads it,
/// is confirmed by it, and refers to nothing. Each voter genesis block is on level 0 of its chain,
/// has the proposer genesis block as its parent, votes for it and for nothing else, and its vote is
/// counted, in the order of the chains.
pub proof fn law_genesis_on_record(proposer: H256, voters: Seq<H256>)
    requires
        voters.no_duplicates(),
        voters.len() <= u16::MAX,
    ensures
        ({
            let t = Records::empty().apply_all(genesis_changes(proposer, voters, voters.len()));
            &&& t.proposer_level == Map::empty().insert(proposer, 0u64)
            &&& t.tree == Map::empty().insert(0u64, seq![proposer])
            &&& t.leader == Map::empty().insert(0u64, proposer)
            &&& t.order == Map::empty().insert(0u64, seq![proposer])
            &&& t.proposer_refs == Map::empty().insert(proposer, Seq::<H256>::empty())
            &&& t.transaction_refs == Map::empty().insert(proposer, Seq::<H256>::empty())
            &&& t.voter_parent == Map::<H256, H256>::empty()
            &&& t.voter_level == Map::new(|block: H256| voters.contains(block), |block: H256| 0u64)
            &&& t.voted_level == Map::new(|block: H256| voters.contains(block), |block: H256| 0u64)
            &&& t.parent == Map::new(|block: H256| voters.contains(block), |block: H256| proposer)
            &&& t.votes == Map::new(
                |block: H256| voters.contains(block),
                |block: H256| seq![proposer],
            )
            &&& forall|block: H256| #[trigger]
                t.voter_chain.contains_key(block) <==> voters.contains(block)
            &&& forall|i: int| 0 <= i < voters.len() ==> #[trigger] t.voter_chain[voters[i]] == i
            &&& list_at(t.node_votes, proposer) == Seq::new(
                voters.len(),
                |i: int| (i as u16, 0u64),
            )
            &&& forall|block: H256|
                block != proposer ==> (#[trigger] list_at(t.node_votes, block)).len() == 0
        }),
{
    let n = voters.len();
    law_genesis_records(proposer, voters, n);
    assert(voters.subrange(0, n as int) =~= voters);
    let t = Records::empty().apply_all(genesis_changes(proposer, voters, n));
    let zeros = Map::new(|block: H256| voters.contains(block), |block: H256| 0u64);
    let parents = Map::new(|block: H256| voters.contains(block), |block: H256| proposer);
    let votes = Map::new(|block: H256| voters.contains(block), |block: H256| seq![proposer]);
    assert forall|block: H256|
        at(t.voter_level, block) == #[trigger] at(zeros, block) && at(t.voted_level, block) == at(
            zeros,
            block,
        ) && at(t.parent, block) == at(parents, block) && at(t.votes, block) == at(
            votes,
            block,
        ) by {}
    assert forall|block: H256| #[trigger] t.voter_level.contains_key(block) <==> zeros.contains_key(
        block,
    ) by {
        assert(at(t.voter_level, block) == at(zeros, block));
    }
    assert(t.voter_level =~= zeros) by {
        assert forall|block: H256| zeros.contains_key(block) implies t.voter_level[block]
            == zeros[block] by {
            assert(at(t.voter_level, block) == at(zeros, block));
        }
    }
    assert forall|block: H256| #[trigger] t.voted_level.contains_key(block) <==> zeros.contains_key(
        block,
    ) by {
        assert(at(t.voted_level, block) == at(zeros, block));
    }
    assert(t.voted_level =~= zeros) by {
        assert forall|block: H256| zeros.contains_key(block) implies t.voted_level[block]
            == zeros[block] by {
            assert(at(t.voted_level, block) == at(zeros, block));
        }
    }
    assert forall|block: H256| #[trigger] t.parent.contains_key(block) <==> parents.contains_key(
        block,
    ) by {
        assert(at(t.parent, block) == at(parents, block));
    }
    assert(t.parent =~= parents) by {
        assert forall|block: H256| parents.contains_key(block) implies t.parent[block]
            == parents[block] by {
            assert(at(t.parent, block) == at(parents, block));
        }
    }
    assert forall|block: H256| #[trigger] t.votes.contains_key(block) <==> votes.contains_key(
        block,
    ) by {
        assert(at(t.votes, block) == at(votes, block));
    }
    assert(t.votes =~= votes) by {
        assert forall|block: H256| votes.contains_key(block) implies t.votes[block]
            == votes[block] by {
            assert(at(t.votes, block) == at(votes, block));
        }
    }
}

} // verus!
