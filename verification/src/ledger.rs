//! The ledger: counting votes, electing the leader of each level, and ordering the blocks that
//! the leaders confirm.

use vstd::prelude::*;

use crate::block::H256;
use crate::chain::{BlockChain, ChainState};
use crate::change::{changes_of, Change, Op};
use crate::consistency::consistent;
use crate::laws::{after_batches, law_update};
use crate::ordering::lemma_concat_set;
use crate::merge::change_votes;
use crate::sets::{BlockSet, LevelSet};
use crate::store::{
    answers, as_seq, at, callable, leader_at_level, level_under, list_at, list_at_level, list_under,
    required, settles, votes_under, Column, Error, Records,
};
use crate::votes::{diff, votes_between};

verus! {

/// The changes that add or remove votes of a chain.
pub open spec fn vote_list(votes: Seq<(H256, u64)>, add: bool, chain: u16) -> Seq<Change> {
    votes.map_values(|vote: (H256, u64)| Change::NodeVote(vote.0, add, chain, vote.1))
}

/// Whether every vote is for a known proposer block.
pub open spec fn known(t: Records, votes: Seq<(H256, u64)>) -> bool {
    forall|i: int| 0 <= i < votes.len() ==> t.proposer_level.contains_key(#[trigger] votes[i].0)
}

/// The changes of votes when a voter chain switches from one tip to another.
pub open spec fn chain_changes(t: Records, from: H256, to: H256, chain: u16) -> Option<
    Seq<Change>,
> {
    match diff(t, from, to) {
        Some((added, removed)) => if known(t, added) && known(t, removed) {
            Some(vote_list(removed, false, chain) + vote_list(added, true, chain))
        } else {
            None
        },
        None => None,
    }
}

/// The changes of votes when the first `n` voter chains switch to their best blocks.
pub open spec fn vote_changes(state: ChainState, t: Records, n: nat) -> Option<Seq<Change>>
    decreases n,
{
    if n == 0 {
        Some(Seq::empty())
    } else {
        match (
            vote_changes(state, t, (n - 1) as nat),
            chain_changes(
                t,
                state.voter_ledger_tips[n - 1],
                state.voter_best[n - 1].0,
                (n - 1) as u16,
            ),
        ) {
            (Some(before), Some(changes)) => Some(before + changes),
            _ => None,
        }
    }
}

/// The levels of the proposer blocks whose votes change.
pub open spec fn affected_levels(t: Records, changes: Seq<Change>) -> Set<u64>
    decreases changes.len(),
{
    if changes.len() == 0 {
        Set::empty()
    } else {
        match changes.last() {
            Change::NodeVote(block, _, _, _) => affected_levels(t, changes.drop_last()).insert(
                t.proposer_level[block],
            ),
            _ => affected_levels(t, changes.drop_last()),
        }
    }
}

/// The first among `n` blocks that has more votes than those before it and as many as those
/// after it, and its number of votes; none, and 0, if no block has a vote.
pub open spec fn front_runner(
    votes: Map<H256, Seq<(u16, u64)>>,
    blocks: Seq<H256>,
    n: nat,
) -> (Option<H256>, nat)
    decreases n,
{
    if n == 0 {
        (None, 0)
    } else {
        let (leader, most) = front_runner(votes, blocks, (n - 1) as nat);
        let count = list_at(votes, blocks[n - 1]).len();
        if count > most {
            (Some(blocks[n - 1]), count)
        } else {
            (leader, most)
        }
    }
}

/// The leader among the blocks of a level: the one with the most votes, and among those with
/// equally many the one that was heard first. A level without votes has no leader.
pub open spec fn elect(votes: Map<H256, Seq<(u16, u64)>>, blocks: Seq<H256>) -> Option<H256> {
    front_runner(votes, blocks, blocks.len()).0
}

/// The change that gives a level a leader, or takes it away.
pub open spec fn leader_change(level: u64, leader: Option<H256>) -> Change {
    match leader {
        Some(block) => Change::Leader(level, block),
        None => Change::NoLeader(level),
    }
}

/// The changes of leaders in those of the given levels that are below `n`, from the lowest up.
pub open spec fn leader_changes(t: Records, levels: Set<u64>, n: nat) -> Option<Seq<Change>>
    decreases n,
{
    if n == 0 {
        Some(Seq::empty())
    } else {
        let level = (n - 1) as u64;
        match leader_changes(t, levels, (n - 1) as nat) {
            Some(before) => if !levels.contains(level) {
                Some(before)
            } else if !t.tree.contains_key(level) {
                None
            } else {
                let leader = elect(t.node_votes, t.tree[level]);
                if leader != at(t.leader, level) {
                    Some(before.push(leader_change(level, leader)))
                } else {
                    Some(before)
                }
            },
            None => None,
        }
    }
}

/// One more than the highest level.
pub open spec fn all_levels() -> nat {
    u64::MAX as nat + 1
}

/// The blocks of the ledger in the levels from `begin` on and below `end`, in order.
pub open spec fn ledger_between(order: Map<u64, Seq<H256>>, begin: nat, end: nat) -> Option<
    Seq<H256>,
>
    decreases end,
{
    if begin >= end {
        Some(Seq::empty())
    } else {
        match (ledger_between(order, begin, (end - 1) as nat), at(order, (end - 1) as u64)) {
            (Some(before), Some(blocks)) => Some(before + blocks),
            _ => None,
        }
    }
}

/// The blocks found in a traversal, with one more before them.
pub open spec fn found_after(before: Seq<H256>, rest: Option<(Seq<H256>, Set<H256>)>) -> Option<
    (Seq<H256>, Set<H256>),
> {
    match rest {
        Some((blocks, unconfirmed)) => Some((before + blocks, unconfirmed)),
        None => None,
    }
}

/// A depth-first traversal, along the given references, of the unconfirmed blocks that are on the
/// stack or referred to from there: the blocks in the order in which they are found, and what
/// stays unconfirmed.
pub open spec fn traverse(
    refs: Map<H256, Seq<H256>>,
    stack: Seq<H256>,
    unconfirmed: Set<H256>,
) -> Option<(Seq<H256>, Set<H256>)>
    decreases unconfirmed.len(), stack.len(),
    when unconfirmed.finite()
{
    if stack.len() == 0 {
        Some((Seq::empty(), unconfirmed))
    } else {
        let top = stack.last();
        if !unconfirmed.contains(top) {
            traverse(refs, stack.drop_last(), unconfirmed)
        } else if !refs.contains_key(top) {
            None
        } else {
            found_after(
                seq![top],
                traverse(refs, stack.drop_last() + refs[top], unconfirmed.remove(top)),
            )
        }
    }
}

/// The ledger from some level on.
#[verifier::ext_equal]
pub struct Rebuilt {
    /// The blocks that each level confirms, from the first level on.
    pub orders: Seq<Seq<H256>>,
    /// The blocks that no level confirms.
    pub unconfirmed: Set<H256>,
    /// The last level that has a leader.
    pub tip: u64,
}

/// A rebuilt ledger, with more levels before it.
pub open spec fn levels_after(before: Seq<Seq<H256>>, rest: Option<Rebuilt>) -> Option<Rebuilt> {
    match rest {
        Some(rebuilt) => Some(Rebuilt { orders: before + rebuilt.orders, ..rebuilt }),
        None => None,
    }
}

/// The ledger from `level` up to the first level without a leader. Each leader confirms the
/// unconfirmed blocks that it reaches, itself last.
pub open spec fn rebuild(
    leader: Map<u64, H256>,
    refs: Map<H256, Seq<H256>>,
    level: u64,
    unconfirmed: Set<H256>,
) -> Option<Rebuilt>
    decreases u64::MAX - level,
{
    match at(leader, level) {
        None => if level == 0 {
            None
        } else {
            Some(Rebuilt { orders: Seq::empty(), unconfirmed, tip: (level - 1) as u64 })
        },
        Some(block) => match traverse(refs, seq![block], unconfirmed) {
            Some((blocks, rest)) => if level == u64::MAX {
                None
            } else {
                levels_after(
                    seq![blocks.reverse()],
                    rebuild(leader, refs, (level + 1) as u64, rest),
                )
            },
            None => None,
        },
    }
}

/// The changes that take the blocks of the levels from `begin` on and below `end` away.
pub open spec fn cleared(begin: nat, end: nat) -> Seq<Change> {
    Seq::new(
        if begin < end {
            (end - begin) as nat
        } else {
            0
        },
        |i: int| Change::NoOrder((begin + i) as u64),
    )
}

/// The changes that set the blocks of the levels from `begin` on.
pub open spec fn ordered(begin: u64, orders: Seq<Seq<H256>>) -> Seq<Change> {
    Seq::new(orders.len(), |i: int| Change::Order((begin + i) as u64, orders[i]))
}

/// The blocks of several levels, in order.
pub open spec fn joined(orders: Seq<Seq<H256>>) -> Seq<H256>
    decreases orders.len(),
{
    if orders.len() == 0 {
        Seq::empty()
    } else {
        joined(orders.drop_last()) + orders.last()
    }
}

/// The transaction blocks that the first `n` of some proposer blocks refer to, in order.
pub open spec fn transactions_of(refs: Map<H256, Seq<H256>>, blocks: Seq<H256>, n: nat) -> Option<
    Seq<H256>,
>
    decreases n,
{
    if n == 0 {
        Some(Seq::empty())
    } else {
        match (transactions_of(refs, blocks, (n - 1) as nat), at(refs, blocks[n - 1])) {
            (Some(before), Some(list)) => Some(before + list),
            _ => None,
        }
    }
}

/// A ledger that was rebuilt from a level on.
#[verifier::ext_equal]
pub struct Relinked {
    pub state: ChainState,
    pub changes: Seq<Change>,
    /// The proposer blocks that the ledger has after `begin`.
    pub added: Seq<H256>,
    /// The proposer blocks that the ledger had after `begin`.
    pub removed: Seq<H256>,
}

/// Rebuilds the ledger from level `begin` on. A level that does not follow on the ledger leaves
/// it as it is, so that the ledger has no gaps.
pub open spec fn relink(state: ChainState, t: Records, begin: u64) -> Option<Relinked> {
    let end = (state.proposer_ledger_tip + 1) as nat;
    match ledger_between(t.order, begin as nat, end) {
        None => None,
        Some(removed) => if state.proposer_ledger_tip == u64::MAX {
            None
        } else if begin > end {
            Some(Relinked { state, changes: Seq::empty(), added: Seq::empty(), removed })
        } else {
            match rebuild(
                t.leader,
                t.proposer_refs,
                begin,
                state.unconfirmed_proposers.union(removed.to_set()),
            ) {
                None => None,
                Some(rebuilt) => Some(
                    Relinked {
                        state: ChainState {
                            unconfirmed_proposers: rebuilt.unconfirmed,
                            proposer_ledger_tip: rebuilt.tip,
                            ..state
                        },
                        changes: cleared(begin as nat, end) + ordered(begin, rebuilt.orders),
                        added: joined(rebuilt.orders),
                        removed,
                    },
                ),
            }
        },
    }
}

/// What an update of the ledger does.
#[verifier::ext_equal]
pub struct Updated {
    pub state: ChainState,
    /// The changes to the records, in batches to be committed one after the other: those of the
    /// votes, those of the leaders and, if a leader changes, those of the ledger.
    pub batches: Seq<Seq<Change>>,
    /// The transaction blocks that enter the ledger.
    pub added: Seq<H256>,
    /// The transaction blocks that leave the ledger.
    pub removed: Seq<H256>,
}

/// The level of a change of leaders.
pub open spec fn level_of(change: Change) -> u64 {
    match change {
        Change::Leader(level, _) => level,
        Change::NoLeader(level) => level,
        _ => 0,
    }
}

/// What the update of a chain does once the votes and the leaders are settled: `t` are the records
/// with these changes made.
pub open spec fn update_after(
    state: ChainState,
    t: Records,
    votes: Seq<Change>,
    leaders: Seq<Change>,
) -> Option<Updated> {
    if leaders.len() == 0 {
        Some(
            Updated {
                state,
                batches: seq![votes, leaders],
                added: Seq::empty(),
                removed: Seq::empty(),
            },
        )
    } else {
        match relink(state, t, level_of(leaders[0])) {
            None => None,
            Some(relinked) => match (
                transactions_of(t.transaction_refs, relinked.added, relinked.added.len()),
                transactions_of(t.transaction_refs, relinked.removed, relinked.removed.len()),
            ) {
                (Some(added), Some(removed)) => Some(
                    Updated {
                        state: relinked.state,
                        batches: seq![votes, leaders, relinked.changes],
                        added,
                        removed,
                    },
                ),
                _ => None,
            },
        }
    }
}

/// The chain once the votes up to the best voter blocks are counted.
pub open spec fn with_best_tips(state: ChainState) -> ChainState {
    ChainState {
        voter_ledger_tips: state.voter_best.map_values(|best: (H256, u64)| best.0),
        ..state
    }
}

/// What an update of the ledger does: the votes are counted up to the best block of each voter
/// chain; the leader of each level whose votes change is elected again; and from the first level
/// whose leader changes the ledger is built anew.
pub open spec fn update(state: ChainState, t: Records) -> Option<Updated> {
    match vote_changes(state, t, state.voter_best.len()) {
        None => None,
        Some(votes) => {
            let counted = t.apply_all(votes);
            match leader_changes(counted, affected_levels(t, votes), all_levels()) {
                None => None,
                Some(leaders) => update_after(
                    with_best_tips(state),
                    counted.apply_all(leaders),
                    votes,
                    leaders,
                ),
            }
        },
    }
}

/// The chain once the votes of the first `n` voter chains up to their best blocks are counted.
pub open spec fn with_some_tips(state: ChainState, n: nat) -> ChainState {
    ChainState {
        voter_ledger_tips: Seq::new(
            state.voter_ledger_tips.len(),
            |i: int|
                if i < n {
                    state.voter_best[i].0
                } else {
                    state.voter_ledger_tips[i]
                },
        ),
        ..state
    }
}

/// What is unconfirmed once a traversal has found `n` blocks, if it finds as many.
pub open spec fn left_after(
    refs: Map<H256, Seq<H256>>,
    stack: Seq<H256>,
    unconfirmed: Set<H256>,
    n: nat,
) -> Option<Set<H256>>
    decreases n, stack.len(),
{
    if n == 0 {
        Some(unconfirmed)
    } else if stack.len() == 0 {
        None
    } else {
        let top = stack.last();
        if !unconfirmed.contains(top) {
            left_after(refs, stack.drop_last(), unconfirmed, n)
        } else if n == 1 {
            Some(unconfirmed.remove(top))
        } else if !refs.contains_key(top) {
            None
        } else {
            left_after(
                refs,
                stack.drop_last() + refs[top],
                unconfirmed.remove(top),
                (n - 1) as nat,
            )
        }
    }
}

/// What is unconfirmed once the ledger is rebuilt from `level` on for `k` levels, and `n` blocks
/// of the next one are found.
pub open spec fn left_at(
    leader: Map<u64, H256>,
    refs: Map<H256, Seq<H256>>,
    level: u64,
    unconfirmed: Set<H256>,
    k: nat,
    n: nat,
) -> Option<Set<H256>>
    decreases k,
{
    if k == 0 && n == 0 {
        Some(unconfirmed)
    } else {
        match at(leader, level) {
            None => None,
            Some(block) => if k == 0 {
                left_after(refs, seq![block], unconfirmed, n)
            } else {
                match traverse(refs, seq![block], unconfirmed) {
                    Some((_, rest)) => if level == u64::MAX {
                        None
                    } else {
                        left_at(leader, refs, (level + 1) as u64, rest, (k - 1) as nat, n)
                    },
                    None => None,
                }
            },
        }
    }
}

/// Whether these blocks are unconfirmed at some point while the ledger is rebuilt from level
/// `begin` on: first the blocks of the levels up to the tip become unconfirmed, level by level,
/// and then the blocks that the leaders confirm are taken out again, one by one.
pub open spec fn amid_relink(
    state: ChainState,
    t: Records,
    begin: u64,
    unconfirmed: Set<H256>,
) -> bool {
    let tip = state.proposer_ledger_tip;
    ||| exists|end: nat|
        begin <= end <= tip && (#[trigger] ledger_between(t.order, begin as nat, end) matches Some(
            blocks,
        ) && unconfirmed == state.unconfirmed_proposers.union(blocks.to_set()))
    ||| (ledger_between(t.order, begin as nat, (tip + 1) as nat) matches Some(removed)
        && exists|k: nat, n: nat| #[trigger]
        left_at(
            t.leader,
            t.proposer_refs,
            begin,
            state.unconfirmed_proposers.union(removed.to_set()),
            k,
            n,
        ) == Some(unconfirmed))
}

/// What an update leaves behind of the chain that comes to a stop while it counts the votes of a
/// voter chain, after those before it.
pub open spec fn stopped_count(state: ChainState, t: Records, now: ChainState) -> bool {
    exists|n: nat|
        0 < n <= state.voter_best.len() && vote_changes(state, t, (n - 1) as nat) is Some && now
            == #[trigger] with_some_tips(state, n)
}

/// What an update leaves behind that comes to a stop at a read: the chain, and the batches of
/// changes that it has made. If it stops while it counts the votes of a chain, the chains up to
/// this one count as counted. If it stops while it elects leaders, the votes are changed; while it
/// rebuilds the ledger, the leaders are changed too, and some blocks are unconfirmed or confirmed;
/// and if it stops at the transaction blocks, everything is done.
pub open spec fn stopped_update(
    state: ChainState,
    t: Records,
    now: ChainState,
    batches: Seq<Seq<Change>>,
) -> bool {
    let counted_state = with_best_tips(state);
    ||| (batches == Seq::<Seq<Change>>::empty() && stopped_count(state, t, now))
    ||| (vote_changes(state, t, state.voter_best.len()) matches Some(votes) && batches
        == seq![votes] && now == counted_state)
    ||| (vote_changes(state, t, state.voter_best.len()) matches Some(votes) && leader_changes(
        t.apply_all(votes),
        affected_levels(t, votes),
        all_levels(),
    ) matches Some(leaders) && leaders.len() > 0 && stopped_relink(
        counted_state,
        t.apply_all(votes).apply_all(leaders),
        votes,
        leaders,
        now,
        batches,
    ))
}

/// What an update leaves behind that comes to a stop once the votes and the leaders are settled.
pub open spec fn stopped_relink(
    state: ChainState,
    t: Records,
    votes: Seq<Change>,
    leaders: Seq<Change>,
    now: ChainState,
    batches: Seq<Seq<Change>>,
) -> bool {
    let begin = level_of(leaders[0]);
    ||| (batches == seq![votes, leaders] && now == (ChainState {
        unconfirmed_proposers: now.unconfirmed_proposers,
        ..state
    }) && amid_relink(state, t, begin, now.unconfirmed_proposers))
    ||| (relink(state, t, begin) matches Some(relinked) && batches == seq![
        votes,
        leaders,
        relinked.changes,
    ] && now == relinked.state)
}

/// What an update of the ledger did, for the caller to commit and to pass on.
#[derive(Debug)]
pub struct LedgerUpdate {
    /// The changes to the records, in batches to be committed one after the other.
    pub batches: Vec<Vec<Op>>,
    /// The transaction blocks that entered the ledger.
    pub added: Vec<H256>,
    /// The transaction blocks that left the ledger.
    pub removed: Vec<H256>,
}

/// An update of the ledger that came to a stop.
#[derive(Debug)]
pub struct Stopped<E> {
    /// Why it stopped.
    pub error: Error<E>,
    /// The changes that it had made to the records, in batches to be committed one after the
    /// other.
    pub batches: Vec<Vec<Op>>,
}

/// The changes of each batch.
pub open spec fn batches_of(batches: Seq<Vec<Op>>) -> Seq<Seq<Change>> {
    batches.map_values(|batch: Vec<Op>| changes_of(batch@))
}

/// A result of an update, together with the chain after it.
pub open spec fn updated<E>(result: Result<LedgerUpdate, Stopped<E>>, state: ChainState) -> Result<
    Updated,
    Error<E>,
> {
    match result {
        Ok(done) => Ok(
            Updated {
                state,
                batches: batches_of(done.batches@),
                added: done.added@,
                removed: done.removed@,
            },
        ),
        Err(stopped) => Err(stopped.error),
    }
}

/// Whether every change is to the votes of proposer blocks.
pub open spec fn only_votes(changes: Seq<Change>) -> bool {
    forall|i: int| 0 <= i < changes.len() ==> (#[trigger] changes[i]) is NodeVote
}

/// Whether every change is to the leaders of levels.
pub open spec fn only_leaders(changes: Seq<Change>) -> bool {
    forall|i: int|
        0 <= i < changes.len() ==> (#[trigger] changes[i]) is Leader || changes[i] is NoLeader
}

/// Changes of votes leave everything else as it is.
pub proof fn lemma_only_votes(t: Records, changes: Seq<Change>)
    requires
        only_votes(changes),
    ensures
        t.apply_all(changes) == (Records { node_votes: t.apply_all(changes).node_votes, ..t }),
    decreases changes.len(),
{
    if changes.len() > 0 {
        assert(only_votes(changes.drop_last())) by {
            assert forall|i: int| 0 <= i < changes.len() - 1 implies (
            #[trigger] changes.drop_last()[i]) is NodeVote by {
                assert(changes[i] is NodeVote);
            }
        }
        lemma_only_votes(t, changes.drop_last());
        assert(changes.last() is NodeVote);
    }
}

/// Changes of leaders leave everything else as it is.
pub proof fn lemma_only_leaders(t: Records, changes: Seq<Change>)
    requires
        only_leaders(changes),
    ensures
        t.apply_all(changes) == (Records { leader: t.apply_all(changes).leader, ..t }),
    decreases changes.len(),
{
    if changes.len() > 0 {
        assert(only_leaders(changes.drop_last())) by {
            assert forall|i: int| 0 <= i < changes.len() - 1 implies (
            #[trigger] changes.drop_last()[i]) is Leader || changes.drop_last()[i] is NoLeader by {
                assert(changes[i] is Leader || changes[i] is NoLeader);
            }
        }
        lemma_only_leaders(t, changes.drop_last());
        assert(changes.last() is Leader || changes.last() is NoLeader);
    }
}

/// Whether there is a value, without the value.
pub open spec fn erased<V>(value: Option<V>) -> Option<()> {
    match value {
        Some(_) => Some(()),
        None => None,
    }
}

/// Adds the changes for votes of a chain to a list, and the levels that they affect to a set.
fn push_votes<R, E>(
    read: &R,
    votes: &Vec<(H256, u64)>,
    add: bool,
    chain: u16,
    ops: &mut Vec<Op>,
    affected: &mut LevelSet,
) -> (result: Result<(), Error<E>>) where R: Fn(Column, Vec<u8>) -> Result<Option<Vec<u8>>, E>
    requires
        callable(*read),
    ensures
        forall|t: Records| #[trigger]
            answers(*read, t) ==> match result {
                Ok(()) => {
                    &&& known(t, votes@)
                    &&& changes_of(final(ops)@) == changes_of(old(ops)@) + vote_list(
                        votes@,
                        add,
                        chain,
                    )
                    &&& old(affected)@ == affected_levels(t, changes_of(old(ops)@))
                        ==> final(affected)@ == affected_levels(t, changes_of(final(ops)@))
                },
                Err(error) => settles(
                    *read,
                    Err::<(), Error<E>>(error),
                    if known(t, votes@) {
                        Some(())
                    } else {
                        None
                    },
                ),
            },
        result is Ok ==> changes_of(final(ops)@) == changes_of(old(ops)@) + vote_list(
            votes@,
            add,
            chain,
        ),
{
    for i in 0..votes.len()
        invariant
            callable(*read),
            changes_of(ops@) =~= changes_of(old(ops)@) + vote_list(
                votes@.subrange(0, i as int),
                add,
                chain,
            ),
            forall|t: Records| #[trigger]
                answers(*read, t) ==> known(t, votes@.subrange(0, i as int)) && (old(affected)@
                    == affected_levels(t, changes_of(old(ops)@)) ==> affected@ == affected_levels(
                    t,
                    changes_of(ops@),
                )),
    {
        let vote = votes[i];
        let ghost before = changes_of(ops@);
        ops.push(Op::NodeVote(vote.0, add, chain, vote.1));
        assert(changes_of(ops@) =~= before.push(Change::NodeVote(vote.0, add, chain, vote.1)));
        assert(changes_of(ops@).drop_last() =~= before);
        assert(votes@.subrange(0, i + 1) =~= votes@.subrange(0, i as int).push(vote));
        let level = match required(level_under(read, Column::ProposerNodeLevel, vote.0)) {
            Ok(level) => level,
            Err(error) => {
                assert forall|t: Records| #[trigger] answers(*read, t) implies settles(
                    *read,
                    Err::<(), Error<E>>(error),
                    if known(t, votes@) {
                        Some(())
                    } else {
                        None
                    },
                ) by {
                    if error is Inconsistent {
                        assert(!t.proposer_level.contains_key(votes@[i as int].0));
                    }
                }
                return Err(error);
            },
        };
        affected.insert(level);
        assert forall|t: Records| #[trigger] answers(*read, t) implies known(
            t,
            votes@.subrange(0, i + 1),
        ) by {
            let some = votes@.subrange(0, i as int);
            assert forall|j: int| 0 <= j < i + 1 implies t.proposer_level.contains_key(
                #[trigger] votes@.subrange(0, i + 1)[j].0,
            ) by {
                if j < i {
                    assert(t.proposer_level.contains_key(some[j].0));
                }
            }
        }
    }
    assert(votes@.subrange(0, votes@.len() as int) =~= votes@);
    Ok(())
}

/// Where the votes of fewer chains cannot be counted, those of more cannot.
proof fn lemma_vote_changes_none(state: ChainState, t: Records, n: nat, m: nat)
    requires
        n <= m,
        vote_changes(state, t, n) is None,
    ensures
        vote_changes(state, t, m) is None,
    decreases m,
{
    if n < m {
        lemma_vote_changes_none(state, t, n, (m - 1) as nat);
    }
}

impl BlockChain {
    /// Counts the votes of each voter chain up to its best block. Gives back the changes of votes
    /// and the levels that they affect.
    fn count_votes<R, E>(&mut self, read: &R) -> (result: Result<
        (Vec<Op>, LevelSet),
        Error<E>,
    >) where R: Fn(Column, Vec<u8>) -> Result<Option<Vec<u8>>, E>
        requires
            old(self).wf(),
            callable(*read),
        ensures
            final(self).wf(),
            forall|t: Records| #[trigger]
                answers(*read, t) ==> match result {
                    Ok((ops, affected)) => {
                        &&& vote_changes(old(self)@, t, old(self)@.voter_best.len()) == Some(
                            changes_of(ops@),
                        )
                        &&& affected@ == affected_levels(t, changes_of(ops@))
                    },
                    Err(error) => settles(
                        *read,
                        Err::<(), Error<E>>(error),
                        erased(vote_changes(old(self)@, t, old(self)@.voter_best.len())),
                    ) && stopped_count(old(self)@, t, final(self)@),
                },
            result matches Ok((ops, _)) ==> only_votes(changes_of(ops@)) && final(self)@
                == with_best_tips(old(self)@),
    {
        let mut ops: Vec<Op> = Vec::new();
        let mut affected = LevelSet::new();
        let chains: u16 = self.voter_best.len() as u16;
        assert(changes_of(ops@) =~= Seq::empty());
        assert(self@ =~= with_some_tips(old(self)@, 0));
        for i in 0..chains
            invariant
                old(self).wf(),
                self@ == with_some_tips(old(self)@, i as nat),
                chains == old(self)@.voter_best.len(),
                callable(*read),
                only_votes(changes_of(ops@)),
                forall|t: Records| #[trigger]
                    answers(*read, t) ==> vote_changes(old(self)@, t, i as nat) == Some(
                        changes_of(ops@),
                    ) && affected@ == affected_levels(t, changes_of(ops@)),
        {
            let from = self.voter_ledger_tips[i as usize];
            let to = self.voter_best[i as usize].0;
            self.voter_ledger_tips[i as usize] = to;
            assert(self@ =~= with_some_tips(old(self)@, (i + 1) as nat));
            assert forall|t: Records| #[trigger] answers(*read, t) implies stopped_count(
                old(self)@,
                t,
                self@,
            ) by {
                assert(self@ == with_some_tips(old(self)@, (i + 1) as nat));
            }
            let ghost before = changes_of(ops@);
            let (added, removed) = match votes_between(read, from, to) {
                Ok(diff) => diff,
                Err(error) => {
                    assert forall|t: Records| #[trigger] answers(*read, t) implies settles(
                        *read,
                        Err::<(), Error<E>>(error),
                        erased(vote_changes(old(self)@, t, old(self)@.voter_best.len())),
                    ) by {
                        if error is Inconsistent {
                            lemma_vote_changes_none(
                                old(self)@,
                                t,
                                (i + 1) as nat,
                                old(self)@.voter_best.len(),
                            );
                        }
                    }
                    return Err(error);
                },
            };
            match push_votes(read, &removed, false, i, &mut ops, &mut affected) {
                Ok(()) => {},
                Err(error) => {
                    assert forall|t: Records| #[trigger] answers(*read, t) implies settles(
                        *read,
                        Err::<(), Error<E>>(error),
                        erased(vote_changes(old(self)@, t, old(self)@.voter_best.len())),
                    ) by {
                        if error is Inconsistent {
                            lemma_vote_changes_none(
                                old(self)@,
                                t,
                                (i + 1) as nat,
                                old(self)@.voter_best.len(),
                            );
                        }
                    }
                    return Err(error);
                },
            }
            match push_votes(read, &added, true, i, &mut ops, &mut affected) {
                Ok(()) => {},
                Err(error) => {
                    assert forall|t: Records| #[trigger] answers(*read, t) implies settles(
                        *read,
                        Err::<(), Error<E>>(error),
                        erased(vote_changes(old(self)@, t, old(self)@.voter_best.len())),
                    ) by {
                        if error is Inconsistent {
                            lemma_vote_changes_none(
                                old(self)@,
                                t,
                                (i + 1) as nat,
                                old(self)@.voter_best.len(),
                            );
                        }
                    }
                    return Err(error);
                },
            }
            assert(changes_of(ops@) =~= before + (vote_list(removed@, false, i) + vote_list(
                added@,
                true,
                i,
            )));
            assert(only_votes(changes_of(ops@)));
        }
        assert(self@ =~= with_best_tips(old(self)@));
        Ok((ops, affected))
    }
}

/// The votes of a proposer block with the given changes made.
fn votes_with<R, E>(read: &R, ops: &Vec<Op>, block: H256) -> (result: Result<
    Vec<(u16, u64)>,
    Error<E>,
>) where R: Fn(Column, Vec<u8>) -> Result<Option<Vec<u8>>, E>
    requires
        callable(*read),
        only_votes(changes_of(ops@)),
    ensures
        forall|t: Records| #[trigger]
            answers(*read, t) ==> settles(
                *read,
                as_seq(result),
                Some(list_at(t.apply_all(changes_of(ops@)).node_votes, block)),
            ),
{
    let mut votes: Vec<(u16, u64)> = match votes_under(read, block) {
        Ok(Some(votes)) => votes,
        Ok(None) => Vec::new(),
        Err(error) => {
            return Err(error);
        },
    };
    let ghost changes = changes_of(ops@);
    assert forall|t: Records| #[trigger] answers(*read, t) implies votes@ == list_at(
        t.apply_all(changes.subrange(0, 0)).node_votes,
        block,
    ) by {
        assert(changes.subrange(0, 0) =~= Seq::empty());
        assert(votes@ =~= list_at(t.node_votes, block));
    }
    for i in 0..ops.len()
        invariant
            changes == changes_of(ops@),
            only_votes(changes),
            forall|t: Records| #[trigger]
                answers(*read, t) ==> votes@ == list_at(
                    t.apply_all(changes.subrange(0, i as int)).node_votes,
                    block,
                ),
    {
        let ghost before = votes@;
        assert(changes[i as int] is NodeVote);
        if let Op::NodeVote(target, add, chain, level) = &ops[i] {
            if target.0 == block.0 && target.1 == block.1 {
                change_votes(&mut votes, (*add, *chain, *level));
            }
        }
        assert forall|t: Records| #[trigger] answers(*read, t) implies votes@ == list_at(
            t.apply_all(changes.subrange(0, i + 1)).node_votes,
            block,
        ) by {
            let some = changes.subrange(0, i + 1);
            assert(some.drop_last() =~= changes.subrange(0, i as int));
            assert(some.last() == changes[i as int]);
        }
    }
    assert(changes.subrange(0, changes.len() as int) =~= changes);
    Ok(votes)
}

/// The leader among the blocks of a level, with the given changes of votes made.
fn elect_leader<R, E>(read: &R, ops: &Vec<Op>, blocks: &Vec<H256>) -> (result: Result<
    Option<H256>,
    Error<E>,
>) where R: Fn(Column, Vec<u8>) -> Result<Option<Vec<u8>>, E>
    requires
        callable(*read),
        only_votes(changes_of(ops@)),
    ensures
        forall|t: Records| #[trigger]
            answers(*read, t) ==> settles(
                *read,
                result,
                Some(elect(t.apply_all(changes_of(ops@)).node_votes, blocks@)),
            ),
{
    let mut leader: Option<H256> = None;
    let mut max_votes: usize = 0;
    for i in 0..blocks.len()
        invariant
            callable(*read),
            only_votes(changes_of(ops@)),
            forall|t: Records| #[trigger]
                answers(*read, t) ==> front_runner(
                    t.apply_all(changes_of(ops@)).node_votes,
                    blocks@,
                    i as nat,
                ) == (leader, max_votes as nat),
    {
        let votes = match votes_with(read, ops, blocks[i]) {
            Ok(votes) => votes,
            Err(error) => {
                return Err(error);
            },
        };
        if votes.len() > max_votes {
            max_votes = votes.len();
            leader = Some(blocks[i]);
        }
    }
    Ok(leader)
}

/// Levels that are not looked at change no leader.
proof fn lemma_leader_changes_gap(t: Records, levels: Set<u64>, n: nat, m: nat)
    requires
        n <= m <= all_levels(),
        forall|level: u64| n <= level < m ==> !levels.contains(level),
    ensures
        leader_changes(t, levels, m) == leader_changes(t, levels, n),
    decreases m,
{
    if n < m {
        lemma_leader_changes_gap(t, levels, n, (m - 1) as nat);
    }
}

/// Where the leaders of fewer levels cannot be elected, those of more cannot.
proof fn lemma_leader_changes_none(t: Records, levels: Set<u64>, n: nat, m: nat)
    requires
        n <= m,
        leader_changes(t, levels, n) is None,
    ensures
        leader_changes(t, levels, m) is None,
    decreases m,
{
    if n < m {
        lemma_leader_changes_none(t, levels, n, (m - 1) as nat);
    }
}

/// Whether two optional hashes are the same.
fn same_leader(a: Option<H256>, b: Option<H256>) -> (same: bool)
    ensures
        same == (a == b),
{
    match (a, b) {
        (Some(a), Some(b)) => a.0 == b.0 && a.1 == b.1,
        (None, None) => true,
        _ => false,
    }
}

/// The changes of leaders in the given levels, with the given changes of votes made.
fn elect_leaders<R, E>(read: &R, ops: &Vec<Op>, affected: &LevelSet) -> (result: Result<
    Vec<Op>,
    Error<E>,
>) where R: Fn(Column, Vec<u8>) -> Result<Option<Vec<u8>>, E>
    requires
        callable(*read),
        only_votes(changes_of(ops@)),
    ensures
        forall|t: Records| #[trigger]
            answers(*read, t) ==> match result {
                Ok(leaders) => leader_changes(
                    t.apply_all(changes_of(ops@)),
                    affected@,
                    all_levels(),
                ) == Some(changes_of(leaders@)),
                Err(error) => settles(
                    *read,
                    Err::<(), Error<E>>(error),
                    erased(
                        leader_changes(t.apply_all(changes_of(ops@)), affected@, all_levels()),
                    ),
                ),
            },
        result matches Ok(leaders) ==> only_leaders(changes_of(leaders@)),
{
    let levels = affected.list();
    let mut leaders: Vec<Op> = Vec::new();
    let ghost mut done: nat = 0;
    assert(changes_of(leaders@) =~= Seq::empty());
    for i in 0..levels.len()
        invariant
            callable(*read),
            only_votes(changes_of(ops@)),
            only_leaders(changes_of(leaders@)),
            levels@.to_set() == affected@,
            forall|a: int, b: int| 0 <= a < b < levels@.len() ==> levels@[a] < levels@[b],
            done == (if i == 0 {
                0
            } else {
                levels@[i - 1] + 1
            }),
            done <= all_levels(),
            forall|t: Records| #[trigger]
                answers(*read, t) ==> leader_changes(
                    t.apply_all(changes_of(ops@)),
                    affected@,
                    done,
                ) == Some(changes_of(leaders@)),
    {
        let level = levels[i];
        let ghost before = changes_of(leaders@);
        assert forall|l: u64| done <= l < level implies !affected@.contains(l) by {
            if affected@.contains(l) {
                assert(levels@.to_set().contains(l));
                let k = choose|k: int| 0 <= k < levels@.len() && levels@[k] == l;
                assert(levels@[k] == l);
                if k < i {
                    assert(i == 0 || k == i - 1 || levels@[k] < levels@[i - 1]);
                } else if k > i {
                    assert(levels@[i as int] < levels@[k]);
                }
            }
        }
        assert(affected@.contains(level)) by {
            assert(levels@[i as int] == level);
            assert(levels@.to_set().contains(level));
        }
        assert forall|t: Records| #[trigger] answers(*read, t) implies leader_changes(
            t.apply_all(changes_of(ops@)),
            affected@,
            level as nat,
        ) == Some(before) by {
            lemma_leader_changes_gap(
                t.apply_all(changes_of(ops@)),
                affected@,
                done,
                level as nat,
            );
        }
        let blocks = match required(list_at_level(read, Column::ProposerTreeLevel, level)) {
            Ok(blocks) => blocks,
            Err(error) => {
                assert forall|t: Records| #[trigger] answers(*read, t) implies settles(
                    *read,
                    Err::<(), Error<E>>(error),
                    erased(
                        leader_changes(t.apply_all(changes_of(ops@)), affected@, all_levels()),
                    ),
                ) by {
                    if error is Inconsistent {
                        lemma_only_votes(t, changes_of(ops@));
                        lemma_leader_changes_none(
                            t.apply_all(changes_of(ops@)),
                            affected@,
                            (level + 1) as nat,
                            all_levels(),
                        );
                    }
                }
                return Err(error);
            },
        };
        let existing = match leader_at_level(read, level) {
            Ok(leader) => leader,
            Err(error) => {
                return Err(error);
            },
        };
        let leader = match elect_leader(read, ops, &blocks) {
            Ok(leader) => leader,
            Err(error) => {
                return Err(error);
            },
        };
        if !same_leader(leader, existing) {
            match leader {
                Some(block) => leaders.push(Op::Leader(level, block)),
                None => leaders.push(Op::NoLeader(level)),
            }
            assert(changes_of(leaders@) =~= before.push(leader_change(level, leader)));
        }
        proof {
            done = (level + 1) as nat;
        }
        assert forall|t: Records| #[trigger] answers(*read, t) implies leader_changes(
            t.apply_all(changes_of(ops@)),
            affected@,
            done,
        ) == Some(changes_of(leaders@)) by {
            lemma_only_votes(t, changes_of(ops@));
        }
    }
    assert forall|t: Records| #[trigger] answers(*read, t) implies leader_changes(
        t.apply_all(changes_of(ops@)),
        affected@,
        all_levels(),
    ) == Some(changes_of(leaders@)) by {
        assert forall|l: u64| done <= l < all_levels() implies !affected@.contains(l) by {
            if affected@.contains(l) {
                assert(levels@.to_set().contains(l));
                let k = choose|k: int| 0 <= k < levels@.len() && levels@[k] == l;
                assert(levels@[k] == l);
                assert(k == levels@.len() - 1 || levels@[k] < levels@[levels@.len() - 1]);
            }
        }
        lemma_leader_changes_gap(
            t.apply_all(changes_of(ops@)),
            affected@,
            done,
            all_levels(),
        );
    }
    Ok(leaders)
}

/// The leader of a level with the given changes of leaders made.
fn leader_with<R, E>(read: &R, ops: &Vec<Op>, level: u64) -> (result: Result<
    Option<H256>,
    Error<E>,
>) where R: Fn(Column, Vec<u8>) -> Result<Option<Vec<u8>>, E>
    requires
        callable(*read),
        only_leaders(changes_of(ops@)),
    ensures
        forall|t: Records| #[trigger]
            answers(*read, t) ==> settles(
                *read,
                result,
                Some(at(t.apply_all(changes_of(ops@)).leader, level)),
            ),
{
    let mut leader = match leader_at_level(read, level) {
        Ok(leader) => leader,
        Err(error) => {
            return Err(error);
        },
    };
    let ghost changes = changes_of(ops@);
    assert(changes.subrange(0, 0) =~= Seq::empty());
    for i in 0..ops.len()
        invariant
            changes == changes_of(ops@),
            only_leaders(changes),
            forall|t: Records| #[trigger]
                answers(*read, t) ==> leader == at(
                    t.apply_all(changes.subrange(0, i as int)).leader,
                    level,
                ),
    {
        assert(changes[i as int] is Leader || changes[i as int] is NoLeader);
        match &ops[i] {
            Op::Leader(l, block) => {
                if *l == level {
                    leader = Some(*block);
                }
            },
            Op::NoLeader(l) => {
                if *l == level {
                    leader = None;
                }
            },
            _ => {},
        }
        assert forall|t: Records| #[trigger] answers(*read, t) implies leader == at(
            t.apply_all(changes.subrange(0, i + 1)).leader,
            level,
        ) by {
            let some = changes.subrange(0, i + 1);
            assert(some.drop_last() =~= changes.subrange(0, i as int));
            assert(some.last() == changes[i as int]);
        }
    }
    assert(changes.subrange(0, changes.len() as int) =~= changes);
    Ok(leader)
}

/// A list from its end to its start.
fn reversed(list: &Vec<H256>) -> (reverse: Vec<H256>)
    ensures
        reverse@ == list@.reverse(),
{
    let mut reverse: Vec<H256> = Vec::with_capacity(list.len());
    let n: usize = list.len();
    for i in 0..n
        invariant
            n == list@.len(),
            reverse@ =~= list@.reverse().subrange(0, i as int),
    {
        reverse.push(list[n - 1 - i]);
    }
    reverse
}

proof fn lemma_found_twice(
    first: Seq<H256>,
    second: Seq<H256>,
    rest: Option<(Seq<H256>, Set<H256>)>,
)
    ensures
        found_after(first, found_after(second, rest)) == found_after(first + second, rest),
{
    if rest is Some {
        assert(first + (second + rest.unwrap().0) =~= (first + second) + rest.unwrap().0);
    }
}

/// Takes the unconfirmed blocks that a leader reaches out of the set, and gives them back in the
/// order of the ledger.
fn confirm<R, E>(read: &R, leader: H256, unconfirmed: &mut BlockSet) -> (result: Result<
    Vec<H256>,
    Error<E>,
>) where R: Fn(Column, Vec<u8>) -> Result<Option<Vec<u8>>, E>
    requires
        callable(*read),
        old(unconfirmed)@.finite(),
    ensures
        final(unconfirmed)@.finite(),
        forall|t: Records| #[trigger]
            answers(*read, t) ==> match result {
                Ok(order) => traverse(
                    t.proposer_refs,
                    seq![leader],
                    old(unconfirmed)@,
                ) matches Some((blocks, rest)) && order@ == blocks.reverse()
                    && final(unconfirmed)@ == rest,
                Err(error) => settles(
                    *read,
                    Err::<(), Error<E>>(error),
                    erased(traverse(t.proposer_refs, seq![leader], old(unconfirmed)@)),
                ) && exists|n: nat| #[trigger]
                    left_after(t.proposer_refs, seq![leader], old(unconfirmed)@, n) == Some(
                        final(unconfirmed)@,
                    ),
            },
{
    let mut order: Vec<H256> = Vec::new();
    let mut stack: Vec<H256> = Vec::new();
    stack.push(leader);
    assert(stack@ =~= seq![leader]);
    assert forall|t: Records| #[trigger] answers(*read, t) implies traverse(
        t.proposer_refs,
        seq![leader],
        unconfirmed@,
    ) == found_after(order@, traverse(t.proposer_refs, stack@, unconfirmed@)) by {
        let rest = traverse(t.proposer_refs, stack@, unconfirmed@);
        if rest is Some {
            assert(order@ + rest.unwrap().0 =~= rest.unwrap().0);
        }
    }
    while stack.len() > 0
        invariant
            callable(*read),
            unconfirmed@.finite(),
            forall|t: Records| #[trigger]
                answers(*read, t) ==> traverse(t.proposer_refs, seq![leader], old(unconfirmed)@)
                    == found_after(order@, traverse(t.proposer_refs, stack@, unconfirmed@)),
            forall|t: Records, n: nat|
                answers(*read, t) && n >= order@.len() ==> #[trigger] left_after(
                    t.proposer_refs,
                    seq![leader],
                    old(unconfirmed)@,
                    n,
                ) == left_after(
                    t.proposer_refs,
                    stack@,
                    unconfirmed@,
                    (n - order@.len()) as nat,
                ),
        decreases unconfirmed@.len(), stack@.len(),
    {
        let ghost before = stack@;
        let ghost remaining = unconfirmed@;
        let ghost found = order@;
        let top = stack.pop().unwrap();
        assert(stack@ == before.drop_last());
        // a block that is not in the set is confirmed already
        if unconfirmed.remove(top) {
            let refs = match required(list_under(read, Column::ProposerRefNeighbor, top)) {
                Ok(refs) => refs,
                Err(error) => {
                    assert forall|t: Records| #[trigger] answers(*read, t) implies left_after(
                        t.proposer_refs,
                        seq![leader],
                        old(unconfirmed)@,
                        found.len() + 1,
                    ) == Some(unconfirmed@) by {
                        assert(left_after(t.proposer_refs, before, remaining, 1) == Some(
                            unconfirmed@,
                        ));
                    }
                    return Err(error);
                },
            };
            order.push(top);
            let ghost base = stack@;
            for i in 0..refs.len()
                invariant
                    stack@ =~= base + refs@.subrange(0, i as int),
            {
                stack.push(refs[i]);
            }
            assert(stack@ =~= base + refs@);
            assert(order@ =~= found + seq![top]);
            assert forall|t: Records| #[trigger] answers(*read, t) implies traverse(
                t.proposer_refs,
                seq![leader],
                old(unconfirmed)@,
            ) == found_after(order@, traverse(t.proposer_refs, stack@, unconfirmed@)) by {
                lemma_found_twice(
                    found,
                    seq![top],
                    traverse(t.proposer_refs, stack@, unconfirmed@),
                );
            }
            assert forall|t: Records, n: nat|
                answers(*read, t) && n >= order@.len() implies #[trigger] left_after(
                t.proposer_refs,
                seq![leader],
                old(unconfirmed)@,
                n,
            ) == left_after(
                t.proposer_refs,
                stack@,
                unconfirmed@,
                (n - order@.len()) as nat,
            ) by {
                assert(left_after(t.proposer_refs, seq![leader], old(unconfirmed)@, n)
                    == left_after(
                    t.proposer_refs,
                    before,
                    remaining,
                    (n - found.len()) as nat,
                ));
            }
        } else {
            assert(unconfirmed@ =~= remaining);
            assert forall|t: Records, n: nat|
                answers(*read, t) && n >= order@.len() implies #[trigger] left_after(
                t.proposer_refs,
                seq![leader],
                old(unconfirmed)@,
                n,
            ) == left_after(
                t.proposer_refs,
                stack@,
                unconfirmed@,
                (n - order@.len()) as nat,
            ) by {
                assert(left_after(t.proposer_refs, seq![leader], old(unconfirmed)@, n)
                    == left_after(
                    t.proposer_refs,
                    before,
                    remaining,
                    (n - order@.len()) as nat,
                ));
            }
        }
    }
    assert(order@ + Seq::<H256>::empty() =~= order@);
    Ok(reversed(&order))
}

/// Where fewer levels of the ledger cannot be had, more cannot.
proof fn lemma_ledger_none(order: Map<u64, Seq<H256>>, begin: nat, n: nat, m: nat)
    requires
        n <= m,
        ledger_between(order, begin, n) is None,
    ensures
        ledger_between(order, begin, m) is None,
    decreases m,
{
    if n < m {
        lemma_ledger_none(order, begin, n, (m - 1) as nat);
    }
}

/// Reads the blocks of the ledger in the levels from `begin` up to `tip`, in order.
pub(crate) fn ledger_blocks<R, E>(read: &R, begin: u64, tip: u64) -> (result: Result<
    Vec<H256>,
    Error<E>,
>) where R: Fn(Column, Vec<u8>) -> Result<Option<Vec<u8>>, E>
    requires
        callable(*read),
    ensures
        forall|t: Records| #[trigger]
            answers(*read, t) ==> settles(
                *read,
                as_seq(result),
                ledger_between(t.order, begin as nat, (tip + 1) as nat),
            ),
{
    let mut list: Vec<H256> = Vec::new();
    let mut next: u128 = begin as u128;
    assert(list@ =~= Seq::empty());
    while next <= tip as u128
        invariant
            callable(*read),
            begin <= next,
            next <= tip + 1 || next == begin,
            forall|t: Records| #[trigger]
                answers(*read, t) ==> ledger_between(t.order, begin as nat, next as nat) == Some(
                    list@,
                ),
        decreases tip + 1 - next,
    {
        let level: u64 = next as u64;
        let ghost before = list@;
        let blocks = match required(list_at_level(read, Column::ProposerLedgerOrder, level)) {
            Ok(blocks) => blocks,
            Err(error) => {
                assert forall|t: Records| #[trigger] answers(*read, t) implies settles(
                    *read,
                    Err::<Seq<H256>, Error<E>>(error),
                    ledger_between(t.order, begin as nat, (tip + 1) as nat),
                ) by {
                    if error is Inconsistent {
                        lemma_ledger_none(
                            t.order,
                            begin as nat,
                            (next + 1) as nat,
                            (tip + 1) as nat,
                        );
                    }
                }
                return Err(error);
            },
        };
        push_all(&mut list, &blocks);
        next += 1;
    }
    assert forall|t: Records| #[trigger] answers(*read, t) implies ledger_between(
        t.order,
        begin as nat,
        (tip + 1) as nat,
    ) == Some(list@) by {
        if begin > tip {
            assert(list@ =~= Seq::empty());
        }
    }
    Ok(list)
}

/// Adds the blocks of a list to another.
pub(crate) fn push_all(list: &mut Vec<H256>, more: &Vec<H256>)
    ensures
        final(list)@ == old(list)@ + more@,
{
    for i in 0..more.len()
        invariant
            list@ =~= old(list)@ + more@.subrange(0, i as int),
    {
        list.push(more[i]);
    }
    assert(more@.subrange(0, more@.len() as int) =~= more@);
}

/// Where the transaction blocks of fewer proposer blocks cannot be had, those of more cannot.
proof fn lemma_transactions_none(refs: Map<H256, Seq<H256>>, blocks: Seq<H256>, n: nat, m: nat)
    requires
        n <= m,
        transactions_of(refs, blocks, n) is None,
    ensures
        transactions_of(refs, blocks, m) is None,
    decreases m,
{
    if n < m {
        lemma_transactions_none(refs, blocks, n, (m - 1) as nat);
    }
}

/// Reads the transaction blocks that some proposer blocks refer to, in order.
pub(crate) fn transaction_blocks<R, E>(read: &R, blocks: &Vec<H256>) -> (result: Result<
    Vec<H256>,
    Error<E>,
>) where R: Fn(Column, Vec<u8>) -> Result<Option<Vec<u8>>, E>
    requires
        callable(*read),
    ensures
        forall|t: Records| #[trigger]
            answers(*read, t) ==> settles(
                *read,
                as_seq(result),
                transactions_of(t.transaction_refs, blocks@, blocks@.len()),
            ),
{
    let mut list: Vec<H256> = Vec::new();
    assert(list@ =~= Seq::empty());
    for i in 0..blocks.len()
        invariant
            callable(*read),
            forall|t: Records| #[trigger]
                answers(*read, t) ==> transactions_of(t.transaction_refs, blocks@, i as nat)
                    == Some(list@),
    {
        let refs = match required(list_under(read, Column::TransactionRefNeighbor, blocks[i])) {
            Ok(refs) => refs,
            Err(error) => {
                assert forall|t: Records| #[trigger] answers(*read, t) implies settles(
                    *read,
                    Err::<Seq<H256>, Error<E>>(error),
                    transactions_of(t.transaction_refs, blocks@, blocks@.len()),
                ) by {
                    if error is Inconsistent {
                        lemma_transactions_none(
                            t.transaction_refs,
                            blocks@,
                            (i + 1) as nat,
                            blocks@.len(),
                        );
                    }
                }
                return Err(error);
            },
        };
        push_all(&mut list, &refs);
    }
    Ok(list)
}

proof fn lemma_levels_twice(
    first: Seq<Seq<H256>>,
    second: Seq<Seq<H256>>,
    rest: Option<Rebuilt>,
)
    ensures
        levels_after(first, levels_after(second, rest)) == levels_after(first + second, rest),
{
    if rest is Some {
        assert(first + (second + rest.unwrap().orders) =~= (first + second)
            + rest.unwrap().orders);
    }
}

/// A traversal that has found all its blocks leaves what it leaves.
proof fn lemma_left_at_end(
    refs: Map<H256, Seq<H256>>,
    stack: Seq<H256>,
    unconfirmed: Set<H256>,
)
    requires
        unconfirmed.finite(),
        traverse(refs, stack, unconfirmed) is Some,
    ensures
        left_after(
            refs,
            stack,
            unconfirmed,
            traverse(refs, stack, unconfirmed).unwrap().0.len(),
        ) == Some(traverse(refs, stack, unconfirmed).unwrap().1),
    decreases unconfirmed.len(), stack.len(),
{
    if stack.len() > 0 {
        let top = stack.last();
        if !unconfirmed.contains(top) {
            lemma_left_at_end(refs, stack.drop_last(), unconfirmed);
            if traverse(refs, stack, unconfirmed).unwrap().0.len() == 0 {
                assert(left_after(refs, stack.drop_last(), unconfirmed, 0) == Some(unconfirmed));
            }
        } else {
            let next = stack.drop_last() + refs[top];
            lemma_left_at_end(refs, next, unconfirmed.remove(top));
            let (more, rest) = traverse(refs, next, unconfirmed.remove(top)).unwrap();
            assert((seq![top] + more).len() == more.len() + 1);
        }
    }
}

/// Orders the blocks from level `begin` up to the first level without a leader, with the given
/// changes of leaders made. Takes the blocks out of the set, adds them to a list and the changes
/// to another, and gives back the last level that has a leader.
fn rebuild_from<R, E>(
    read: &R,
    leaders: &Vec<Op>,
    begin: u64,
    unconfirmed: &mut BlockSet,
    ops: &mut Vec<Op>,
    added: &mut Vec<H256>,
) -> (result: Result<u64, Error<E>>) where R: Fn(Column, Vec<u8>) -> Result<Option<Vec<u8>>, E>
    requires
        callable(*read),
        only_leaders(changes_of(leaders@)),
        old(unconfirmed)@.finite(),
    ensures
        final(unconfirmed)@.finite(),
        forall|t: Records| #[trigger]
            answers(*read, t) ==> {
                let rebuilt = rebuild(
                    t.apply_all(changes_of(leaders@)).leader,
                    t.proposer_refs,
                    begin,
                    old(unconfirmed)@,
                );
                match result {
                    Ok(tip) => {
                        &&& rebuilt is Some
                        &&& rebuilt.unwrap().tip == tip
                        &&& rebuilt.unwrap().unconfirmed == final(unconfirmed)@
                        &&& changes_of(final(ops)@) == changes_of(old(ops)@) + ordered(
                            begin,
                            rebuilt.unwrap().orders,
                        )
                        &&& final(added)@ == old(added)@ + joined(rebuilt.unwrap().orders)
                    },
                    Err(error) => settles(*read, Err::<(), Error<E>>(error), erased(rebuilt))
                        && exists|k: nat, n: nat| #[trigger]
                        left_at(
                            t.apply_all(changes_of(leaders@)).leader,
                            t.proposer_refs,
                            begin,
                            old(unconfirmed)@,
                            k,
                            n,
                        ) == Some(final(unconfirmed)@),
                }
            },
{
    let mut level: u64 = begin;
    let ghost mut orders: Seq<Seq<H256>> = Seq::empty();
    assert(changes_of(ops@) =~= changes_of(old(ops)@) + ordered(begin, orders));
    assert(added@ =~= old(added)@ + joined(orders));
    assert forall|t: Records| #[trigger] answers(*read, t) implies {
        let leader = t.apply_all(changes_of(leaders@)).leader;
        rebuild(leader, t.proposer_refs, begin, old(unconfirmed)@) == levels_after(
            orders,
            rebuild(leader, t.proposer_refs, level, unconfirmed@),
        )
    } by {
        let leader = t.apply_all(changes_of(leaders@)).leader;
        let rest = rebuild(leader, t.proposer_refs, level, unconfirmed@);
        if rest is Some {
            assert(orders + rest.unwrap().orders =~= rest.unwrap().orders);
        }
    }
    loop
        invariant
            callable(*read),
            only_leaders(changes_of(leaders@)),
            unconfirmed@.finite(),
            level == begin + orders.len(),
            changes_of(ops@) == changes_of(old(ops)@) + ordered(begin, orders),
            added@ == old(added)@ + joined(orders),
            forall|t: Records| #[trigger]
                answers(*read, t) ==> {
                    let leader = t.apply_all(changes_of(leaders@)).leader;
                    rebuild(leader, t.proposer_refs, begin, old(unconfirmed)@) == levels_after(
                        orders,
                        rebuild(leader, t.proposer_refs, level, unconfirmed@),
                    )
                },
            forall|t: Records, k: nat, n: nat|
                answers(*read, t) && k >= orders.len() ==> #[trigger] left_at(
                    t.apply_all(changes_of(leaders@)).leader,
                    t.proposer_refs,
                    begin,
                    old(unconfirmed)@,
                    k,
                    n,
                ) == left_at(
                    t.apply_all(changes_of(leaders@)).leader,
                    t.proposer_refs,
                    level,
                    unconfirmed@,
                    (k - orders.len()) as nat,
                    n,
                ),
        decreases u64::MAX - level,
    {
        let ghost remaining = unconfirmed@;
        assert forall|t: Records| #[trigger] answers(*read, t) implies left_at(
            t.apply_all(changes_of(leaders@)).leader,
            t.proposer_refs,
            begin,
            old(unconfirmed)@,
            orders.len(),
            0,
        ) == Some(unconfirmed@) by {}
        let leader = match leader_with(read, leaders, level) {
            Ok(leader) => leader,
            Err(error) => {
                return Err(error);
            },
        };
        match leader {
            None => {
                if level == 0 {
                    return Err(Error::Inconsistent);
                }
                assert(orders + Seq::<Seq<H256>>::empty() =~= orders);
                return Ok(level - 1);
            },
            Some(block) => {
                let order = match confirm(read, block, unconfirmed) {
                    Ok(order) => order,
                    Err(error) => {
                        assert forall|t: Records| #[trigger] answers(
                            *read,
                            t,
                        ) implies exists|k: nat, n: nat| #[trigger]
                            left_at(
                                t.apply_all(changes_of(leaders@)).leader,
                                t.proposer_refs,
                                begin,
                                old(unconfirmed)@,
                                k,
                                n,
                            ) == Some(unconfirmed@) by {
                            let n = choose|n: nat| #[trigger]
                                left_after(t.proposer_refs, seq![block], remaining, n) == Some(
                                    unconfirmed@,
                                );
                            assert(left_at(
                                t.apply_all(changes_of(leaders@)).leader,
                                t.proposer_refs,
                                begin,
                                old(unconfirmed)@,
                                orders.len(),
                                n,
                            ) == Some(unconfirmed@));
                        }
                        return Err(error);
                    },
                };
                if level == u64::MAX {
                    assert forall|t: Records| #[trigger] answers(*read, t) implies left_at(
                        t.apply_all(changes_of(leaders@)).leader,
                        t.proposer_refs,
                        begin,
                        old(unconfirmed)@,
                        orders.len(),
                        traverse(t.proposer_refs, seq![block], remaining).unwrap().0.len(),
                    ) == Some(unconfirmed@) by {
                        lemma_left_at_end(t.proposer_refs, seq![block], remaining);
                    }
                    return Err(Error::Inconsistent);
                }
                let ghost before = orders;
                let ghost changes = changes_of(ops@);
                proof {
                    orders = orders.push(order@);
                    assert(orders.drop_last() =~= before);
                    assert(orders =~= before + seq![order@]);
                }
                push_all(added, &order);
                assert(added@ =~= old(added)@ + joined(orders));
                ops.push(Op::Order(level, order));
                assert(changes_of(ops@) =~= changes.push(Change::Order(level, order@)));
                assert(changes_of(ops@) =~= changes_of(old(ops)@) + ordered(begin, orders));
                level += 1;
                assert forall|t: Records| #[trigger] answers(*read, t) implies {
                    let leader = t.apply_all(changes_of(leaders@)).leader;
                    rebuild(leader, t.proposer_refs, begin, old(unconfirmed)@) == levels_after(
                        orders,
                        rebuild(leader, t.proposer_refs, level, unconfirmed@),
                    )
                } by {
                    let leader = t.apply_all(changes_of(leaders@)).leader;
                    lemma_levels_twice(
                        before,
                        seq![order@],
                        rebuild(leader, t.proposer_refs, level, unconfirmed@),
                    );
                }
                assert forall|t: Records, k: nat, n: nat|
                    answers(*read, t) && k >= orders.len() implies #[trigger] left_at(
                    t.apply_all(changes_of(leaders@)).leader,
                    t.proposer_refs,
                    begin,
                    old(unconfirmed)@,
                    k,
                    n,
                ) == left_at(
                    t.apply_all(changes_of(leaders@)).leader,
                    t.proposer_refs,
                    level,
                    unconfirmed@,
                    (k - orders.len()) as nat,
                    n,
                ) by {
                    assert(left_at(
                        t.apply_all(changes_of(leaders@)).leader,
                        t.proposer_refs,
                        begin,
                        old(unconfirmed)@,
                        k,
                        n,
                    ) == left_at(
                        t.apply_all(changes_of(leaders@)).leader,
                        t.proposer_refs,
                        (level - 1) as u64,
                        remaining,
                        (k - before.len()) as nat,
                        n,
                    ));
                }
            },
        }
    }
}

/// The leaders after changes of leaders depend on the leaders before them alone.
proof fn lemma_leaders_alone(t: Records, u: Records, changes: Seq<Change>)
    requires
        only_leaders(changes),
        t.leader == u.leader,
    ensures
        t.apply_all(changes).leader == u.apply_all(changes).leader,
    decreases changes.len(),
{
    if changes.len() > 0 {
        assert(only_leaders(changes.drop_last())) by {
            assert forall|i: int| 0 <= i < changes.len() - 1 implies (
            #[trigger] changes.drop_last()[i]) is Leader || changes.drop_last()[i] is NoLeader by {
                assert(changes[i] is Leader || changes[i] is NoLeader);
            }
        }
        lemma_leaders_alone(t, u, changes.drop_last());
        assert(changes.last() is Leader || changes.last() is NoLeader);
    }
}

/// A ledger that was rebuilt from a level on, as executable values.
struct Relink {
    ops: Vec<Op>,
    added: Vec<H256>,
    removed: Vec<H256>,
}

impl BlockChain {
    /// Makes the blocks of the ledger from level `begin` up to the tip unconfirmed, level by level,
    /// and gives them back.
    fn deconfirm<R, E>(&mut self, read: &R, begin: u64, ops: &mut Vec<Op>) -> (result: Result<
        Vec<H256>,
        Error<E>,
    >) where R: Fn(Column, Vec<u8>) -> Result<Option<Vec<u8>>, E>
        requires
            old(self).wf(),
            callable(*read),
            old(ops)@ == Seq::<Op>::empty(),
        ensures
            final(self).wf(),
            final(self)@ == (ChainState {
                unconfirmed_proposers: final(self)@.unconfirmed_proposers,
                ..old(self)@
            }),
            result matches Ok(removed) ==> final(self)@.unconfirmed_proposers
                == old(self)@.unconfirmed_proposers.union(removed@.to_set()) && changes_of(
                final(ops)@,
            ) == cleared(begin as nat, (old(self)@.proposer_ledger_tip + 1) as nat),
            forall|t: Records| #[trigger]
                answers(*read, t) ==> {
                    let want = ledger_between(
                        t.order,
                        begin as nat,
                        (old(self)@.proposer_ledger_tip + 1) as nat,
                    );
                    match result {
                        Ok(removed) => want == Some(removed@),
                        Err(error) => settles(*read, Err::<Seq<H256>, Error<E>>(error), want)
                            && exists|end: nat|
                            begin <= end <= old(self)@.proposer_ledger_tip && (
                            #[trigger] ledger_between(t.order, begin as nat, end) matches Some(
                                blocks,
                            ) && final(self)@.unconfirmed_proposers
                                == old(self)@.unconfirmed_proposers.union(blocks.to_set())),
                    }
                },
    {
        let tip = self.proposer_ledger_tip;
        let mut removed: Vec<H256> = Vec::new();
        let mut next: u128 = begin as u128;
        assert(removed@ =~= Seq::empty());
        assert(self@.unconfirmed_proposers =~= old(self)@.unconfirmed_proposers.union(
            removed@.to_set(),
        ));
        assert(changes_of(ops@) =~= cleared(begin as nat, next as nat));
        while next <= tip as u128
            invariant
                callable(*read),
                old(self).wf(),
                self.wf(),
                tip == old(self)@.proposer_ledger_tip,
                self@ == (ChainState {
                    unconfirmed_proposers: old(self)@.unconfirmed_proposers.union(
                        removed@.to_set(),
                    ),
                    ..old(self)@
                }),
                begin <= next,
                next <= tip + 1 || next == begin,
                changes_of(ops@) == cleared(begin as nat, next as nat),
                forall|t: Records| #[trigger]
                    answers(*read, t) ==> ledger_between(t.order, begin as nat, next as nat)
                        == Some(removed@),
            decreases tip + 1 - next,
        {
            let level: u64 = next as u64;
            let ghost before = removed@;
            let ghost changes = changes_of(ops@);
            let blocks = match required(list_at_level(read, Column::ProposerLedgerOrder, level)) {
                Ok(blocks) => blocks,
                Err(error) => {
                    assert forall|t: Records| #[trigger] answers(*read, t) implies settles(
                        *read,
                        Err::<Seq<H256>, Error<E>>(error),
                        ledger_between(t.order, begin as nat, (tip + 1) as nat),
                    ) && ledger_between(t.order, begin as nat, next as nat) == Some(
                        removed@,
                    ) by {
                        if error is Inconsistent {
                            lemma_ledger_none(
                                t.order,
                                begin as nat,
                                (next + 1) as nat,
                                (tip + 1) as nat,
                            );
                        }
                    }
                    return Err(error);
                },
            };
            ops.push(Op::NoOrder(level));
            assert(changes_of(ops@) =~= changes.push(Change::NoOrder(level)));
            assert(changes_of(ops@) =~= cleared(begin as nat, (next + 1) as nat));
            let ghost held = self@.unconfirmed_proposers;
            self.unconfirmed_proposers.insert_all(&blocks);
            push_all(&mut removed, &blocks);
            proof {
                lemma_concat_set(before, blocks@);
                vstd::seq_lib::seq_to_set_is_finite(blocks@);
                assert(self@.unconfirmed_proposers =~= old(self)@.unconfirmed_proposers.union(
                    removed@.to_set(),
                ));
                assert(held.union(blocks@.to_set()).finite());
            }
            next += 1;
        }
        assert(changes_of(ops@) =~= cleared(begin as nat, (tip + 1) as nat));
        assert forall|t: Records| #[trigger] answers(*read, t) implies ledger_between(
            t.order,
            begin as nat,
            (tip + 1) as nat,
        ) == Some(removed@) by {
            if begin > tip {
                assert(removed@ =~= Seq::empty());
            }
        }
        Ok(removed)
    }

    /// Rebuilds the ledger from level `begin` on, with the given changes of leaders made.
    fn relink_from<R, E>(&mut self, read: &R, leaders: &Vec<Op>, begin: u64) -> (result: Result<
        Relink,
        Error<E>,
    >) where R: Fn(Column, Vec<u8>) -> Result<Option<Vec<u8>>, E>
        requires
            old(self).wf(),
            callable(*read),
            only_leaders(changes_of(leaders@)),
        ensures
            final(self).wf(),
            forall|t: Records| #[trigger]
                answers(*read, t) ==> {
                    let u = t.apply_all(changes_of(leaders@));
                    let want = relink(old(self)@, u, begin);
                    match result {
                        Ok(done) => want == Some(
                            Relinked {
                                state: final(self)@,
                                changes: changes_of(done.ops@),
                                added: done.added@,
                                removed: done.removed@,
                            },
                        ),
                        Err(error) => {
                            &&& settles(*read, Err::<(), Error<E>>(error), erased(want))
                            &&& final(self)@ == (ChainState {
                                unconfirmed_proposers: final(self)@.unconfirmed_proposers,
                                ..old(self)@
                            })
                            &&& amid_relink(
                                old(self)@,
                                u,
                                begin,
                                final(self)@.unconfirmed_proposers,
                            )
                        },
                    }
                },
    {
        let tip = self.proposer_ledger_tip;
        assert forall|t: Records| #[trigger] answers(*read, t) implies t.apply_all(
            changes_of(leaders@),
        ) == (Records { leader: t.apply_all(changes_of(leaders@)).leader, ..t }) by {
            lemma_only_leaders(t, changes_of(leaders@));
        }
        let mut ops: Vec<Op> = Vec::new();
        let mut added: Vec<H256> = Vec::new();
        // the blocks from the changed level up to the tip are no longer confirmed
        let removed = match self.deconfirm(read, begin, &mut ops) {
            Ok(removed) => removed,
            Err(error) => {
                return Err(error);
            },
        };
        let ghost all = self@.unconfirmed_proposers;
        if tip == u64::MAX {
            assert forall|t: Records| #[trigger] answers(*read, t) implies left_at(
                t.apply_all(changes_of(leaders@)).leader,
                t.proposer_refs,
                begin,
                all,
                0,
                0,
            ) == Some(all) by {}
            return Err(Error::Inconsistent);
        }
        if begin > tip + 1 {
            assert(changes_of(ops@) =~= Seq::empty());
            assert forall|t: Records| #[trigger] answers(*read, t) implies removed@
                =~= Seq::empty() by {}
            assert forall|t: Records| #[trigger] answers(*read, t) implies self@
                == old(self)@ by {
                assert(removed@.to_set() =~= Set::empty());
                assert(self@.unconfirmed_proposers =~= old(self)@.unconfirmed_proposers);
            }
            return Ok(Relink { ops, added, removed });
        }
        // the ledger goes on up to the first level without a leader
        let tip = match rebuild_from(
            read,
            leaders,
            begin,
            &mut self.unconfirmed_proposers,
            &mut ops,
            &mut added,
        ) {
            Ok(tip) => tip,
            Err(error) => {
                return Err(error);
            },
        };
        self.proposer_ledger_tip = tip;
        assert forall|t: Records| #[trigger] answers(*read, t) implies relink(
            old(self)@,
            t.apply_all(changes_of(leaders@)),
            begin,
        ) == Some(
            Relinked {
                state: self@,
                changes: changes_of(ops@),
                added: added@,
                removed: removed@,
            },
        ) by {
            let want = relink(old(self)@, t.apply_all(changes_of(leaders@)), begin).unwrap();
            assert(added@ =~= want.added);
            assert(self@ =~= want.state);
        }
        Ok(Relink { ops, added, removed })
    }

    /// Counts the votes up to the best block of each voter chain, elects leaders, and brings the
    /// ledger up to date. Gives back the changes to the records, to be committed by the caller,
    /// and the transaction blocks that enter and leave the ledger. A consistent chain stays
    /// consistent, and only a read can fail on it. Where one does, the update stops, and the part
    /// that was done stays: the changes handed back with the error are to be committed too.
    #[verifier::rlimit(40)]
    pub fn update_ledger<R, E>(&mut self, read: &R) -> (result: Result<
        LedgerUpdate,
        Stopped<E>,
    >) where R: Fn(Column, Vec<u8>) -> Result<Option<Vec<u8>>, E>
        requires
            old(self).wf(),
            callable(*read),
        ensures
            final(self).wf(),
            forall|t: Records| #[trigger]
                answers(*read, t) ==> settles(
                    *read,
                    updated(result, final(self)@),
                    update(old(self)@, t),
                ),
            forall|t: Records| #[trigger]
                answers(*read, t) ==> (result matches Ok(done) ==> update(
                    old(self)@,
                    t,
                ) matches Some(want) && {
                    &&& final(self)@ == want.state
                    &&& done.added@ == want.added
                    &&& done.removed@ == want.removed
                    &&& done.batches@.len() == want.batches.len()
                    &&& forall|i: int, j: int|
                        0 <= i < want.batches.len() && 0 <= j < want.batches[i].len()
                            ==> #[trigger] done.batches@[i]@[j]@ == want.batches[i][j]
                    &&& forall|i: int|
                        0 <= i < want.batches.len() ==> (#[trigger] done.batches@[i])@.len()
                            == want.batches[i].len()
                }),
            forall|t: Records| #[trigger]
                answers(*read, t) ==> (result matches Err(stopped) ==> stopped_update(
                    old(self)@,
                    t,
                    final(self)@,
                    batches_of(stopped.batches@),
                )),
            forall|t: Records| #[trigger]
                answers(*read, t) && consistent(old(self)@, t) ==> match result {
                    Ok(done) => consistent(
                        final(self)@,
                        after_batches(t, batches_of(done.batches@)),
                    ),
                    Err(stopped) => stopped.error is Read,
                },
    {
        assert forall|t: Records| #[trigger] answers(*read, t) && consistent(
            self@,
            t,
        ) implies update(self@, t) matches Some(done) && consistent(
            done.state,
            after_batches(t, done.batches),
        ) by {
            law_update(self@, t);
        }
        let mut batches: Vec<Vec<Op>> = Vec::new();
        assert(batches_of(batches@) =~= Seq::empty());
        let (votes, affected) = match self.count_votes(read) {
            Ok(counted) => counted,
            Err(error) => {
                return Err(Stopped { error, batches });
            },
        };
        let ghost vote_list = changes_of(votes@);
        let leaders = match elect_leaders(read, &votes, &affected) {
            Ok(leaders) => leaders,
            Err(error) => {
                batches.push(votes);
                assert(batches_of(batches@) =~= seq![vote_list]);
                return Err(Stopped { error, batches });
            },
        };
        let ghost leader_list = changes_of(leaders@);
        if leaders.len() == 0 {
            batches.push(votes);
            batches.push(leaders);
            assert(batches_of(batches@) =~= seq![vote_list, leader_list]);
            return Ok(LedgerUpdate { batches, added: Vec::new(), removed: Vec::new() });
        }
        assert(leader_list[0] is Leader || leader_list[0] is NoLeader);
        let begin: u64 = match &leaders[0] {
            Op::Leader(level, _) => *level,
            Op::NoLeader(level) => *level,
            _ => 0,
        };
        let ghost counted = self@;
        assert forall|t: Records| #[trigger] answers(*read, t) implies {
            let u = t.apply_all(vote_list).apply_all(leader_list);
            let v = t.apply_all(leader_list);
            &&& relink(counted, u, begin) == relink(counted, v, begin)
            &&& u.transaction_refs == t.transaction_refs
            &&& forall|set: Set<H256>|
                amid_relink(counted, v, begin, set) ==> #[trigger] amid_relink(
                    counted,
                    u,
                    begin,
                    set,
                )
        } by {
            lemma_only_votes(t, vote_list);
            lemma_only_leaders(t.apply_all(vote_list), leader_list);
            lemma_only_leaders(t, leader_list);
            lemma_leaders_alone(t, t.apply_all(vote_list), leader_list);
        }
        let done = match self.relink_from(read, &leaders, begin) {
            Ok(done) => done,
            Err(error) => {
                batches.push(votes);
                batches.push(leaders);
                assert(batches_of(batches@) =~= seq![vote_list, leader_list]);
                return Err(Stopped { error, batches });
            },
        };
        batches.push(votes);
        batches.push(leaders);
        batches.push(done.ops);
        assert(batches_of(batches@) =~= seq![vote_list, leader_list, changes_of(done.ops@)]);
        let removed = match transaction_blocks(read, &done.removed) {
            Ok(removed) => removed,
            Err(error) => {
                return Err(Stopped { error, batches });
            },
        };
        let added = match transaction_blocks(read, &done.added) {
            Ok(added) => added,
            Err(error) => {
                return Err(Stopped { error, batches });
            },
        };
        Ok(LedgerUpdate { batches, added, removed })
    }
}

} // verus!
