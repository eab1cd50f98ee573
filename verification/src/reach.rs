//! What the levels of the ledger hold: the blocks that can be reached from their leaders.

use vstd::prelude::*;

use crate::block::H256;
use crate::chain::ChainState;
use crate::consistency::ledger_fits;
use crate::election::law_leader_has_most_votes;
use crate::invariants::{elected, lemma_update_parts, refs_known};
use crate::laws::{after_batches, ledger_of, lemma_ledger_between};
use crate::ledger::{joined, ledger_between, rebuild, traverse, update};
use crate::ordering::{
    confirms, lemma_rebuild, lemma_rebuild_closed, lemma_reverse_set, lemma_traverse,
    lemma_traverse_closed,
};
use crate::store::{at, Records};

verus! {

/// Whether following references `n` times can lead from a block to another one.
pub open spec fn reaches(refs: Map<H256, Seq<H256>>, from: H256, to: H256, n: nat) -> bool
    decreases n,
{
    if n == 0 {
        from == to
    } else {
        exists|next: H256| #[trigger]
            refs[from].contains(next) && reaches(refs, next, to, (n - 1) as nat)
    }
}

/// Whether following references can lead from a block to another one, or it is that block.
pub open spec fn reachable(refs: Map<H256, Seq<H256>>, from: H256, to: H256) -> bool {
    exists|n: nat| #[trigger] reaches(refs, from, to, n)
}

/// Whether what known blocks refer to is known.
pub open spec fn known_refs(refs: Map<H256, Seq<H256>>, all: Set<H256>) -> bool {
    forall|block: H256, i: int|
        all.contains(block) && 0 <= i < refs[block].len() ==> all.contains(
            #[trigger] refs[block][i],
        )
}

/// Whether no known block outside a set refers to a block in it.
pub open spec fn shut(refs: Map<H256, Seq<H256>>, all: Set<H256>, set: Set<H256>) -> bool {
    forall|block: H256, i: int|
        all.contains(block) && !set.contains(block) && 0 <= i < refs[block].len()
            ==> !set.contains(#[trigger] refs[block][i])
}

proof fn lemma_reached_known(
    refs: Map<H256, Seq<H256>>,
    all: Set<H256>,
    from: H256,
    to: H256,
    n: nat,
)
    requires
        known_refs(refs, all),
        all.contains(from),
        reaches(refs, from, to, n),
    ensures
        all.contains(to),
    decreases n,
{
    if n > 0 {
        let next = choose|next: H256| #[trigger]
            refs[from].contains(next) && reaches(refs, next, to, (n - 1) as nat);
        let i = choose|i: int| 0 <= i < refs[from].len() && refs[from][i] == next;
        assert(all.contains(refs[from][i]));
        lemma_reached_known(refs, all, next, to, (n - 1) as nat);
    }
}

proof fn lemma_reached_outside(
    refs: Map<H256, Seq<H256>>,
    all: Set<H256>,
    set: Set<H256>,
    from: H256,
    to: H256,
    n: nat,
)
    requires
        known_refs(refs, all),
        shut(refs, all, set),
        all.contains(from),
        !set.contains(from),
        reaches(refs, from, to, n),
    ensures
        !set.contains(to),
    decreases n,
{
    if n > 0 {
        let next = choose|next: H256| #[trigger]
            refs[from].contains(next) && reaches(refs, next, to, (n - 1) as nat);
        let i = choose|i: int| 0 <= i < refs[from].len() && refs[from][i] == next;
        assert(all.contains(refs[from][i]));
        assert(!set.contains(refs[from][i]));
        lemma_reached_outside(refs, all, set, next, to, (n - 1) as nat);
    }
}

/// Whether a block can be reached from one of a list.
spec fn reachable_from(refs: Map<H256, Seq<H256>>, list: Seq<H256>, to: H256) -> bool {
    exists|i: int| 0 <= i < list.len() && reachable(refs, #[trigger] list[i], to)
}

/// What a traversal finds can be reached from its stack.
proof fn lemma_found_reachable(
    refs: Map<H256, Seq<H256>>,
    stack: Seq<H256>,
    unconfirmed: Set<H256>,
    block: H256,
)
    requires
        unconfirmed.finite(),
        traverse(refs, stack, unconfirmed) is Some,
        traverse(refs, stack, unconfirmed).unwrap().0.contains(block),
    ensures
        reachable_from(refs, stack, block),
    decreases unconfirmed.len(), stack.len(),
{
    if stack.len() > 0 {
        let top = stack.last();
        let below = stack.drop_last();
        if !unconfirmed.contains(top) {
            lemma_found_reachable(refs, below, unconfirmed, block);
            let i = choose|i: int|
                0 <= i < below.len() && reachable(refs, #[trigger] below[i], block);
            assert(stack[i] == below[i]);
        } else if block == top {
            assert(reaches(refs, top, block, 0));
            assert(stack[stack.len() - 1] == top);
            assert(reachable(refs, stack[stack.len() - 1], block));
        } else {
            let next = below + refs[top];
            let (more, left) = traverse(refs, next, unconfirmed.remove(top)).unwrap();
            let blocks = seq![top] + more;
            let k = choose|k: int| 0 <= k < blocks.len() && blocks[k] == block;
            assert(more[k - 1] == block);
            lemma_found_reachable(refs, next, unconfirmed.remove(top), block);
            let i = choose|i: int|
                0 <= i < next.len() && reachable(refs, #[trigger] next[i], block);
            if i < below.len() {
                assert(stack[i] == next[i]);
            } else {
                let from = next[i];
                assert(refs[top][i - below.len()] == from);
                let n = choose|n: nat| #[trigger] reaches(refs, from, block, n);
                assert(refs[top].contains(from));
                assert(reaches(refs, top, block, n + 1));
                assert(stack[stack.len() - 1] == top);
                assert(reachable(refs, stack[stack.len() - 1], block));
            }
        }
    }
}

/// A leader finds exactly the unconfirmed blocks that can be reached from it, if no confirmed
/// block refers to an unconfirmed one; and that holds of what it leaves.
proof fn lemma_leader_finds(
    refs: Map<H256, Seq<H256>>,
    all: Set<H256>,
    leader: H256,
    unconfirmed: Set<H256>,
)
    requires
        unconfirmed.finite(),
        known_refs(refs, all),
        shut(refs, all, unconfirmed),
        all.contains(leader),
        traverse(refs, seq![leader], unconfirmed) is Some,
    ensures
        ({
            let (found, rest) = traverse(refs, seq![leader], unconfirmed).unwrap();
            &&& forall|block: H256| #[trigger]
                found.contains(block) <==> unconfirmed.contains(block) && reachable(
                    refs,
                    leader,
                    block,
                )
            &&& shut(refs, all, rest)
        }),
{
    let stack = seq![leader];
    let (found, rest) = traverse(refs, stack, unconfirmed).unwrap();
    lemma_traverse(refs, stack, unconfirmed);
    lemma_traverse_closed(refs, stack, unconfirmed);
    assert forall|block: H256, i: int|
        all.contains(block) && !rest.contains(block) && 0 <= i < refs[block].len()
            implies !rest.contains(#[trigger] refs[block][i]) by {
        if unconfirmed.contains(block) {
            assert(found.to_set().contains(block));
            let k = choose|k: int| 0 <= k < found.len() && found[k] == block;
            assert(!rest.contains(refs[found[k]][i]));
        } else {
            assert(!unconfirmed.contains(refs[block][i]));
        }
    }
    assert(!rest.contains(stack[0]));
    assert forall|block: H256| #[trigger] found.contains(block) <==> unconfirmed.contains(block)
        && reachable(refs, leader, block) by {
        if found.contains(block) {
            assert(found.to_set().contains(block));
            lemma_found_reachable(refs, stack, unconfirmed, block);
            let i = choose|i: int|
                0 <= i < stack.len() && reachable(refs, #[trigger] stack[i], block);
            assert(stack[i] == leader);
        }
        if unconfirmed.contains(block) && reachable(refs, leader, block) {
            let n = choose|n: nat| #[trigger] reaches(refs, leader, block, n);
            lemma_reached_outside(refs, all, rest, leader, block, n);
            assert(found.to_set().contains(block));
        }
    }
}

/// Whether a block can be reached from the leader of a level, and from that of no level below it
/// down to `bottom`.
pub open spec fn first_reached(
    leader: Map<u64, H256>,
    refs: Map<H256, Seq<H256>>,
    bottom: u64,
    level: u64,
    block: H256,
) -> bool {
    &&& reachable(refs, leader[level], block)
    &&& forall|lower: u64|
        bottom <= lower < level ==> !reachable(refs, #[trigger] leader[lower], block)
}

/// Whether a block can be reached from the leader of one of the levels up to a tip.
pub open spec fn reached_up_to(
    leader: Map<u64, H256>,
    refs: Map<H256, Seq<H256>>,
    tip: u64,
    block: H256,
) -> bool {
    exists|level: u64| level <= tip && reachable(refs, #[trigger] leader[level], block)
}

proof fn lemma_rebuild_reaches(
    leader: Map<u64, H256>,
    refs: Map<H256, Seq<H256>>,
    all: Set<H256>,
    level: u64,
    unconfirmed: Set<H256>,
)
    requires
        unconfirmed.finite(),
        known_refs(refs, all),
        shut(refs, all, unconfirmed),
        forall|l: u64| #[trigger] leader.contains_key(l) ==> all.contains(leader[l]),
        rebuild(leader, refs, level, unconfirmed) is Some,
    ensures
        ({
            let rebuilt = rebuild(leader, refs, level, unconfirmed).unwrap();
            &&& forall|l: u64, block: H256|
                level <= l < level + rebuilt.orders.len() ==> (#[trigger] rebuilt.orders[l
                    - level].contains(block) <==> unconfirmed.contains(block) && first_reached(
                    leader,
                    refs,
                    level,
                    l,
                    block,
                ))
            &&& forall|block: H256| #[trigger]
                rebuilt.unconfirmed.contains(block) <==> unconfirmed.contains(block) && forall|
                    l: u64,
                |
                    level <= l < level + rebuilt.orders.len() ==> !reachable(
                        refs,
                        #[trigger] leader[l],
                        block,
                    )
        }),
    decreases u64::MAX - level,
{
    let rebuilt = rebuild(leader, refs, level, unconfirmed).unwrap();
    if leader.contains_key(level) {
        let first = leader[level];
        let above = (level + 1) as u64;
        let (found, rest) = traverse(refs, seq![first], unconfirmed).unwrap();
        lemma_traverse(refs, seq![first], unconfirmed);
        lemma_leader_finds(refs, all, first, unconfirmed);
        lemma_reverse_set(found);
        lemma_rebuild_reaches(leader, refs, all, above, rest);
        lemma_rebuild(leader, refs, above, rest);
        let next = rebuild(leader, refs, above, rest).unwrap();
        assert(rebuilt.orders == seq![found.reverse()] + next.orders);
        assert forall|block: H256| rest.contains(block) <==> unconfirmed.contains(block)
            && !#[trigger] reachable(refs, first, block) by {
            assert(found.to_set().contains(block) <==> found.contains(block));
        }
        assert forall|l: u64, block: H256|
            level <= l < level + rebuilt.orders.len() implies (#[trigger] rebuilt.orders[l
            - level].contains(block) <==> unconfirmed.contains(block) && first_reached(
            leader,
            refs,
            level,
            l,
            block,
        )) by {
            if l == level {
                assert(rebuilt.orders[0] == found.reverse());
                assert(found.reverse().to_set().contains(block) <==> found.to_set().contains(
                    block,
                ));
                assert(found.reverse().contains(block) <==> found.contains(block));
            } else {
                assert(rebuilt.orders[l - level] == next.orders[l - above]);
                assert(next.orders[l - above].contains(block) <==> rest.contains(block)
                    && first_reached(leader, refs, above, l, block));
                assert(rest.contains(block) <==> unconfirmed.contains(block) && !reachable(
                    refs,
                    first,
                    block,
                ));
                if first_reached(leader, refs, level, l, block) {
                    assert(!reachable(refs, leader[level], block));
                    assert(first_reached(leader, refs, above, l, block));
                }
                if first_reached(leader, refs, above, l, block) && !reachable(
                    refs,
                    first,
                    block,
                ) {
                    assert forall|lower: u64| level <= lower < l implies !reachable(
                        refs,
                        #[trigger] leader[lower],
                        block,
                    ) by {
                        if lower > level {
                            assert(above <= lower);
                        }
                    }
                    assert(first_reached(leader, refs, level, l, block));
                }
            }
        }
        assert forall|block: H256| #[trigger]
            rebuilt.unconfirmed.contains(block) <==> unconfirmed.contains(block) && forall|l: u64|
                level <= l < level + rebuilt.orders.len() ==> !reachable(
                    refs,
                    #[trigger] leader[l],
                    block,
                ) by {
            assert(rest.contains(block) <==> unconfirmed.contains(block) && !reachable(
                refs,
                first,
                block,
            ));
            assert(next.unconfirmed.contains(block) == rebuilt.unconfirmed.contains(block));
            if rebuilt.unconfirmed.contains(block) {
                assert forall|l: u64| level <= l < level + rebuilt.orders.len() implies !reachable(
                    refs,
                    #[trigger] leader[l],
                    block,
                ) by {
                    if l > level {
                        assert(above <= l < above + next.orders.len());
                    }
                }
            }
            if unconfirmed.contains(block) && forall|l: u64|
                level <= l < level + rebuilt.orders.len() ==> !reachable(
                    refs,
                    #[trigger] leader[l],
                    block,
                ) {
                assert(!reachable(refs, leader[level], block));
                assert forall|l: u64| above <= l < above + next.orders.len() implies !reachable(
                    refs,
                    #[trigger] leader[l],
                    block,
                ) by {}
            }
        }
    }
}

/// What the ledger holds: the blocks that can be reached from the leaders of its levels by
/// following references, each once. Each level has those that can be reached from its leader, and
/// from the leader of no lower level, and ends with its leader unless a lower level has that. A
/// known block is unconfirmed if and only if it can be reached from none of the leaders.
pub proof fn law_ledger_holds_what_leaders_reach(state: ChainState, t: Records)
    requires
        refs_known(t),
        ledger_fits(state, t),
    ensures
        ledger_between(t.order, 0, (state.proposer_ledger_tip + 1) as nat) is Some,
        ledger_of(state, t).no_duplicates(),
        forall|block: H256| #[trigger]
            ledger_of(state, t).contains(block) <==> reached_up_to(
                t.leader,
                t.proposer_refs,
                state.proposer_ledger_tip,
                block,
            ),
        forall|level: u64, block: H256|
            level <= state.proposer_ledger_tip ==> (#[trigger] t.order[level].contains(block)
                <==> first_reached(t.leader, t.proposer_refs, 0, level, block)),
        forall|level: u64|
            level <= state.proposer_ledger_tip && #[trigger] first_reached(
                t.leader,
                t.proposer_refs,
                0,
                level,
                t.leader[level],
            ) ==> t.order[level].len() > 0 && t.order[level].last() == t.leader[level],
        forall|block: H256| #[trigger]
            state.unconfirmed_proposers.contains(block) <==> t.proposer_level.contains_key(block)
                && forall|level: u64|
                level <= state.proposer_ledger_tip ==> !reachable(
                    t.proposer_refs,
                    #[trigger] t.leader[level],
                    block,
                ),
{
    let all = t.proposer_level.dom();
    let refs = t.proposer_refs;
    let tip = state.proposer_ledger_tip;
    assert forall|block: H256, i: int|
        all.contains(block) && 0 <= i < refs[block].len() implies all.contains(
        #[trigger] refs[block][i],
    ) by {
        assert(t.proposer_level.contains_key(block));
        assert(t.proposer_level.contains_key(t.proposer_refs[block][i]));
    }
    assert forall|l: u64| #[trigger] t.leader.contains_key(l) implies all.contains(
        t.leader[l],
    ) by {
        assert(t.proposer_level.contains_key(t.leader[l]));
    }
    lemma_rebuild(t.leader, refs, 0, all);
    lemma_rebuild_reaches(t.leader, refs, all, 0, all);
    let rebuilt = rebuild(t.leader, refs, 0, all).unwrap();
    let orders = rebuilt.orders;
    lemma_ledger_between(t.order, orders, 0, orders.len());
    assert(orders.subrange(0, orders.len() as int) =~= orders);
    assert forall|level: u64, block: H256| level <= tip implies (
    #[trigger] t.order[level].contains(block) <==> first_reached(
        t.leader,
        refs,
        0,
        level,
        block,
    )) by {
        assert(t.order[level] == orders[level as int]);
        assert(orders[level - 0].contains(block) <==> all.contains(block) && first_reached(
            t.leader,
            refs,
            0,
            level,
            block,
        ));
        assert(t.leader.contains_key(level));
        if first_reached(t.leader, refs, 0, level, block) {
            let n = choose|n: nat| #[trigger] reaches(refs, t.leader[level], block, n);
            lemma_reached_known(refs, all, t.leader[level], block, n);
        }
    }
    lemma_rebuild_closed(t.leader, refs, 0, all);
    assert forall|level: u64|
        level <= tip && #[trigger] first_reached(
            t.leader,
            refs,
            0,
            level,
            t.leader[level],
        ) implies t.order[level].len() > 0 && t.order[level].last() == t.leader[level] by {
        assert(t.order[level].contains(t.leader[level]));
        assert(t.order[level] == orders[level as int]);
        assert(confirms(rebuilt, level as int, t.leader[(0 + level) as u64]));
    }
    assert forall|block: H256| #[trigger]
        state.unconfirmed_proposers.contains(block) <==> t.proposer_level.contains_key(block)
            && forall|level: u64|
            level <= tip ==> !reachable(refs, #[trigger] t.leader[level], block) by {
        assert(rebuilt.unconfirmed.contains(block) <==> all.contains(block) && forall|l: u64|
            0 <= l < 0 + orders.len() ==> !reachable(refs, #[trigger] t.leader[l], block));
    }
    assert forall|block: H256| #[trigger] ledger_of(state, t).contains(block) <==> reached_up_to(
        t.leader,
        refs,
        tip,
        block,
    ) by {
        let ledger = ledger_of(state, t);
        assert(ledger == joined(orders));
        assert(ledger.to_set().contains(block) <==> ledger.contains(block));
        assert(state.unconfirmed_proposers.contains(block) <==> all.contains(block)
            && !ledger.contains(block));
        if reached_up_to(t.leader, refs, tip, block) {
            let level = choose|level: u64|
                level <= tip && reachable(refs, #[trigger] t.leader[level], block);
            let n = choose|n: nat| #[trigger] reaches(refs, t.leader[level], block, n);
            assert(t.leader.contains_key(level));
            lemma_reached_known(refs, all, t.leader[level], block, n);
        }
        if ledger.contains(block) {
            assert(all.contains(block));
            assert(!state.unconfirmed_proposers.contains(block));
        }
    }
}

/// An update that goes through leaves the leaders known, if the blocks of the levels are.
pub proof fn law_update_keeps_refs_known(state: ChainState, t: Records)
    requires
        update(state, t) is Some,
        refs_known(t),
        elected(t),
    ensures
        refs_known(after_batches(t, update(state, t).unwrap().batches)),
{
    crate::invariants::law_update_elects(state, t);
    lemma_update_parts(state, t);
    let after = after_batches(t, update(state, t).unwrap().batches);
    assert forall|level: u64| #[trigger] after.leader.contains_key(
        level,
    ) implies after.proposer_level.contains_key(after.leader[level]) by {
        assert(at(after.leader, level) == crate::consistency::leader_of(after, level));
        law_leader_has_most_votes(after.node_votes, after.tree[level]);
        let blocks = after.tree[level];
        let i = choose|i: int|
            crate::election::leads_at(after.node_votes, blocks, blocks.len(), i) && blocks[i]
                == after.leader[level];
        assert(at(after.proposer_level, after.tree[level][i]) == Some(level));
    }
    assert forall|block: H256, i: int|
        after.proposer_level.contains_key(block) && 0 <= i < after.proposer_refs[block].len()
            implies after.proposer_level.contains_key(#[trigger] after.proposer_refs[block][i]) by {
        assert(t.proposer_level.contains_key(t.proposer_refs[block][i]));
    }
}

} // verus!
