//! The order in which a level of the ledger has its blocks.

use vstd::prelude::*;

use crate::block::H256;
use crate::chain::ChainState;
use crate::consistency::ledger_fits;
use crate::ledger::{rebuild, traverse};
use crate::ordering::{lemma_reverse_set, lemma_traverse};
use crate::store::Records;

verus! {

/// A traversal of nothing finds nothing.
pub proof fn law_nothing_to_traverse(refs: Map<H256, Seq<H256>>, unconfirmed: Set<H256>)
    requires
        unconfirmed.finite(),
    ensures
        traverse(refs, Seq::empty(), unconfirmed) == Some((Seq::<H256>::empty(), unconfirmed)),
{
}

/// From a block that is unconfirmed, a traversal finds this block first, and then what it finds
/// from the blocks that it refers to; from any other block it finds nothing.
pub proof fn law_block_comes_before_its_references(
    refs: Map<H256, Seq<H256>>,
    block: H256,
    unconfirmed: Set<H256>,
)
    requires
        unconfirmed.finite(),
    ensures
        !unconfirmed.contains(block) ==> traverse(refs, seq![block], unconfirmed) == Some(
            (Seq::<H256>::empty(), unconfirmed),
        ),
        unconfirmed.contains(block) && !refs.contains_key(block) ==> traverse(
            refs,
            seq![block],
            unconfirmed,
        ) is None,
        unconfirmed.contains(block) && refs.contains_key(block) ==> match traverse(
            refs,
            refs[block],
            unconfirmed.remove(block),
        ) {
            Some((found, rest)) => traverse(refs, seq![block], unconfirmed) == Some(
                (seq![block] + found, rest),
            ),
            None => traverse(refs, seq![block], unconfirmed) is None,
        },
{
    let stack = seq![block];
    assert(stack.last() == block);
    assert(stack.drop_last() =~= Seq::empty());
    law_nothing_to_traverse(refs, unconfirmed);
    if refs.contains_key(block) {
        assert(stack.drop_last() + refs[block] =~= refs[block]);
    }
}

/// Everything that a traversal finds from the last blocks comes before what it finds from those
/// before them, among the blocks that are then still unconfirmed.
pub proof fn law_last_block_is_traversed_first(
    refs: Map<H256, Seq<H256>>,
    first: Seq<H256>,
    last: Seq<H256>,
    unconfirmed: Set<H256>,
)
    requires
        unconfirmed.finite(),
    ensures
        match traverse(refs, last, unconfirmed) {
            Some((found, rest)) => match traverse(refs, first, rest) {
                Some((more, left)) => traverse(refs, first + last, unconfirmed) == Some(
                    (found + more, left),
                ),
                None => traverse(refs, first + last, unconfirmed) is None,
            },
            None => traverse(refs, first + last, unconfirmed) is None,
        },
    decreases unconfirmed.len(), last.len(),
{
    let stack = first + last;
    if last.len() == 0 {
        assert(stack =~= first);
        if let Some((more, left)) = traverse(refs, first, unconfirmed) {
            assert(Seq::<H256>::empty() + more =~= more);
        }
    } else {
        let top = last.last();
        assert(stack.last() == top);
        assert(stack.drop_last() =~= first + last.drop_last());
        if !unconfirmed.contains(top) {
            law_last_block_is_traversed_first(refs, first, last.drop_last(), unconfirmed);
        } else if refs.contains_key(top) {
            let next = last.drop_last() + refs[top];
            assert(stack.drop_last() + refs[top] =~= first + next);
            law_last_block_is_traversed_first(refs, first, next, unconfirmed.remove(top));
            if let Some((found, rest)) = traverse(refs, next, unconfirmed.remove(top)) {
                if let Some((more, left)) = traverse(refs, first, rest) {
                    assert(seq![top] + (found + more) =~= (seq![top] + found) + more);
                }
            }
        }
    }
}

/// The blocks of the first levels.
proof fn lemma_levels_rebuilt(
    leader: Map<u64, H256>,
    refs: Map<H256, Seq<H256>>,
    level: u64,
    unconfirmed: Set<H256>,
    k: nat,
)
    requires
        unconfirmed.finite(),
        rebuild(leader, refs, level, unconfirmed) matches Some(rebuilt) && k < rebuilt.orders.len(),
    ensures
        ({
            let orders = rebuild(leader, refs, level, unconfirmed).unwrap().orders;
            let below = orders.subrange(0, k as int).flatten();
            &&& level + k <= u64::MAX
            &&& leader.contains_key((level + k) as u64)
            &&& traverse(
                refs,
                seq![leader[(level + k) as u64]],
                unconfirmed.difference(below.to_set()),
            ) matches Some((found, _)) && orders[k as int] == found.reverse()
        }),
    decreases k,
{
    let orders = rebuild(leader, refs, level, unconfirmed).unwrap().orders;
    assert(leader.contains_key(level));
    let block = leader[level];
    let (found, rest) = traverse(refs, seq![block], unconfirmed).unwrap();
    lemma_traverse(refs, seq![block], unconfirmed);
    if k == 0 {
        let none = orders.subrange(0, 0).flatten();
        assert(orders.subrange(0, 0) =~= Seq::empty());
        assert(none =~= Seq::empty());
        assert(unconfirmed.difference(none.to_set()) =~= unconfirmed);
    } else {
        let next = rebuild(leader, refs, (level + 1) as u64, rest).unwrap().orders;
        assert(orders =~= seq![found.reverse()] + next);
        lemma_levels_rebuilt(leader, refs, (level + 1) as u64, rest, (k - 1) as nat);
        let more = next.subrange(0, k - 1);
        let first = seq![found.reverse()];
        assert(orders.subrange(0, k as int) =~= first + more);
        vstd::seq_lib::lemma_flatten_concat(first, more);
        first.lemma_flatten_one_element();
        let below = orders.subrange(0, k as int).flatten();
        assert(below == found.reverse() + more.flatten());
        lemma_reverse_set(found);
        crate::ordering::lemma_concat_set(found.reverse(), more.flatten());
        assert(unconfirmed.difference(below.to_set()) =~= rest.difference(more.flatten().to_set()));
        assert(next[k - 1] == orders[k as int]);
    }
}

/// The blocks of a level of the ledger, in order: those that a traversal from the leader finds
/// among the known blocks that no lower level has, the last one first.
pub proof fn law_order_of_level(state: ChainState, t: Records, level: u64)
    requires
        t.proposer_level.dom().finite(),
        ledger_fits(state, t),
        level <= state.proposer_ledger_tip,
    ensures
        ({
            let below = Seq::new(level as nat, |i: int| t.order[i as u64]).flatten();
            &&& t.leader.contains_key(level)
            &&& traverse(
                t.proposer_refs,
                seq![t.leader[level]],
                t.proposer_level.dom().difference(below.to_set()),
            ) matches Some((found, _)) && t.order[level] == found.reverse()
        }),
{
    let rebuilt = rebuild(t.leader, t.proposer_refs, 0, t.proposer_level.dom()).unwrap();
    crate::ordering::lemma_rebuild(t.leader, t.proposer_refs, 0, t.proposer_level.dom());
    lemma_levels_rebuilt(t.leader, t.proposer_refs, 0, t.proposer_level.dom(), level as nat);
    assert(t.order[level] == rebuilt.orders[level as int]);
    assert forall|i: int| 0 <= i < level implies #[trigger] rebuilt.orders[i]
        == t.order[i as u64] by {
        assert(t.order[i as u64] == rebuilt.orders[i as u64 as int]);
    }
    assert(Seq::new(level as nat, |i: int| t.order[i as u64]) =~= rebuilt.orders.subrange(
        0,
        level as int,
    ));
}

} // verus!
