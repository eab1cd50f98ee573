//! Lists that are put together from others, level by level or block by block.

use vstd::prelude::*;

use crate::block::H256;
use crate::chain::ChainState;
use crate::dump::bottom_level;
use crate::ledger::{all_levels, joined, ledger_between, transactions_of};
use crate::queries::{ledger_with_transactions, with_transactions};
use crate::store::Records;

verus! {

/// What flattening makes of the last list.
pub(crate) proof fn lemma_flatten_last<A>(lists: Seq<Seq<A>>)
    requires
        lists.len() > 0,
    ensures
        lists.flatten() == lists.drop_last().flatten() + lists.last(),
{
    lists.drop_last().lemma_flatten_push(lists.last());
    assert(lists =~= lists.drop_last().push(lists.last()));
}

/// The transaction blocks of proposer blocks are the lists that these refer to, one after the
/// other and each of them whole. They can be had if and only if every block has a list.
pub proof fn law_transactions_are_those_of_every_block(
    refs: Map<H256, Seq<H256>>,
    blocks: Seq<H256>,
)
    ensures
        transactions_of(refs, blocks, blocks.len()) is Some <==> forall|i: int|
            0 <= i < blocks.len() ==> refs.contains_key(#[trigger] blocks[i]),
        transactions_of(refs, blocks, blocks.len()) matches Some(list) ==> list
            == blocks.map_values(|block: H256| refs[block]).flatten(),
{
    lemma_transactions_flat(refs, blocks, blocks.len());
    assert(blocks.subrange(0, blocks.len() as int) =~= blocks);
}

proof fn lemma_transactions_flat(refs: Map<H256, Seq<H256>>, blocks: Seq<H256>, n: nat)
    requires
        n <= blocks.len(),
    ensures
        transactions_of(refs, blocks, n) is Some <==> forall|i: int|
            0 <= i < n ==> refs.contains_key(#[trigger] blocks[i]),
        transactions_of(refs, blocks, n) matches Some(list) ==> list == blocks.subrange(
            0,
            n as int,
        ).map_values(|block: H256| refs[block]).flatten(),
    decreases n,
{
    let lists = blocks.subrange(0, n as int).map_values(|block: H256| refs[block]);
    if n > 0 {
        lemma_transactions_flat(refs, blocks, (n - 1) as nat);
        lemma_flatten_last(lists);
        assert(lists.drop_last() =~= blocks.subrange(0, n - 1).map_values(
            |block: H256| refs[block],
        ));
        if refs.contains_key(blocks[n - 1]) && transactions_of(refs, blocks, (n - 1) as nat)
            is Some {
            assert forall|i: int| 0 <= i < n implies refs.contains_key(#[trigger] blocks[i]) by {}
        }
    }
}

/// Levels put one after the other.
pub proof fn law_joined_levels(orders: Seq<Seq<H256>>)
    ensures
        joined(orders) == orders.flatten(),
    decreases orders.len(),
{
    if orders.len() > 0 {
        law_joined_levels(orders.drop_last());
        lemma_flatten_last(orders);
    }
}

/// The blocks of the ledger between two levels are the lists of these levels, one after the other
/// and each of them whole. They can be had if and only if every level has a list.
pub proof fn law_ledger_between_levels(order: Map<u64, Seq<H256>>, begin: nat, end: nat)
    requires
        begin <= end <= all_levels(),
    ensures
        ledger_between(order, begin, end) is Some <==> forall|level: u64|
            begin <= level < end ==> #[trigger] order.contains_key(level),
        ledger_between(order, begin, end) matches Some(blocks) ==> blocks == Seq::new(
            (end - begin) as nat,
            |i: int| order[(begin + i) as u64],
        ).flatten(),
    decreases end,
{
    let lists = Seq::new((end - begin) as nat, |i: int| order[(begin + i) as u64]);
    if begin < end {
        let last = (end - 1) as u64;
        law_ledger_between_levels(order, begin, (end - 1) as nat);
        lemma_flatten_last(lists);
        assert(lists.drop_last() =~= Seq::new(
            (end - 1 - begin) as nat,
            |i: int| order[(begin + i) as u64],
        ));
        if ledger_between(order, begin, end) is Some {
            assert forall|level: u64| begin <= level < end implies #[trigger] order.contains_key(
                level,
            ) by {
                if level < last {
                    assert(begin <= level < end - 1);
                }
            }
        }
        if forall|level: u64| begin <= level < end ==> #[trigger] order.contains_key(level) {
            assert(order.contains_key(last));
            assert forall|level: u64|
                begin <= level < end - 1 implies #[trigger] order.contains_key(level) by {}
        }
    }
}

/// The query for the ledger gives the blocks of the levels from `limit` below the tip up to the
/// tip, level by level, and with each block all the transaction blocks that it refers to. It has
/// an answer if and only if all of these are recorded.
pub proof fn law_ledger_query(state: ChainState, t: Records, limit: u64, bottom: nat)
    requires
        state.proposer_ledger_tip > limit ==> bottom + limit == state.proposer_ledger_tip,
        state.proposer_ledger_tip <= limit ==> bottom == 0,
    ensures
        ({
            let tip = state.proposer_ledger_tip;
            let blocks = Seq::new(
                (tip + 1 - bottom) as nat,
                |i: int| t.order[(bottom + i) as u64],
            ).flatten();
            let answer = ledger_with_transactions(state, t, limit);
            &&& answer is Some <==> (forall|level: u64|
                bottom <= level <= tip ==> #[trigger] t.order.contains_key(level)) && (forall|
                i: int,
            |
                0 <= i < blocks.len() ==> t.transaction_refs.contains_key(#[trigger] blocks[i]))
            &&& answer matches Some(pairs) ==> {
                &&& pairs.len() == blocks.len()
                &&& forall|i: int|
                    0 <= i < pairs.len() ==> (#[trigger] pairs[i]).0 == blocks[i] && pairs[i].1
                        == t.transaction_refs[blocks[i]]
            }
        }),
{
    let tip = state.proposer_ledger_tip;
    let end = (tip + 1) as nat;
    let blocks = Seq::new(
        (tip + 1 - bottom) as nat,
        |i: int| t.order[(bottom + i) as u64],
    ).flatten();
    law_ledger_between_levels(t.order, bottom, end);
    assert(Seq::new((tip + 1 - bottom) as nat, |i: int| t.order[(bottom + i) as u64]) =~= Seq::new(
        (end - bottom) as nat,
        |i: int| t.order[(bottom + i) as u64],
    ));
    let answer = ledger_with_transactions(state, t, limit);
    let found = ledger_between(t.order, bottom, end);
    assert(bottom_level(tip, limit) == bottom);
    if found is Some {
        assert(found == Some(blocks));
        assert(answer == with_transactions(t.transaction_refs, blocks));
    }
    assert(found is Some <==> forall|level: u64|
        bottom <= level <= tip ==> #[trigger] t.order.contains_key(level));
}

} // verus!
