//! Ordering the blocks of the ledger: what the traversals from the leaders confirm.

use vstd::prelude::*;

use crate::block::H256;
use crate::ledger::{joined, ledger_between, levels_after, rebuild, traverse, Rebuilt};
use crate::store::at;

verus! {

/// A traversal finds blocks that are unconfirmed, each once, and takes exactly these out.
pub proof fn lemma_traverse(
    refs: Map<H256, Seq<H256>>,
    stack: Seq<H256>,
    unconfirmed: Set<H256>,
)
    requires
        unconfirmed.finite(),
        traverse(refs, stack, unconfirmed) is Some,
    ensures
        ({
            let (blocks, rest) = traverse(refs, stack, unconfirmed).unwrap();
            &&& blocks.no_duplicates()
            &&& blocks.to_set().subset_of(unconfirmed)
            &&& rest == unconfirmed.difference(blocks.to_set())
            &&& rest.finite()
        }),
    decreases unconfirmed.len(), stack.len(),
{
    let (blocks, rest) = traverse(refs, stack, unconfirmed).unwrap();
    if stack.len() == 0 {
        assert(rest =~= unconfirmed.difference(blocks.to_set()));
    } else {
        let top = stack.last();
        if !unconfirmed.contains(top) {
            lemma_traverse(refs, stack.drop_last(), unconfirmed);
        } else {
            lemma_traverse(refs, stack.drop_last() + refs[top], unconfirmed.remove(top));
            let (more, left) = traverse(
                refs,
                stack.drop_last() + refs[top],
                unconfirmed.remove(top),
            ).unwrap();
            assert(blocks =~= seq![top] + more);
            assert(!more.contains(top)) by {
                if more.contains(top) {
                    assert(more.to_set().contains(top));
                }
            }
            assert forall|i: int, j: int| 0 <= i < j < blocks.len() implies blocks[i]
                != blocks[j] by {
                assert(blocks[j] == more[j - 1]);
                if i == 0 {
                    assert(more.contains(more[j - 1]));
                } else {
                    assert(blocks[i] == more[i - 1]);
                }
            }
            assert forall|block: H256|
                blocks.to_set().contains(block) <==> block == top || more.to_set().contains(
                    block,
                ) by {
                if blocks.contains(block) {
                    let i = choose|i: int| 0 <= i < blocks.len() && blocks[i] == block;
                    if i > 0 {
                        assert(more[i - 1] == block);
                    }
                }
                if more.contains(block) {
                    let i = choose|i: int| 0 <= i < more.len() && more[i] == block;
                    assert(blocks[i + 1] == block);
                }
                assert(blocks[0] == top);
            }
            assert(rest =~= unconfirmed.difference(blocks.to_set()));
        }
    }
}

/// A traversal comes to an end if what every unconfirmed block refers to is known.
proof fn lemma_traverse_ends(
    refs: Map<H256, Seq<H256>>,
    stack: Seq<H256>,
    unconfirmed: Set<H256>,
)
    requires
        unconfirmed.finite(),
        unconfirmed.subset_of(refs.dom()),
    ensures
        traverse(refs, stack, unconfirmed) is Some,
    decreases unconfirmed.len(), stack.len(),
{
    if stack.len() > 0 {
        let top = stack.last();
        if !unconfirmed.contains(top) {
            lemma_traverse_ends(refs, stack.drop_last(), unconfirmed);
        } else {
            assert(refs.dom().contains(top));
            lemma_traverse_ends(refs, stack.drop_last() + refs[top], unconfirmed.remove(top));
        }
    }
}

/// What a leader reaches is empty, or starts with the leader.
proof fn lemma_leader_found_first(
    refs: Map<H256, Seq<H256>>,
    leader: H256,
    unconfirmed: Set<H256>,
)
    requires
        unconfirmed.finite(),
        traverse(refs, seq![leader], unconfirmed) is Some,
    ensures
        ({
            let (blocks, rest) = traverse(refs, seq![leader], unconfirmed).unwrap();
            if unconfirmed.contains(leader) {
                blocks.len() > 0 && blocks[0] == leader
            } else {
                blocks.len() == 0
            }
        }),
{
    let stack = seq![leader];
    assert(stack.last() == leader);
    assert(stack.drop_last() =~= Seq::empty());
    if unconfirmed.contains(leader) {
        let (more, left) = traverse(
            refs,
            stack.drop_last() + refs[leader],
            unconfirmed.remove(leader),
        ).unwrap();
        assert((seq![leader] + more)[0] == leader);
    } else {
        assert(traverse(refs, stack.drop_last(), unconfirmed).unwrap().0.len() == 0);
    }
}

/// A traversal leaves nothing unconfirmed that is on the stack, or that a block that it finds
/// refers to.
pub(crate) proof fn lemma_traverse_closed(
    refs: Map<H256, Seq<H256>>,
    stack: Seq<H256>,
    unconfirmed: Set<H256>,
)
    requires
        unconfirmed.finite(),
        traverse(refs, stack, unconfirmed) is Some,
    ensures
        ({
            let (blocks, rest) = traverse(refs, stack, unconfirmed).unwrap();
            &&& forall|i: int| 0 <= i < stack.len() ==> !rest.contains(#[trigger] stack[i])
            &&& forall|i: int, j: int|
                0 <= i < blocks.len() && 0 <= j < refs[blocks[i]].len() ==> !rest.contains(
                    #[trigger] refs[blocks[i]][j],
                )
        }),
    decreases unconfirmed.len(), stack.len(),
{
    let (blocks, rest) = traverse(refs, stack, unconfirmed).unwrap();
    lemma_traverse(refs, stack, unconfirmed);
    if stack.len() > 0 {
        let top = stack.last();
        let below = stack.drop_last();
        if !unconfirmed.contains(top) {
            lemma_traverse_closed(refs, below, unconfirmed);
            assert forall|i: int| 0 <= i < stack.len() implies !rest.contains(
                #[trigger] stack[i],
            ) by {
                if i < below.len() {
                    assert(below[i] == stack[i]);
                }
            }
        } else {
            let next = below + refs[top];
            lemma_traverse_closed(refs, next, unconfirmed.remove(top));
            let (more, left) = traverse(refs, next, unconfirmed.remove(top)).unwrap();
            assert(blocks =~= seq![top] + more);
            assert forall|i: int| 0 <= i < stack.len() implies !rest.contains(
                #[trigger] stack[i],
            ) by {
                if i < below.len() {
                    assert(next[i] == stack[i]);
                } else {
                    assert(blocks[0] == top);
                    assert(blocks.to_set().contains(top));
                }
            }
            assert forall|i: int, j: int|
                0 <= i < blocks.len() && 0 <= j < refs[blocks[i]].len() implies !rest.contains(
                #[trigger] refs[blocks[i]][j],
            ) by {
                if i == 0 {
                    assert(next[below.len() + j] == refs[top][j]);
                } else {
                    assert(more[i - 1] == blocks[i]);
                    assert(!left.contains(refs[more[i - 1]][j]));
                }
            }
        }
    }
}

pub(crate) proof fn lemma_reverse_set(list: Seq<H256>)
    ensures
        list.reverse().to_set() == list.to_set(),
        list.no_duplicates() ==> list.reverse().no_duplicates(),
{
    let reverse = list.reverse();
    assert forall|block: H256| reverse.to_set().contains(block) <==> list.to_set().contains(
        block,
    ) by {
        if list.contains(block) {
            let i = choose|i: int| 0 <= i < list.len() && list[i] == block;
            assert(reverse[list.len() - 1 - i] == block);
        }
        if reverse.contains(block) {
            let i = choose|i: int| 0 <= i < reverse.len() && reverse[i] == block;
            assert(list[list.len() - 1 - i] == block);
        }
    }
    assert(reverse.to_set() =~= list.to_set());
}

/// The blocks of one level and of those after it.
pub proof fn lemma_joined_first(first: Seq<H256>, rest: Seq<Seq<H256>>)
    ensures
        joined(seq![first] + rest) == first + joined(rest),
    decreases rest.len(),
{
    let all = seq![first] + rest;
    if rest.len() == 0 {
        assert(all.drop_last() =~= Seq::empty());
        assert(joined(all.drop_last()) =~= Seq::empty());
        assert(all.last() == first);
        assert(joined(all) =~= first + joined(rest));
    } else {
        assert(all.drop_last() =~= seq![first] + rest.drop_last());
        assert(all.last() == rest.last());
        lemma_joined_first(first, rest.drop_last());
        assert(joined(all) =~= first + joined(rest));
    }
}

/// The blocks of some levels and of those after them.
pub proof fn lemma_joined_concat(first: Seq<Seq<H256>>, second: Seq<Seq<H256>>)
    ensures
        joined(first + second) == joined(first) + joined(second),
    decreases second.len(),
{
    let all = first + second;
    if second.len() == 0 {
        assert(all =~= first);
        assert(joined(first) + joined(second) =~= joined(first));
    } else {
        assert(all.drop_last() =~= first + second.drop_last());
        assert(all.last() == second.last());
        lemma_joined_concat(first, second.drop_last());
        assert(joined(all) =~= joined(first) + joined(second));
    }
}

pub(crate) proof fn lemma_concat_set(first: Seq<H256>, second: Seq<H256>)
    ensures
        (first + second).to_set() == first.to_set().union(second.to_set()),
{
    let all = first + second;
    assert forall|block: H256|
        all.to_set().contains(block) <==> first.to_set().union(second.to_set()).contains(block) by {
        if all.contains(block) {
            let i = choose|i: int| 0 <= i < all.len() && all[i] == block;
            if i < first.len() {
                assert(first[i] == block);
            } else {
                assert(second[i - first.len()] == block);
            }
        }
        if first.contains(block) {
            let i = choose|i: int| 0 <= i < first.len() && first[i] == block;
            assert(all[i] == block);
        }
        if second.contains(block) {
            let i = choose|i: int| 0 <= i < second.len() && second[i] == block;
            assert(all[first.len() + i] == block);
        }
    }
    assert(all.to_set() =~= first.to_set().union(second.to_set()));
}

/// The ledger from a level on holds blocks that were unconfirmed, each once, and leaves the
/// others unconfirmed; it ends below the first level without a leader.
pub proof fn lemma_rebuild(
    leader: Map<u64, H256>,
    refs: Map<H256, Seq<H256>>,
    level: u64,
    unconfirmed: Set<H256>,
)
    requires
        unconfirmed.finite(),
        rebuild(leader, refs, level, unconfirmed) is Some,
    ensures
        ({
            let rebuilt = rebuild(leader, refs, level, unconfirmed).unwrap();
            let blocks = joined(rebuilt.orders);
            &&& blocks.no_duplicates()
            &&& blocks.to_set().subset_of(unconfirmed)
            &&& rebuilt.unconfirmed == unconfirmed.difference(blocks.to_set())
            &&& rebuilt.unconfirmed.finite()
            &&& rebuilt.tip + 1 == level + rebuilt.orders.len()
            &&& forall|l: u64|
                level <= l <= rebuilt.tip ==> #[trigger] leader.contains_key(l)
            &&& !leader.contains_key((rebuilt.tip + 1) as u64)
            &&& rebuilt.tip < u64::MAX
        }),
    decreases u64::MAX - level,
{
    let rebuilt = rebuild(leader, refs, level, unconfirmed).unwrap();
    let blocks = joined(rebuilt.orders);
    match at(leader, level) {
        None => {
            assert(blocks =~= Seq::empty());
            assert(rebuilt.unconfirmed =~= unconfirmed.difference(blocks.to_set()));
        },
        Some(block) => {
            let (found, rest) = traverse(refs, seq![block], unconfirmed).unwrap();
            lemma_traverse(refs, seq![block], unconfirmed);
            lemma_reverse_set(found);
            lemma_rebuild(leader, refs, (level + 1) as u64, rest);
            let next = rebuild(leader, refs, (level + 1) as u64, rest).unwrap();
            let more = joined(next.orders);
            lemma_joined_first(found.reverse(), next.orders);
            lemma_concat_set(found.reverse(), more);
            assert(blocks == found.reverse() + more);
            assert forall|i: int, j: int| 0 <= i < j < blocks.len() implies blocks[i]
                != blocks[j] by {
                let first = found.reverse();
                if j < first.len() {
                    assert(first[i] != first[j]);
                } else if i >= first.len() {
                    assert(more[i - first.len()] != more[j - first.len()]);
                } else {
                    assert(first.contains(first[i]));
                    assert(first.to_set().contains(first[i]));
                    assert(more.contains(more[j - first.len()]));
                    assert(more.to_set().contains(more[j - first.len()]));
                }
            }
            assert(rebuilt.unconfirmed =~= unconfirmed.difference(blocks.to_set()));
        },
    }
}

/// The ledger can be had from a level on if what every unconfirmed block refers to is known, and
/// the leaders end.
pub proof fn lemma_rebuild_ends(
    leader: Map<u64, H256>,
    refs: Map<H256, Seq<H256>>,
    level: u64,
    unconfirmed: Set<H256>,
    top: u64,
)
    requires
        unconfirmed.finite(),
        unconfirmed.subset_of(refs.dom()),
        top < u64::MAX,
        forall|l: u64| #[trigger] leader.contains_key(l) ==> l <= top,
        level > 0 || leader.contains_key(0),
    ensures
        rebuild(leader, refs, level, unconfirmed) is Some,
    decreases u64::MAX - level,
{
    if leader.contains_key(level) {
        let block = leader[level];
        lemma_traverse_ends(refs, seq![block], unconfirmed);
        lemma_traverse(refs, seq![block], unconfirmed);
        let (found, rest) = traverse(refs, seq![block], unconfirmed).unwrap();
        lemma_rebuild_ends(leader, refs, (level + 1) as u64, rest, top);
    }
}

/// The ledger up to a level does not depend on the leaders from that level on.
pub proof fn lemma_rebuild_split(
    old_leader: Map<u64, H256>,
    leader: Map<u64, H256>,
    refs: Map<H256, Seq<H256>>,
    level: u64,
    unconfirmed: Set<H256>,
    begin: u64,
)
    requires
        unconfirmed.finite(),
        rebuild(old_leader, refs, level, unconfirmed) is Some,
        level <= begin,
        begin <= level + rebuild(old_leader, refs, level, unconfirmed).unwrap().orders.len(),
        forall|l: u64| level <= l < begin ==> #[trigger] at(leader, l) == at(old_leader, l),
    ensures
        ({
            let rebuilt = rebuild(old_leader, refs, level, unconfirmed).unwrap();
            let kept = rebuilt.orders.subrange(0, begin - level);
            let dropped = rebuilt.orders.subrange(begin - level, rebuilt.orders.len() as int);
            rebuild(leader, refs, level, unconfirmed) == levels_after(
                kept,
                rebuild(
                    leader,
                    refs,
                    begin,
                    rebuilt.unconfirmed.union(joined(dropped).to_set()),
                ),
            )
        }),
    decreases begin - level,
{
    let rebuilt = rebuild(old_leader, refs, level, unconfirmed).unwrap();
    let kept = rebuilt.orders.subrange(0, begin - level);
    let dropped = rebuilt.orders.subrange(begin - level, rebuilt.orders.len() as int);
    if level == begin {
        assert(dropped =~= rebuilt.orders);
        lemma_rebuild(old_leader, refs, level, unconfirmed);
        assert(rebuilt.unconfirmed.union(joined(dropped).to_set()) =~= unconfirmed);
        let rest = rebuild(leader, refs, begin, unconfirmed);
        if rest is Some {
            assert(kept + rest.unwrap().orders =~= rest.unwrap().orders);
        }
    } else {
        assert(at(leader, level) == at(old_leader, level));
        let block = old_leader[level];
        assert(old_leader.contains_key(level)) by {
            if !old_leader.contains_key(level) {
                assert(rebuilt.orders.len() == 0);
            }
        }
        lemma_traverse(refs, seq![block], unconfirmed);
        let (found, rest) = traverse(refs, seq![block], unconfirmed).unwrap();
        let next = rebuild(old_leader, refs, (level + 1) as u64, rest).unwrap();
        lemma_rebuild_split(old_leader, leader, refs, (level + 1) as u64, rest, begin);
        assert(rebuilt.orders == seq![found.reverse()] + next.orders);
        assert(next.orders.subrange(begin - (level + 1), next.orders.len() as int) =~= dropped);
        let more = next.orders.subrange(0, begin - (level + 1));
        assert(kept =~= seq![found.reverse()] + more);
        let tail = rebuild(
            leader,
            refs,
            begin,
            rebuilt.unconfirmed.union(joined(dropped).to_set()),
        );
        if tail is Some {
            assert(seq![found.reverse()] + (more + tail.unwrap().orders) =~= kept
                + tail.unwrap().orders);
        }
    }
}

/// Whether the `k`th level of a rebuilt ledger leaves its leader confirmed, and the blocks of the
/// level end with the leader, unless there are none.
pub open spec fn confirms(rebuilt: Rebuilt, k: int, leader: H256) -> bool {
    &&& !rebuilt.unconfirmed.contains(leader)
    &&& rebuilt.orders[k].len() > 0 ==> rebuilt.orders[k].last() == leader
}

/// The ledger leaves nothing unconfirmed that a block in it refers to, nor a leader. The blocks of
/// a level end with its leader, unless the leader is confirmed already.
pub proof fn lemma_rebuild_closed(
    leader: Map<u64, H256>,
    refs: Map<H256, Seq<H256>>,
    level: u64,
    unconfirmed: Set<H256>,
)
    requires
        unconfirmed.finite(),
        rebuild(leader, refs, level, unconfirmed) is Some,
    ensures
        ({
            let rebuilt = rebuild(leader, refs, level, unconfirmed).unwrap();
            let blocks = joined(rebuilt.orders);
            &&& forall|i: int, j: int|
                0 <= i < blocks.len() && 0 <= j < refs[blocks[i]].len()
                    ==> !rebuilt.unconfirmed.contains(#[trigger] refs[blocks[i]][j])
            &&& forall|k: int|
                0 <= k < rebuilt.orders.len() ==> #[trigger] confirms(
                    rebuilt,
                    k,
                    leader[(level + k) as u64],
                )
        }),
    decreases u64::MAX - level,
{
    let rebuilt = rebuild(leader, refs, level, unconfirmed).unwrap();
    let blocks = joined(rebuilt.orders);
    if leader.contains_key(level) {
        let block = leader[level];
        lemma_traverse(refs, seq![block], unconfirmed);
        lemma_traverse_closed(refs, seq![block], unconfirmed);
        lemma_leader_found_first(refs, block, unconfirmed);
        let (found, rest) = traverse(refs, seq![block], unconfirmed).unwrap();
        let first = found.reverse();
        lemma_rebuild(leader, refs, (level + 1) as u64, rest);
        lemma_rebuild_closed(leader, refs, (level + 1) as u64, rest);
        let next = rebuild(leader, refs, (level + 1) as u64, rest).unwrap();
        let more = joined(next.orders);
        lemma_joined_first(first, next.orders);
        assert(!rest.contains(seq![block][0]));
        assert forall|i: int, j: int|
            0 <= i < blocks.len() && 0 <= j < refs[blocks[i]].len()
                implies !rebuilt.unconfirmed.contains(#[trigger] refs[blocks[i]][j]) by {
            if i < first.len() {
                let k = found.len() - 1 - i;
                assert(found[k] == blocks[i]);
                assert(!rest.contains(refs[found[k]][j]));
            } else {
                assert(more[i - first.len()] == blocks[i]);
                assert(!next.unconfirmed.contains(refs[more[i - first.len()]][j]));
            }
        }
        assert forall|k: int| 0 <= k < rebuilt.orders.len() implies #[trigger] confirms(
            rebuilt,
            k,
            leader[(level + k) as u64],
        ) by {
            if k > 0 {
                assert(rebuilt.orders[k] == next.orders[k - 1]);
                assert(confirms(next, k - 1, leader[(level + 1 + (k - 1)) as u64]));
            } else {
                assert(rebuilt.orders[0] == first);
            }
        }
    }
}

/// A level that confirms nothing has a leader that a lower level confirms.
pub proof fn lemma_leader_confirmed_below(
    leader: Map<u64, H256>,
    refs: Map<H256, Seq<H256>>,
    unconfirmed: Set<H256>,
    level: u64,
)
    requires
        unconfirmed.finite(),
        rebuild(leader, refs, 0, unconfirmed) is Some,
        level < rebuild(leader, refs, 0, unconfirmed).unwrap().orders.len(),
        rebuild(leader, refs, 0, unconfirmed).unwrap().orders[level as int].len() == 0,
        unconfirmed.contains(leader[level]),
    ensures
        joined(
            rebuild(leader, refs, 0, unconfirmed).unwrap().orders.subrange(0, level as int),
        ).contains(leader[level]),
{
    let rebuilt = rebuild(leader, refs, 0, unconfirmed).unwrap();
    let orders = rebuilt.orders;
    let kept = orders.subrange(0, level as int);
    let dropped = orders.subrange(level as int, orders.len() as int);
    let left = rebuilt.unconfirmed.union(joined(dropped).to_set());
    let block = leader[level];
    lemma_rebuild(leader, refs, 0, unconfirmed);
    lemma_rebuild_split(leader, leader, refs, 0, unconfirmed, level);
    let tail = rebuild(leader, refs, level, left).unwrap();
    assert(kept + dropped =~= orders);
    assert(tail.orders[0] == (kept + tail.orders)[level as int]);
    assert(leader.contains_key(level));
    let (found, rest) = traverse(refs, seq![block], left).unwrap();
    vstd::seq_lib::seq_to_set_is_finite(joined(dropped));
    lemma_leader_found_first(refs, block, left);
    assert(tail.orders[0] == found.reverse());
    assert(found.len() == 0);
    lemma_joined_concat(kept, dropped);
    let all = joined(orders);
    assert(all.to_set().contains(block));
    let i = choose|i: int| 0 <= i < all.len() && all[i] == block;
    if i >= joined(kept).len() {
        let j = i - joined(kept).len();
        assert(joined(dropped)[j] == block);
        assert(joined(dropped).to_set().contains(block));
    } else {
        assert(joined(kept)[i] == block);
    }
}

/// The blocks of the ledger between two levels, and those after them.
pub(crate) proof fn lemma_between_splits(order: Map<u64, Seq<H256>>, a: nat, b: nat, c: nat)
    requires
        a <= b <= c,
        ledger_between(order, a, c) is Some,
    ensures
        ledger_between(order, a, b) is Some,
        ledger_between(order, b, c) is Some,
        ledger_between(order, a, c).unwrap() == ledger_between(order, a, b).unwrap()
            + ledger_between(order, b, c).unwrap(),
    decreases c,
{
    if b < c {
        lemma_between_splits(order, a, b, (c - 1) as nat);
        let first = ledger_between(order, a, b).unwrap();
        let second = ledger_between(order, b, (c - 1) as nat).unwrap();
        let last = order[(c - 1) as u64];
        assert((first + second) + last =~= first + (second + last));
    } else {
        let all = ledger_between(order, a, c).unwrap();
        assert(all + Seq::<H256>::empty() =~= all);
    }
}

} // verus!
