//! What the picture of the chain shows, in terms of the records.

use vstd::prelude::*;

use crate::block::H256;
use crate::chain::ChainState;
use crate::codec::{enc_chain, enc_hash};
use crate::dump::{
    digits, end_of, levels_of, picture, picture_with, proposers, ratio_text, shown, Proposer,
    ProposerStatus,
};
use crate::flat::{law_ledger_between_levels, law_transactions_are_those_of_every_block};
use crate::ledger::all_levels;
use crate::query_laws::law_entries_are_read_one_by_one;
use crate::store::{at, list_at, Records};

verus! {

/// Without the forks the picture does not depend on the entries of the column of chain numbers;
/// with them it shows the voter blocks that the entries list.
pub proof fn law_picture_is_of_the_entries(
    state: ChainState,
    t: Records,
    entries: Seq<(Vec<u8>, Vec<u8>)>,
    listed: Seq<(H256, u16)>,
    limit: u64,
)
    requires
        entries.len() == listed.len(),
        forall|i: int|
            0 <= i < entries.len() ==> (#[trigger] entries[i]).0@ == enc_hash(listed[i].0)
                && entries[i].1@ == enc_chain(listed[i].1),
    ensures
        picture_with(state, t, entries, limit, true) == picture(state, t, Some(listed), limit),
        forall|others: Seq<(Vec<u8>, Vec<u8>)>| #[trigger]
            picture_with(state, t, others, limit, false) == picture(state, t, None, limit),
{
    law_entries_are_read_one_by_one(entries, listed, entries.len());
    assert(listed.subrange(0, listed.len() as int) =~= listed);
}

pub(crate) proof fn lemma_end_of(tree: Map<u64, Seq<H256>>, level: nat)
    requires
        level <= all_levels(),
    ensures
        level <= end_of(tree, level) <= all_levels(),
        forall|l: u64| level <= l < end_of(tree, level) ==> #[trigger] tree.contains_key(l),
        end_of(tree, level) < all_levels() ==> !tree.contains_key(end_of(tree, level) as u64),
    decreases all_levels() - level,
{
    if level < all_levels() && tree.contains_key(level as u64) {
        lemma_end_of(tree, level + 1);
        assert forall|l: u64| level <= l < end_of(tree, level) implies #[trigger] tree.contains_key(
            l,
        ) by {
            if l > level {
                assert(level + 1 <= l);
            }
        }
    }
}

/// The picture begins at the level that is `limit` below the tip of the ledger, or at level 0 if
/// there are not so many. It has all blocks of the levels from there up to the first level without
/// one, the leaders of these levels, the best block of each voter chain, the transaction blocks
/// that no block refers to, and the part of the ledger from the first level on: its proposer
/// blocks, level by level, and all the transaction blocks that they refer to.
pub proof fn law_levels_shown(
    state: ChainState,
    t: Records,
    voters: Option<Seq<(H256, u16)>>,
    limit: u64,
    bottom: u64,
)
    requires
        picture(state, t, voters, limit) is Some,
        state.proposer_ledger_tip > limit ==> bottom + limit == state.proposer_ledger_tip,
        state.proposer_ledger_tip <= limit ==> bottom == 0,
    ensures
        ({
            let view = picture(state, t, voters, limit).unwrap();
            let count = view.proposer_levels.len();
            let tip = state.proposer_ledger_tip;
            &&& bottom + count <= u64::MAX
            &&& !t.tree.contains_key((bottom + count) as u64)
            &&& forall|i: int|
                0 <= i < count ==> t.tree.contains_key((bottom + i) as u64)
                    && #[trigger] view.proposer_levels[i] == t.tree[(bottom + i) as u64]
            &&& forall|level: u64| #[trigger]
                view.proposer_leaders.contains_key(level) <==> bottom <= level < bottom + count
                    && t.leader.contains_key(level)
            &&& forall|level: u64| #[trigger]
                view.proposer_leaders.contains_key(level) ==> view.proposer_leaders[level]
                    == t.leader[level]
            &&& view.voter_longest.len() == state.voter_best.len()
            &&& forall|i: int|
                0 <= i < state.voter_best.len() ==> #[trigger] view.voter_longest[i]
                    == state.voter_best[i].0
            &&& view.transaction_unreferred == state.unreferred_transactions
            &&& view.proposer_in_ledger == Seq::new(
                (tip + 1 - bottom) as nat,
                |i: int| t.order[(bottom + i) as u64],
            ).flatten()
            &&& view.transaction_in_ledger == view.proposer_in_ledger.map_values(
                |block: H256| t.transaction_refs[block],
            ).flatten()
        }),
{
    let tip = state.proposer_ledger_tip;
    let end = (tip + 1) as nat;
    let view = picture(state, t, voters, limit).unwrap();
    lemma_end_of(t.tree, bottom as nat);
    assert(levels_of(t.tree, bottom) == Some(view.proposer_levels));
    law_ledger_between_levels(t.order, bottom as nat, end);
    law_transactions_are_those_of_every_block(t.transaction_refs, view.proposer_in_ledger);
    assert(Seq::new((tip + 1 - bottom) as nat, |i: int| t.order[(bottom + i) as u64]) =~= Seq::new(
        (end - bottom) as nat,
        |i: int| t.order[(bottom + i) as u64],
    ));
}

/// The blocks that are shown are those of the levels, each with its level, in the order of the
/// levels.
proof fn lemma_shown(levels: Seq<Seq<H256>>, bottom: u64, n: nat)
    requires
        n <= levels.len(),
        bottom + n <= u64::MAX,
    ensures
        forall|i: int|
            0 <= i < shown(levels, bottom, n).len() ==> {
                let (block, level) = #[trigger] shown(levels, bottom, n)[i];
                bottom <= level < bottom + n && levels[level - bottom].contains(block)
            },
        forall|i: int, k: int|
            0 <= i <= k < shown(levels, bottom, n).len() ==> (#[trigger] shown(
                levels,
                bottom,
                n,
            )[i]).1 <= (#[trigger] shown(levels, bottom, n)[k]).1,
        forall|level: u64, block: H256|
            bottom <= level < bottom + n && #[trigger] levels[level - bottom].contains(block)
                ==> shown(levels, bottom, n).contains((block, level)),
    decreases n,
{
    if n > 0 {
        lemma_shown(levels, bottom, (n - 1) as nat);
        let before = shown(levels, bottom, (n - 1) as nat);
        let all = shown(levels, bottom, n);
        let last = (bottom + n - 1) as u64;
        let here = levels[n - 1];
        assert forall|i: int| 0 <= i < all.len() implies {
            let (block, level) = #[trigger] all[i];
            bottom <= level < bottom + n && levels[level - bottom].contains(block)
        } by {
            if i < before.len() {
                assert(all[i] == before[i]);
            } else {
                assert(all[i] == (here[i - before.len()], last));
                assert(here.contains(here[i - before.len()]));
            }
        }
        assert forall|i: int, k: int| 0 <= i <= k < all.len() implies (#[trigger] all[i]).1 <= (
        #[trigger] all[k]).1 by {
            if k < before.len() {
                assert(all[i] == before[i]);
                assert(all[k] == before[k]);
            } else {
                assert(all[k] == (here[k - before.len()], last));
            }
        }
        assert forall|level: u64, block: H256|
            bottom <= level < bottom + n && #[trigger] levels[level - bottom].contains(
                block,
            ) implies all.contains((block, level)) by {
            if level < last {
                let i = choose|i: int| 0 <= i < before.len() && before[i] == (block, level);
                assert(before.contains((block, level)));
                assert(all[i] == before[i]);
            } else {
                let j = choose|j: int| 0 <= j < here.len() && here[j] == block;
                assert(all[before.len() + j] == (block, level));
            }
        }
    }
}

/// Whether an index of a list is the last one at which it has a block.
pub open spec fn last_at(blocks: Seq<(H256, u64)>, index: int, block: H256) -> bool {
    &&& 0 <= index < blocks.len()
    &&& blocks[index].0 == block
    &&& forall|i: int| index < i < blocks.len() ==> (#[trigger] blocks[i]).0 != block
}

proof fn lemma_proposers(
    votes: Map<H256, Seq<(u16, u64)>>,
    blocks: Seq<(H256, u64)>,
    block: H256,
)
    ensures
        proposers(votes, blocks).contains_key(block) <==> exists|i: int|
            #[trigger] last_at(blocks, i, block),
        forall|i: int| #[trigger]
            last_at(blocks, i, block) ==> proposers(votes, blocks)[block] == (Proposer {
                level: blocks[i].1,
                status: ProposerStatus::Others,
                votes: list_at(votes, block).len() as u16,
            }),
    decreases blocks.len(),
{
    if blocks.len() > 0 {
        let some = blocks.drop_last();
        let n = some.len() as int;
        lemma_proposers(votes, some, block);
        assert(blocks[n] == blocks.last());
        if blocks.last().0 == block {
            assert(last_at(blocks, n, block));
        } else {
            assert forall|i: int| #[trigger] last_at(blocks, i, block) <==> last_at(
                some,
                i,
                block,
            ) by {
                if last_at(some, i, block) {
                    assert forall|k: int| i < k < blocks.len() implies (#[trigger] blocks[k]).0
                        != block by {
                        if k < n {
                            assert(some[k] == blocks[k]);
                        }
                    }
                }
                if last_at(blocks, i, block) {
                    assert forall|k: int| i < k < some.len() implies (#[trigger] some[k]).0
                        != block by {
                        assert(some[k] == blocks[k]);
                    }
                }
            }
            if proposers(votes, blocks).contains_key(block) {
                let i = choose|i: int| #[trigger] last_at(some, i, block);
                assert(last_at(blocks, i, block));
            }
            if exists|i: int| #[trigger] last_at(blocks, i, block) {
                let i = choose|i: int| #[trigger] last_at(blocks, i, block);
                assert(last_at(some, i, block));
            }
        }
    }
}

/// A block that a list has is at a last index of it.
proof fn lemma_last_at(blocks: Seq<(H256, u64)>, index: int)
    requires
        0 <= index < blocks.len(),
    ensures
        exists|i: int| i >= index && #[trigger] last_at(blocks, i, blocks[index].0),
    decreases blocks.len() - index,
{
    let block = blocks[index].0;
    if !last_at(blocks, index, block) {
        let i = choose|i: int| index < i < blocks.len() && (#[trigger] blocks[i]).0 == block;
        lemma_last_at(blocks, i);
        let k = choose|k: int| k >= i && #[trigger] last_at(blocks, k, blocks[i].0);
        assert(last_at(blocks, k, block));
    }
}

/// Whether a level that is shown has a block.
pub open spec fn on_shown_level(
    t: Records,
    bottom: u64,
    count: nat,
    level: u64,
    block: H256,
) -> bool {
    bottom <= level < bottom + count && t.tree[level].contains(block)
}

/// The proposer blocks that are shown are those of the levels that are shown. Each has the highest
/// of these levels that has it, is shown to lead if and only if it is the leader of one of them,
/// and has the number of the votes for it.
pub proof fn law_proposers_shown(
    state: ChainState,
    t: Records,
    voters: Option<Seq<(H256, u16)>>,
    limit: u64,
    bottom: u64,
)
    requires
        picture(state, t, voters, limit) is Some,
        state.proposer_ledger_tip > limit ==> bottom + limit == state.proposer_ledger_tip,
        state.proposer_ledger_tip <= limit ==> bottom == 0,
    ensures
        ({
            let view = picture(state, t, voters, limit).unwrap();
            let count = view.proposer_levels.len();
            let nodes = view.proposer_nodes;
            &&& forall|block: H256| #[trigger]
                nodes.contains_key(block) <==> exists|level: u64| #[trigger]
                    on_shown_level(t, bottom, count, level, block)
            &&& forall|block: H256| #[trigger]
                nodes.contains_key(block) ==> {
                    &&& bottom <= nodes[block].level < bottom + count
                    &&& t.tree[nodes[block].level].contains(block)
                    &&& forall|level: u64|
                        nodes[block].level < level < bottom + count ==> !(
                        #[trigger] t.tree[level]).contains(block)
                    &&& nodes[block].votes == (if t.node_votes.contains_key(block) {
                        t.node_votes[block].len() as u16
                    } else {
                        0
                    })
                    &&& nodes[block].status is Leader <==> exists|level: u64|
                        bottom <= level < bottom + count && #[trigger] t.leader.contains_key(level)
                            && t.leader[level] == block
                }
        }),
{
    let view = picture(state, t, voters, limit).unwrap();
    let levels = view.proposer_levels;
    let count = levels.len();
    let nodes = view.proposer_nodes;
    let blocks = shown(levels, bottom, count);
    law_levels_shown(state, t, voters, limit, bottom);
    lemma_shown(levels, bottom, count);
    assert forall|level: u64| bottom <= level < bottom + count implies levels[level - bottom]
        == #[trigger] t.tree[level] by {
        assert(levels[level - bottom] == t.tree[(bottom + (level - bottom)) as u64]);
    }
    let plain = proposers(t.node_votes, blocks);
    assert forall|block: H256| #[trigger] nodes.contains_key(block) <==> exists|level: u64|
        #[trigger] on_shown_level(t, bottom, count, level, block) by {
        lemma_proposers(t.node_votes, blocks, block);
        if nodes.contains_key(block) {
            let i = choose|i: int| #[trigger] last_at(blocks, i, block);
            let (b, level) = blocks[i];
            assert(t.tree[level] == levels[level - bottom]);
            assert(on_shown_level(t, bottom, count, level, block));
        }
        if exists|level: u64| #[trigger] on_shown_level(t, bottom, count, level, block) {
            let level = choose|level: u64| #[trigger]
                on_shown_level(t, bottom, count, level, block);
            assert(levels[level - bottom].contains(block));
            let i = choose|i: int| 0 <= i < blocks.len() && blocks[i] == (block, level);
            lemma_last_at(blocks, i);
        }
    }
    assert forall|block: H256| #[trigger] nodes.contains_key(block) implies {
        &&& bottom <= nodes[block].level < bottom + count
        &&& t.tree[nodes[block].level].contains(block)
        &&& forall|level: u64|
            nodes[block].level < level < bottom + count ==> !(#[trigger] t.tree[level]).contains(
                block,
            )
        &&& nodes[block].votes == (if t.node_votes.contains_key(block) {
            t.node_votes[block].len() as u16
        } else {
            0
        })
        &&& nodes[block].status is Leader <==> exists|level: u64|
            bottom <= level < bottom + count && #[trigger] t.leader.contains_key(level)
                && t.leader[level] == block
    } by {
        lemma_proposers(t.node_votes, blocks, block);
        let i = choose|i: int| #[trigger] last_at(blocks, i, block);
        let (b, l) = blocks[i];
        assert(plain[block].level == l);
        assert(nodes[block].level == l);
        assert(t.tree[l] == levels[l - bottom]);
        assert forall|level: u64| l < level < bottom + count implies !(
        #[trigger] t.tree[level]).contains(block) by {
            if t.tree[level].contains(block) {
                assert(levels[level - bottom].contains(block));
                assert(blocks.contains((block, level)));
                let k = choose|k: int| 0 <= k < blocks.len() && blocks[k] == (block, level);
                if k <= i {
                    assert(blocks[k].1 <= blocks[i].1);
                }
            }
        }
        assert(plain[block].status is Others);
    }
}

/// Where every block is listed on its own level, a proposer block is shown if and only if its level
/// is, and it is shown with its level.
pub proof fn law_proposers_are_shown_on_their_levels(
    state: ChainState,
    t: Records,
    voters: Option<Seq<(H256, u16)>>,
    limit: u64,
    bottom: u64,
)
    requires
        picture(state, t, voters, limit) is Some,
        state.proposer_ledger_tip > limit ==> bottom + limit == state.proposer_ledger_tip,
        state.proposer_ledger_tip <= limit ==> bottom == 0,
        forall|level: u64, i: int|
            t.tree.contains_key(level) && 0 <= i < t.tree[level].len() ==> at(
                t.proposer_level,
                #[trigger] t.tree[level][i],
            ) == Some(level),
        forall|block: H256| #[trigger]
            t.proposer_level.contains_key(block) ==> t.tree.contains_key(t.proposer_level[block])
                && t.tree[t.proposer_level[block]].contains(block),
    ensures
        ({
            let view = picture(state, t, voters, limit).unwrap();
            let nodes = view.proposer_nodes;
            &&& forall|block: H256| #[trigger]
                nodes.contains_key(block) <==> t.proposer_level.contains_key(block) && bottom
                    <= t.proposer_level[block] < bottom + view.proposer_levels.len()
            &&& forall|block: H256| #[trigger]
                nodes.contains_key(block) ==> nodes[block].level == t.proposer_level[block]
        }),
{
    let view = picture(state, t, voters, limit).unwrap();
    let count = view.proposer_levels.len();
    let nodes = view.proposer_nodes;
    law_levels_shown(state, t, voters, limit, bottom);
    law_proposers_shown(state, t, voters, limit, bottom);
    assert forall|block: H256| #[trigger] nodes.contains_key(block) implies at(
        t.proposer_level,
        block,
    ) == Some(nodes[block].level) by {
        let level = nodes[block].level;
        assert(view.proposer_levels[level - bottom] == t.tree[level]);
        let i = choose|i: int| 0 <= i < t.tree[level].len() && t.tree[level][i] == block;
        assert(at(t.proposer_level, t.tree[level][i]) == Some(level));
    }
    assert forall|block: H256|
        t.proposer_level.contains_key(block) && bottom <= t.proposer_level[block] < bottom
            + count implies #[trigger] nodes.contains_key(block) by {
        assert(on_shown_level(t, bottom, count, t.proposer_level[block], block));
    }
}

/// The digits of a number are decimal digits, and read from the left they give the number. Only
/// zero begins with the digit zero.
pub proof fn law_digits(n: nat)
    ensures
        digits(n).len() > 0,
        forall|i: int| 0 <= i < digits(n).len() ==> '0' <= #[trigger] digits(n)[i] <= '9',
        digits(n)[0] == '0' ==> n == 0,
        n == 0 ==> digits(n).len() == 1,
        digits(n).fold_left(0int, |value: int, digit: char| 10 * value + (digit as int - 48)) == n,
    decreases n,
{
    let step = |value: int, digit: char| 10 * value + (digit as int - 48);
    let text = digits(n);
    let last = ((n % 10) + 48) as char;
    assert(last as int == n % 10 + 48);
    assert(text.last() == last);
    if n < 10 {
        assert(text.drop_last() =~= Seq::empty());
        reveal_with_fuel(Seq::fold_left, 2);
        assert(text.fold_left(0int, step) == n);
    } else {
        law_digits(n / 10);
        assert(text.drop_last() =~= digits(n / 10));
        assert(text.fold_left(0int, step) == step(
            text.drop_last().fold_left(0int, step),
            text.last(),
        ));
        assert forall|i: int| 0 <= i < text.len() implies '0' <= #[trigger] text[i] <= '9' by {
            if i < digits(n / 10).len() {
                assert(text[i] == digits(n / 10)[i]);
            }
        }
        assert(text[0] == digits(n / 10)[0]);
    }
}

/// Two numbers are shown with a stroke between them, in brackets, with a space behind.
pub proof fn law_ratio_text(first: nat, second: nat)
    ensures
        ratio_text(first, second) == seq!['('] + digits(first) + seq!['/'] + digits(second) + seq![
            ')',
            ' ',
        ],
{
}

} // verus!
