//! What holds of the picture of the chain.

use vstd::prelude::*;

use crate::block::H256;
use crate::chain::ChainState;
use crate::consistency::{level_fits, proposer_fits, proposers_fit};
use crate::dump::{
    chain_text, count_of, levels_of, link_edge, main_chain, main_chains, picture, ratio_text, total,
    vote_edges, with_chain, with_fork, with_forks, Edge, EdgeType, Graph, Picture,
};
use crate::flat::lemma_flatten_last;
use crate::picture_laws::lemma_end_of;
use crate::query_laws::lemma_levels_end;
use crate::store::{at, Records};

verus! {

/// A graph in which every block is on a main chain.
spec fn on_main_chains(graph: Graph) -> bool {
    forall|block: H256| #[trigger]
        graph.nodes.contains_key(block) ==> graph.nodes[block].status is OnMainChain
}

proof fn lemma_chain_on_main(
    t: Records,
    votes: Seq<(H256, (u16, u64))>,
    graph: Graph,
    chain: u16,
    blocks: Seq<(H256, u64)>,
)
    requires
        on_main_chains(graph),
    ensures
        on_main_chains(with_chain(t, votes, graph, chain, blocks)),
    decreases blocks.len(),
{
    if blocks.len() > 0 {
        lemma_chain_on_main(t, votes, graph, chain, blocks.drop_last());
    }
}

proof fn lemma_main_chains_on_main(
    state: ChainState,
    t: Records,
    votes: Seq<(H256, (u16, u64))>,
    n: nat,
)
    requires
        main_chains(state, t, votes, n) is Some,
    ensures
        on_main_chains(main_chains(state, t, votes, n).unwrap()),
    decreases n,
{
    if n > 0 {
        lemma_main_chains_on_main(state, t, votes, (n - 1) as nat);
        let chain = (n - 1) as u16;
        let (block, level) = state.voter_best[n - 1];
        let blocks = main_chain(
            t,
            block,
            level,
            crate::dump::lowest(votes, chain, level),
        ).unwrap();
        let before = main_chains(state, t, votes, (n - 1) as nat).unwrap();
        lemma_chain_on_main(t, votes, before, chain, blocks);
    }
}

/// Whether a graph has more than another one: the blocks of the other one stay as they are, and
/// the blocks and edges that come in addition are orphans, and edges from them.
spec fn adds_orphans(graph: Graph, more: Graph) -> bool {
    &&& forall|block: H256| #[trigger]
        graph.nodes.contains_key(block) ==> more.nodes.contains_key(block) && more.nodes[block]
            == graph.nodes[block]
    &&& forall|block: H256| #[trigger]
        more.nodes.contains_key(block) && !graph.nodes.contains_key(block)
            ==> more.nodes[block].status is Orphan
    &&& forall|edge: Edge| #[trigger] graph.edges.contains(edge) ==> more.edges.contains(edge)
    &&& forall|edge: Edge| #[trigger]
        more.edges.contains(edge) ==> graph.edges.contains(edge) || (more.nodes.contains_key(
            edge.from,
        ) && !graph.nodes.contains_key(edge.from))
}

proof fn lemma_contains_concat(a: Seq<Edge>, b: Seq<Edge>, edge: Edge)
    ensures
        (a + b).contains(edge) <==> a.contains(edge) || b.contains(edge),
{
    let both = a + b;
    if both.contains(edge) {
        let i = choose|i: int| 0 <= i < both.len() && both[i] == edge;
        if i < a.len() {
            assert(a[i] == edge);
        } else {
            assert(b[i - a.len()] == edge);
        }
    }
    if a.contains(edge) {
        let i = choose|i: int| 0 <= i < a.len() && a[i] == edge;
        assert(both[i] == edge);
    }
    if b.contains(edge) {
        let i = choose|i: int| 0 <= i < b.len() && b[i] == edge;
        assert(both[a.len() + i] == edge);
    }
}

proof fn lemma_fork_adds_orphan(
    state: ChainState,
    t: Records,
    votes: Seq<(H256, (u16, u64))>,
    graph: Graph,
    before: Graph,
    block: H256,
    chain: u16,
)
    requires
        adds_orphans(graph, before),
        with_fork(state, t, votes, before, block, chain) is Some,
    ensures
        adds_orphans(graph, with_fork(state, t, votes, before, block, chain).unwrap()),
{
    let more = with_fork(state, t, votes, before, block, chain).unwrap();
    if more != before {
        let votes_cast = vote_edges(block, t.votes[block]);
        let link = link_edge(t.voter_parent, block, EdgeType::VoterToVoterParent);
        assert(!graph.nodes.contains_key(block));
        assert forall|edge: Edge| #[trigger] more.edges.contains(edge) <==> before.edges.contains(
            edge,
        ) || votes_cast.contains(edge) || link.contains(edge) by {
            lemma_contains_concat(before.edges, votes_cast, edge);
            lemma_contains_concat(before.edges + votes_cast, link, edge);
        }
        assert forall|edge: Edge| #[trigger] more.edges.contains(edge) implies graph.edges.contains(
            edge,
        ) || (more.nodes.contains_key(edge.from) && !graph.nodes.contains_key(edge.from)) by {
            if votes_cast.contains(edge) {
                let i = choose|i: int| 0 <= i < votes_cast.len() && votes_cast[i] == edge;
                assert(votes_cast[i].from == block);
            } else if link.contains(edge) {
                assert(edge.from == block);
            } else {
                assert(before.edges.contains(edge));
            }
        }
        assert forall|edge: Edge| #[trigger] graph.edges.contains(edge) implies more.edges.contains(
            edge,
        ) by {
            assert(before.edges.contains(edge));
        }
        assert forall|b: H256| #[trigger]
            more.nodes.contains_key(b) && !graph.nodes.contains_key(b)
                implies more.nodes[b].status is Orphan by {
            if b != block {
                assert(before.nodes.contains_key(b));
            }
        }
        assert forall|b: H256| #[trigger] graph.nodes.contains_key(
            b,
        ) implies more.nodes.contains_key(b) && more.nodes[b] == graph.nodes[b] by {
            assert(before.nodes.contains_key(b));
        }
    }
}

proof fn lemma_forks_add_orphans(
    state: ChainState,
    t: Records,
    votes: Seq<(H256, (u16, u64))>,
    graph: Graph,
    voters: Seq<(H256, u16)>,
    n: nat,
)
    requires
        with_forks(state, t, votes, graph, voters, n) is Some,
    ensures
        adds_orphans(graph, with_forks(state, t, votes, graph, voters, n).unwrap()),
    decreases n,
{
    if n > 0 {
        lemma_forks_add_orphans(state, t, votes, graph, voters, (n - 1) as nat);
        let before = with_forks(state, t, votes, graph, voters, (n - 1) as nat).unwrap();
        lemma_fork_adds_orphan(
            state,
            t,
            votes,
            graph,
            before,
            voters[n - 1].0,
            voters[n - 1].1,
        );
    }
}

proof fn lemma_filtered(list: Seq<Edge>, keep: spec_fn(Edge) -> bool, edge: Edge)
    ensures
        list.filter(keep).contains(edge) <==> list.contains(edge) && keep(edge),
{
    if list.filter(keep).contains(edge) {
        list.lemma_filter_contains_rev(keep, edge);
        let kept = list.filter(keep);
        let i = choose|i: int| 0 <= i < kept.len() && kept[i] == edge;
        list.lemma_filter_pred(keep, i);
    }
    if list.contains(edge) && keep(edge) {
        let i = choose|i: int| 0 <= i < list.len() && list[i] == edge;
        list.lemma_filter_contains(keep, i);
    }
}

/// Whether a voter block is shown as an orphan.
pub open spec fn orphan(shown: Picture, block: H256) -> bool {
    shown.voter_nodes.contains_key(block) && shown.voter_nodes[block].status is Orphan
}

/// The picture with the forks of the voter chains, and the one without them, which can be had
/// too. Without the forks every voter block is on a main chain, and no blocks are counted. With
/// them there are orphans, and edges from or to them, in addition; everything else is the same.
pub proof fn law_forks_are_shown_in_addition(
    state: ChainState,
    t: Records,
    voters: Seq<(H256, u16)>,
    limit: u64,
)
    requires
        picture(state, t, Some(voters), limit) is Some,
    ensures
        picture(state, t, None, limit) is Some,
        ({
            let with = picture(state, t, Some(voters), limit).unwrap();
            let without = picture(state, t, None, limit).unwrap();
            &&& with == (Picture {
                edges: with.edges,
                voter_nodes: with.voter_nodes,
                voter_chain_number: with.voter_chain_number,
                ..without
            })
            &&& without.voter_chain_number == Seq::new(
                state.voter_best.len(),
                |i: int| Seq::<char>::empty(),
            )
            &&& with.voter_chain_number == Seq::new(
                state.voter_best.len(),
                |i: int| chain_text(state.voter_best[i].1, count_of(voters, i as u16)),
            )
            &&& forall|block: H256| #[trigger]
                without.voter_nodes.contains_key(block) ==> without.voter_nodes[block].status
                    is OnMainChain
            &&& forall|block: H256| #[trigger]
                without.voter_nodes.contains_key(block) <==> with.voter_nodes.contains_key(block)
                    && !orphan(with, block)
            &&& forall|block: H256| #[trigger]
                without.voter_nodes.contains_key(block) ==> with.voter_nodes[block]
                    == without.voter_nodes[block]
            &&& forall|edge: Edge| #[trigger]
                without.edges.contains(edge) ==> with.edges.contains(edge)
            &&& forall|edge: Edge| #[trigger]
                with.edges.contains(edge) ==> without.edges.contains(edge) || orphan(
                    with,
                    edge.from,
                ) || orphan(with, edge.to)
        }),
{
    let tip = state.proposer_ledger_tip;
    let bottom = crate::dump::bottom_level(tip, limit);
    let levels = levels_of(t.tree, bottom).unwrap();
    let blocks = crate::dump::shown(levels, bottom, levels.len());
    let votes = crate::dump::votes_for(t.node_votes, blocks);
    let n = state.voter_best.len();
    let graph = main_chains(state, t, votes, n).unwrap();
    let more = with_forks(state, t, votes, graph, voters, voters.len()).unwrap();
    lemma_main_chains_on_main(state, t, votes, n);
    lemma_forks_add_orphans(state, t, votes, graph, voters, voters.len());
    let with = picture(state, t, Some(voters), limit).unwrap();
    let without = picture(state, t, None, limit).unwrap();
    assert(without.voter_chain_number =~= Seq::new(n, |i: int| Seq::<char>::empty()));
    assert(with.voter_nodes == more.nodes);
    assert(without.voter_nodes == graph.nodes);
    let nodes = with.proposer_nodes;
    let parents = crate::dump::parent_edges(t.parent, blocks);
    let keep = |edge: Edge| crate::dump::visible(nodes, graph.nodes, edge);
    let keep_more = |edge: Edge| crate::dump::visible(nodes, more.nodes, edge);
    assert(without.edges == (parents + graph.edges).filter(keep));
    assert(with.edges == (parents + more.edges).filter(keep_more));
    assert forall|edge: Edge| #[trigger] without.edges.contains(edge) implies with.edges.contains(
        edge,
    ) by {
        lemma_filtered(parents + graph.edges, keep, edge);
        lemma_filtered(parents + more.edges, keep_more, edge);
        lemma_contains_concat(parents, graph.edges, edge);
        lemma_contains_concat(parents, more.edges, edge);
    }
    assert forall|edge: Edge| #[trigger]
        with.edges.contains(edge) implies without.edges.contains(edge) || orphan(with, edge.from)
        || orphan(with, edge.to) by {
        lemma_filtered(parents + graph.edges, keep, edge);
        lemma_filtered(parents + more.edges, keep_more, edge);
        lemma_contains_concat(parents, graph.edges, edge);
        lemma_contains_concat(parents, more.edges, edge);
    }
}

/// The number of levels and of blocks of the proposer tree that is shown does not depend on the
/// limit, nor on whether the forks are shown.
pub proof fn law_tree_number_is_of_the_whole_tree(
    state: ChainState,
    t: Records,
    voters: Option<Seq<(H256, u16)>>,
    limit: u64,
    others: Option<Seq<(H256, u16)>>,
    other: u64,
)
    requires
        picture(state, t, voters, limit) is Some,
        picture(state, t, others, other) is Some,
    ensures
        picture(state, t, voters, limit).unwrap().proposer_tree_number == picture(
            state,
            t,
            others,
            other,
        ).unwrap().proposer_tree_number,
{
}

/// The known proposer blocks below a level.
spec fn blocks_below(t: Records, level: nat) -> Set<H256> {
    t.proposer_level.dom().filter(|block: H256| t.proposer_level[block] < level)
}

proof fn lemma_total(state: ChainState, t: Records, tree: Seq<Seq<H256>>, n: nat)
    requires
        proposers_fit(state, t),
        n <= tree.len() <= state.proposer_best.1 + 1,
        forall|i: int| 0 <= i < tree.len() ==> #[trigger] tree[i] == t.tree[i as u64],
    ensures
        blocks_below(t, n).finite(),
        total(tree, n) == blocks_below(t, n).len(),
    decreases n,
{
    if n == 0 {
        assert(blocks_below(t, 0) =~= Set::empty());
    } else {
        let k = (n - 1) as nat;
        let level = k as u64;
        lemma_total(state, t, tree, k);
        let list = tree[k as int];
        assert(list == t.tree[level]);
        assert(t.tree.contains_key(level));
        assert(level_fits(t, level));
        list.unique_seq_to_set();
        vstd::seq_lib::seq_to_set_is_finite(list);
        let below = blocks_below(t, k);
        assert forall|block: H256|
            blocks_below(t, n).contains(block) <==> (below + list.to_set()).contains(block) by {
            if t.proposer_level.contains_key(block) && t.proposer_level[block] == level {
                assert(proposer_fits(t, block));
                assert(list.contains(block));
            }
            if list.contains(block) {
                let i = choose|i: int| 0 <= i < list.len() && list[i] == block;
                assert(at(t.proposer_level, t.tree[level][i]) == Some(level));
            }
        }
        assert(blocks_below(t, n) =~= below + list.to_set());
        assert(below.disjoint(list.to_set())) by {
            assert forall|block: H256| below.contains(block) implies !list.to_set().contains(
                block,
            ) by {
                if list.contains(block) {
                    let i = choose|i: int| 0 <= i < list.len() && list[i] == block;
                    assert(at(t.proposer_level, t.tree[level][i]) == Some(level));
                }
            }
        }
        vstd::set_lib::lemma_set_disjoint_lens(below, list.to_set());
    }
}

/// The number of the proposer tree that is shown: one more than the level of the best block, which
/// is the number of levels, and the number of known proposer blocks.
pub proof fn law_tree_number(
    state: ChainState,
    t: Records,
    voters: Option<Seq<(H256, u16)>>,
    limit: u64,
)
    requires
        proposers_fit(state, t),
        picture(state, t, voters, limit) is Some,
    ensures
        picture(state, t, voters, limit).unwrap().proposer_tree_number == ratio_text(
            (state.proposer_best.1 + 1) as nat,
            t.proposer_level.dom().len(),
        ),
{
    let top = state.proposer_best.1;
    lemma_levels_end(t.tree, 0, top);
    let tree = levels_of(t.tree, 0).unwrap();
    assert(tree.len() == top + 1);
    lemma_total(state, t, tree, tree.len());
    assert forall|block: H256| #[trigger] t.proposer_level.contains_key(
        block,
    ) implies t.proposer_level[block] <= top by {
        assert(proposer_fits(t, block));
        assert(t.tree.contains_key(t.proposer_level[block]));
    }
    assert(blocks_below(t, tree.len()) =~= t.proposer_level.dom());
}

/// The known blocks of a voter chain.
pub open spec fn blocks_of_chain(t: Records, chain: u16) -> Set<H256> {
    t.voter_chain.dom().filter(|block: H256| t.voter_chain[block] == chain)
}

/// Whether a list has every voter block once, with its chain, and nothing else.
pub open spec fn lists_every_voter(t: Records, voters: Seq<(H256, u16)>) -> bool {
    &&& forall|i: int|
        0 <= i < voters.len() ==> at(t.voter_chain, (#[trigger] voters[i]).0) == Some(voters[i].1)
    &&& forall|block: H256| #[trigger]
        t.voter_chain.contains_key(block) ==> voters.contains((block, t.voter_chain[block]))
    &&& voters.no_duplicates()
}

/// The blocks of a chain in a list.
spec fn listed(voters: Seq<(H256, u16)>, chain: u16) -> Set<H256> {
    Set::new(|block: H256| voters.contains((block, chain)))
}

proof fn lemma_count_of(voters: Seq<(H256, u16)>, chain: u16)
    requires
        voters.no_duplicates(),
    ensures
        listed(voters, chain).finite(),
        count_of(voters, chain) == listed(voters, chain).len(),
    decreases voters.len(),
{
    if voters.len() == 0 {
        assert(listed(voters, chain) =~= Set::empty());
    } else {
        let some = voters.drop_last();
        let last = voters.last();
        assert forall|i: int, j: int| 0 <= i < j < some.len() implies some[i] != some[j] by {
            assert(voters[i] != voters[j]);
        }
        lemma_count_of(some, chain);
        assert forall|entry: (H256, u16)|
            voters.contains(entry) <==> some.contains(entry) || entry == last by {
            if voters.contains(entry) {
                let i = choose|i: int| 0 <= i < voters.len() && voters[i] == entry;
                if i < some.len() {
                    assert(some[i] == entry);
                }
            }
            if some.contains(entry) {
                let i = choose|i: int| 0 <= i < some.len() && some[i] == entry;
                assert(voters[i] == entry);
            }
            assert(voters[voters.len() - 1] == last);
        }
        if last.1 == chain {
            assert(listed(voters, chain) =~= listed(some, chain).insert(last.0));
            if some.contains(last) {
                let i = choose|i: int| 0 <= i < some.len() && some[i] == last;
                assert(voters[i] != voters[voters.len() - 1]);
            }
            assert(!listed(some, chain).contains(last.0));
        } else {
            assert(listed(voters, chain) =~= listed(some, chain));
        }
    }
}

/// The number of a voter chain that is shown with the forks, where every voter block is listed: one
/// more than the level of its best block, and the number of its known blocks.
pub proof fn law_chain_number(
    state: ChainState,
    t: Records,
    voters: Seq<(H256, u16)>,
    limit: u64,
    chain: u16,
)
    requires
        picture(state, t, Some(voters), limit) is Some,
        lists_every_voter(t, voters),
        chain < state.voter_best.len(),
        blocks_of_chain(t, chain).len() > 0,
    ensures
        picture(state, t, Some(voters), limit).unwrap().voter_chain_number[chain as int]
            == ratio_text(
            (state.voter_best[chain as int].1 + 1) as nat,
            blocks_of_chain(t, chain).len(),
        ),
{
    lemma_count_of(voters, chain);
    assert forall|block: H256| listed(voters, chain).contains(block) <==> blocks_of_chain(
        t,
        chain,
    ).contains(block) by {
        if voters.contains((block, chain)) {
            let i = choose|i: int| 0 <= i < voters.len() && voters[i] == (block, chain);
            assert(at(t.voter_chain, voters[i].0) == Some(voters[i].1));
        }
    }
    assert(listed(voters, chain) =~= blocks_of_chain(t, chain));
}

proof fn lemma_count_is_filter(voters: Seq<(H256, u16)>, chain: u16)
    ensures
        count_of(voters, chain) == voters.filter(|entry: (H256, u16)| entry.1 == chain).len(),
    decreases voters.len(),
{
    reveal(Seq::filter);
    if voters.len() > 0 {
        lemma_count_is_filter(voters.drop_last(), chain);
    }
}

/// The number of a voter chain that is shown with the forks, whatever voter blocks are listed: one
/// more than the level of the best block, and the number of entries of the chain; nothing where it
/// has no entry.
pub proof fn law_chain_number_counts_entries(
    state: ChainState,
    t: Records,
    voters: Seq<(H256, u16)>,
    limit: u64,
    chain: u16,
)
    requires
        picture(state, t, Some(voters), limit) is Some,
        chain < state.voter_best.len(),
    ensures
        ({
            let texts = picture(state, t, Some(voters), limit).unwrap().voter_chain_number;
            let count = voters.filter(|entry: (H256, u16)| entry.1 == chain).len();
            &&& texts.len() == state.voter_best.len()
            &&& texts[chain as int] == (if count == 0 {
                Seq::empty()
            } else {
                ratio_text((state.voter_best[chain as int].1 + 1) as nat, count)
            })
        }),
{
    lemma_count_is_filter(voters, chain);
}

proof fn lemma_total_is_flat(levels: Seq<Seq<H256>>, n: nat)
    requires
        n <= levels.len(),
    ensures
        total(levels, n) == levels.subrange(0, n as int).flatten().len(),
    decreases n,
{
    let first = levels.subrange(0, n as int);
    if n > 0 {
        lemma_total_is_flat(levels, (n - 1) as nat);
        lemma_flatten_last(first);
        assert(first.drop_last() =~= levels.subrange(0, n - 1));
    } else {
        assert(first =~= Seq::empty());
        assert(first.flatten() =~= Seq::empty());
    }
}

/// The number of the proposer tree that is shown, whatever the tree: the number of levels up to the
/// first one without a block, and the number of all blocks of these levels.
pub proof fn law_tree_number_counts_blocks(
    state: ChainState,
    t: Records,
    voters: Option<Seq<(H256, u16)>>,
    limit: u64,
    end: u64,
)
    requires
        picture(state, t, voters, limit) is Some,
        forall|level: u64| level < end ==> #[trigger] t.tree.contains_key(level),
        !t.tree.contains_key(end),
    ensures
        picture(state, t, voters, limit).unwrap().proposer_tree_number == ratio_text(
            end as nat,
            Seq::new(end as nat, |i: int| t.tree[i as u64]).flatten().len(),
        ),
{
    lemma_end_of(t.tree, 0);
    let tree = levels_of(t.tree, 0).unwrap();
    assert(tree.len() == end) by {
        if tree.len() < end {
            assert(t.tree.contains_key(tree.len() as u64));
        }
    }
    lemma_total_is_flat(tree, tree.len());
    assert(tree.subrange(0, end as int) =~= Seq::new(end as nat, |i: int| t.tree[i as u64]));
}

} // verus!
