//! What the picture shows of the voter chains, and its edges.

use vstd::prelude::*;

use crate::block::H256;
use crate::chain::ChainState;
use crate::consistency::{
    chain_fits, consistent, level_fits, proposer_fits, voter_fits, voters_fit, votes_up_to,
};
use crate::dump::{
    link_edge, lowest, main_chain, main_chains, parent_edges, picture, shown, visible, vote_edges,
    votes_at, votes_for, with_chain, with_fork, with_forks, Edge, EdgeType, Graph, Voter,
    VoterStatus,
};
use crate::picture_laws::{law_levels_shown, law_proposers_are_shown_on_their_levels};
use crate::store::{at, list_at, Records};
use crate::vote_laws::nth_parent;
use crate::votes::stamped;

verus! {

/// Whether a known voter block is the best block of its chain, or one of its ancestors.
pub open spec fn on_best_chain(state: ChainState, t: Records, block: H256) -> bool {
    let (best, level) = state.voter_best[t.voter_chain[block] as int];
    block == nth_parent(t.voter_parent, best, (level - t.voter_level[block]) as nat)
}

/// Whether a known voter block is on one of the voter chains, not above its best block, and one
/// level above its voter parent on the same chain, unless it is on level 0 and has none.
pub open spec fn voter_placed(state: ChainState, t: Records, block: H256) -> bool {
    &&& t.voter_chain.contains_key(block)
    &&& t.voter_chain[block] < state.voter_best.len()
    &&& t.voter_level[block] <= state.voter_best[t.voter_chain[block] as int].1
    &&& if t.voter_level[block] == 0 {
        !t.voter_parent.contains_key(block)
    } else {
        &&& t.voter_parent.contains_key(block)
        &&& at(t.voter_level, t.voter_parent[block]) == Some((t.voter_level[block] - 1) as u64)
        &&& at(t.voter_chain, t.voter_parent[block]) == Some(t.voter_chain[block])
    }
}

/// Whether every known voter block is in its place, and so are the best blocks.
pub open spec fn voters_placed(state: ChainState, t: Records) -> bool {
    &&& forall|block: H256| #[trigger]
        t.voter_level.contains_key(block) ==> voter_placed(state, t, block)
    &&& forall|chain: u16|
        chain < state.voter_best.len() ==> at(
            t.voter_level,
            (#[trigger] state.voter_best[chain as int]).0,
        ) == Some(state.voter_best[chain as int].1) && at(
            t.voter_chain,
            state.voter_best[chain as int].0,
        ) == Some(chain)
}

/// Whether every known proposer block is listed on its level, and every listed one is known.
pub open spec fn proposers_placed(t: Records) -> bool {
    &&& forall|level: u64, i: int|
        t.tree.contains_key(level) && 0 <= i < t.tree[level].len() ==> at(
            t.proposer_level,
            #[trigger] t.tree[level][i],
        ) == Some(level)
    &&& forall|block: H256| #[trigger]
        t.proposer_level.contains_key(block) ==> t.tree.contains_key(t.proposer_level[block])
            && t.tree[t.proposer_level[block]].contains(block)
}

pub(crate) proof fn lemma_main_chain_blocks(state: ChainState, t: Records, block: H256, low: u64)
    requires
        voters_placed(state, t),
        t.voter_level.contains_key(block),
        low <= t.voter_level[block],
        main_chain(t, block, t.voter_level[block], low) is Some,
    ensures
        ({
            let level = t.voter_level[block];
            let blocks = main_chain(t, block, level, low).unwrap();
            &&& blocks.len() == level - low + 1
            &&& forall|k: int|
                0 <= k < blocks.len() ==> {
                    let (b, l) = #[trigger] blocks[k];
                    &&& b == nth_parent(t.voter_parent, block, k as nat)
                    &&& l == level - k
                    &&& at(t.voter_level, b) == Some(l)
                    &&& at(t.voter_chain, b) == Some(t.voter_chain[block])
                }
        }),
    decreases t.voter_level[block],
{
    let level = t.voter_level[block];
    let blocks = main_chain(t, block, level, low).unwrap();
    assert(voter_placed(state, t, block));
    if level > 0 {
        let parent = t.voter_parent[block];
        let rest = main_chain(t, parent, (level - 1) as u64, low).unwrap();
        if level > low {
            lemma_main_chain_blocks(state, t, parent, low);
        }
        assert forall|k: int| 0 <= k < blocks.len() implies {
            let (b, l) = #[trigger] blocks[k];
            &&& b == nth_parent(t.voter_parent, block, k as nat)
            &&& l == level - k
            &&& at(t.voter_level, b) == Some(l)
            &&& at(t.voter_chain, b) == Some(t.voter_chain[block])
        } by {
            if k > 0 {
                assert(blocks[k] == rest[k - 1]);
            }
        }
    }
}

/// What is drawn from the voter blocks of a graph: the links to their voter parents, and votes.
pub open spec fn drawn(
    t: Records,
    votes: Seq<(H256, (u16, u64))>,
    nodes: Map<H256, Voter>,
    edge: Edge,
) -> bool {
    &&& nodes.contains_key(edge.from)
    &&& match edge.edgetype {
        EdgeType::VoterToVoterParent => at(t.voter_parent, edge.from) == Some(edge.to),
        EdgeType::VoterToProposerVote => match nodes[edge.from].status {
            VoterStatus::OnMainChain => votes.contains(
                (edge.to, (nodes[edge.from].chain, nodes[edge.from].level)),
            ),
            VoterStatus::Orphan => t.votes[edge.from].contains(edge.to),
        },
        EdgeType::ProposerToProposerParent => false,
    }
}

/// Whether the edges of a graph are what is drawn from its voter blocks, each once if it is to be
/// strict.
pub open spec fn drawn_once(
    strict: bool,
    t: Records,
    votes: Seq<(H256, (u16, u64))>,
    graph: Graph,
) -> bool {
    &&& strict ==> graph.edges.no_duplicates()
    &&& forall|edge: Edge| #[trigger]
        graph.edges.contains(edge) <==> drawn(t, votes, graph.nodes, edge)
}

proof fn lemma_concat_edges(a: Seq<Edge>, b: Seq<Edge>)
    ensures
        forall|edge: Edge| #[trigger]
            (a + b).contains(edge) <==> a.contains(edge) || b.contains(edge),
        a.no_duplicates() && b.no_duplicates() && (forall|edge: Edge| #[trigger]
            a.contains(edge) ==> !b.contains(edge)) ==> (a + b).no_duplicates(),
{
    let both = a + b;
    assert forall|edge: Edge| #[trigger] both.contains(edge) <==> a.contains(edge) || b.contains(
        edge,
    ) by {
        if a.contains(edge) {
            let i = choose|i: int| 0 <= i < a.len() && a[i] == edge;
            assert(both[i] == edge);
        }
        if b.contains(edge) {
            let i = choose|i: int| 0 <= i < b.len() && b[i] == edge;
            assert(both[a.len() + i] == edge);
        }
        if both.contains(edge) {
            let i = choose|i: int| 0 <= i < both.len() && both[i] == edge;
            if i < a.len() {
                assert(a[i] == edge);
            } else {
                assert(b[i - a.len()] == edge);
            }
        }
    }
    if a.no_duplicates() && b.no_duplicates() && (forall|edge: Edge| #[trigger]
        a.contains(edge) ==> !b.contains(edge)) {
        assert forall|i: int, j: int| 0 <= i < j < both.len() implies both[i] != both[j] by {
            if j < a.len() {
                assert(a[i] != a[j]);
            } else if i >= a.len() {
                assert(b[i - a.len()] != b[j - a.len()]);
            } else {
                assert(a.contains(a[i]));
                assert(b.contains(b[j - a.len()]));
            }
        }
    }
}

proof fn lemma_vote_edges(block: H256, votes: Seq<H256>)
    ensures
        forall|edge: Edge| #[trigger]
            vote_edges(block, votes).contains(edge) <==> edge.from == block
                && edge.edgetype is VoterToProposerVote && votes.contains(edge.to),
        votes.no_duplicates() ==> vote_edges(block, votes).no_duplicates(),
{
    let edges = vote_edges(block, votes);
    assert forall|edge: Edge| #[trigger] edges.contains(edge) <==> edge.from == block
        && edge.edgetype is VoterToProposerVote && votes.contains(edge.to) by {
        if edges.contains(edge) {
            let i = choose|i: int| 0 <= i < edges.len() && edges[i] == edge;
            assert(votes[i] == edge.to);
        }
        if edge.from == block && edge.edgetype is VoterToProposerVote && votes.contains(edge.to) {
            let i = choose|i: int| 0 <= i < votes.len() && votes[i] == edge.to;
            assert(edges[i] == edge);
        }
    }
    if votes.no_duplicates() {
        assert forall|i: int, j: int| 0 <= i < j < edges.len() implies edges[i] != edges[j] by {
            assert(votes[i] != votes[j]);
        }
    }
}

proof fn lemma_link_edge(links: Map<H256, H256>, block: H256, edgetype: EdgeType)
    ensures
        forall|edge: Edge| #[trigger]
            link_edge(links, block, edgetype).contains(edge) <==> edge.from == block
                && edge.edgetype == edgetype && at(links, block) == Some(edge.to),
        link_edge(links, block, edgetype).no_duplicates(),
{
    let edges = link_edge(links, block, edgetype);
    if links.contains_key(block) {
        assert(edges[0] == (Edge { from: block, to: links[block], edgetype }));
    }
}

/// A block that is added with its votes and its link keeps what is drawn right.
proof fn lemma_drawn_with(
    strict: bool,
    t: Records,
    votes: Seq<(H256, (u16, u64))>,
    graph: Graph,
    block: H256,
    voter: Voter,
    cast: Seq<H256>,
)
    requires
        drawn_once(strict, t, votes, graph),
        !graph.nodes.contains_key(block),
        strict ==> cast.no_duplicates(),
        forall|vote: H256| #[trigger]
            cast.contains(vote) <==> match voter.status {
                VoterStatus::OnMainChain => votes.contains((vote, (voter.chain, voter.level))),
                VoterStatus::Orphan => t.votes[block].contains(vote),
            },
    ensures
        drawn_once(
            strict,
            t,
            votes,
            Graph {
                edges: graph.edges + vote_edges(block, cast) + link_edge(
                    t.voter_parent,
                    block,
                    EdgeType::VoterToVoterParent,
                ),
                nodes: graph.nodes.insert(block, voter),
            },
        ),
{
    let links = link_edge(t.voter_parent, block, EdgeType::VoterToVoterParent);
    let nodes = graph.nodes.insert(block, voter);
    let first = graph.edges + vote_edges(block, cast);
    let edges = first + links;
    lemma_vote_edges(block, cast);
    lemma_link_edge(t.voter_parent, block, EdgeType::VoterToVoterParent);
    lemma_concat_edges(graph.edges, vote_edges(block, cast));
    lemma_concat_edges(first, links);
    assert forall|edge: Edge| #[trigger] edges.contains(edge) <==> drawn(t, votes, nodes, edge) by {
        assert(first.contains(edge) <==> graph.edges.contains(edge) || vote_edges(
            block,
            cast,
        ).contains(edge));
        assert(graph.edges.contains(edge) <==> drawn(t, votes, graph.nodes, edge));
        if edge.from == block {
            assert(cast.contains(edge.to) || !cast.contains(edge.to));
        }
    }
}

proof fn lemma_votes_at(votes: Seq<(H256, (u16, u64))>, chain: u16, level: u64)
    ensures
        forall|block: H256| #[trigger]
            votes_at(votes, chain, level).contains(block) <==> votes.contains(
                (block, (chain, level)),
            ),
        votes.no_duplicates() ==> votes_at(votes, chain, level).no_duplicates(),
    decreases votes.len(),
{
    if votes.len() > 0 {
        let some = votes.drop_last();
        let n = some.len() as int;
        let before = votes_at(some, chain, level);
        let all = votes_at(votes, chain, level);
        lemma_votes_at(some, chain, level);
        assert(votes[n] == votes.last());
        assert forall|entry: (H256, (u16, u64))| votes.contains(entry) <==> some.contains(entry)
            || entry == votes.last() by {
            if votes.contains(entry) {
                let i = choose|i: int| 0 <= i < votes.len() && votes[i] == entry;
                if i < n {
                    assert(some[i] == entry);
                }
            }
            if some.contains(entry) {
                let i = choose|i: int| 0 <= i < some.len() && some[i] == entry;
                assert(votes[i] == entry);
            }
        }
        assert forall|block: H256| #[trigger] all.contains(block) <==> votes.contains(
            (block, (chain, level)),
        ) by {
            if votes.last().1 == (chain, level) {
                if all.contains(block) {
                    let i = choose|i: int| 0 <= i < all.len() && all[i] == block;
                    if i < before.len() {
                        assert(before[i] == block);
                        assert(before.contains(block));
                    }
                }
                if before.contains(block) {
                    let i = choose|i: int| 0 <= i < before.len() && before[i] == block;
                    assert(all[i] == block);
                }
                if block == votes.last().0 {
                    assert(all[before.len() as int] == block);
                }
            }
            assert(before.contains(block) <==> some.contains((block, (chain, level))));
        }
        if votes.no_duplicates() {
            assert forall|i: int, j: int| 0 <= i < j < some.len() implies some[i] != some[j] by {
                assert(votes[i] != votes[j]);
            }
            if votes.last().1 == (chain, level) {
                if some.contains(votes.last()) {
                    let i = choose|i: int| 0 <= i < some.len() && some[i] == votes.last();
                    assert(votes[i] != votes[n]);
                }
                assert(!before.contains(votes.last().0));
                assert forall|i: int, j: int| 0 <= i < j < all.len() implies all[i] != all[j] by {
                    if j < before.len() {
                        assert(before[i] != before[j]);
                    } else {
                        assert(before.contains(before[i]));
                    }
                }
            }
        }
    }
}

proof fn lemma_votes_for_contains(votes: Map<H256, Seq<(u16, u64)>>, blocks: Seq<(H256, u64)>)
    ensures
        forall|block: H256, vote: (u16, u64)| #[trigger]
            votes_for(votes, blocks).contains((block, vote)) <==> (exists|i: int|
                0 <= i < blocks.len() && (#[trigger] blocks[i]).0 == block) && list_at(
                votes,
                block,
            ).contains(vote),
        (forall|i: int, j: int|
            0 <= i < j < blocks.len() ==> (#[trigger] blocks[i]).0 != (#[trigger] blocks[j]).0) && (
        forall|block: H256| (#[trigger] list_at(votes, block)).no_duplicates()) ==> votes_for(
            votes,
            blocks,
        ).no_duplicates(),
    decreases blocks.len(),
{
    if blocks.len() > 0 {
        let some = blocks.drop_last();
        let n = some.len() as int;
        let last = blocks.last().0;
        lemma_votes_for_contains(votes, some);
        let before = votes_for(votes, some);
        let all = votes_for(votes, blocks);
        let list = list_at(votes, last);
        assert(blocks[n] == blocks.last());
        assert forall|block: H256, vote: (u16, u64)| #[trigger]
            all.contains((block, vote)) <==> (exists|i: int|
            0 <= i < blocks.len() && (#[trigger] blocks[i]).0 == block) && list_at(
            votes,
            block,
        ).contains(vote) by {
            if all.contains((block, vote)) {
                let i = choose|i: int| 0 <= i < all.len() && all[i] == (block, vote);
                if i < before.len() {
                    assert(before[i] == (block, vote));
                    assert(before.contains((block, vote)));
                    let k = choose|k: int| 0 <= k < some.len() && (#[trigger] some[k]).0 == block;
                    assert(blocks[k].0 == block);
                } else {
                    assert(list[i - before.len()] == vote);
                    assert(blocks[n].0 == block);
                }
            }
            if (exists|i: int| 0 <= i < blocks.len() && (#[trigger] blocks[i]).0 == block)
                && list_at(votes, block).contains(vote) {
                let i = choose|i: int| 0 <= i < blocks.len() && (#[trigger] blocks[i]).0 == block;
                if i < n {
                    assert(some[i].0 == block);
                    assert(before.contains((block, vote)));
                    let k = choose|k: int| 0 <= k < before.len() && before[k] == (block, vote);
                    assert(all[k] == (block, vote));
                } else {
                    let k = choose|k: int| 0 <= k < list.len() && list[k] == vote;
                    assert(all[before.len() + k] == (block, vote));
                }
            }
        }
        if (forall|i: int, j: int|
            0 <= i < j < blocks.len() ==> (#[trigger] blocks[i]).0 != (#[trigger] blocks[j]).0) && (
        forall|block: H256| (#[trigger] list_at(votes, block)).no_duplicates()) {
            assert forall|i: int, j: int| 0 <= i < j < some.len() implies (#[trigger] some[i]).0
                != (#[trigger] some[j]).0 by {
                assert(blocks[i].0 != blocks[j].0);
            }
            assert(list.no_duplicates());
            assert forall|i: int, j: int| 0 <= i < j < all.len() implies all[i] != all[j] by {
                if j < before.len() {
                    assert(before[i] != before[j]);
                } else if i >= before.len() {
                    assert(list[i - before.len()] != list[j - before.len()]);
                } else {
                    assert(before.contains((before[i].0, before[i].1)));
                    let k = choose|k: int|
                        0 <= k < some.len() && (#[trigger] some[k]).0 == before[i].0;
                    assert(blocks[k].0 != blocks[n].0);
                }
            }
        }
    }
}

proof fn lemma_lowest(votes: Seq<(H256, (u16, u64))>, chain: u16, best: u64)
    ensures
        lowest(votes, chain, best) <= best,
        forall|i: int|
            0 <= i < votes.len() && (#[trigger] votes[i]).1.0 == chain ==> lowest(
                votes,
                chain,
                best,
            ) <= votes[i].1.1,
        lowest(votes, chain, best) == best || exists|i: int|
            0 <= i < votes.len() && (#[trigger] votes[i]).1 == (chain, lowest(votes, chain, best)),
    decreases votes.len(),
{
    if votes.len() > 0 {
        let some = votes.drop_last();
        let n = some.len() as int;
        lemma_lowest(some, chain, best);
        let before = lowest(some, chain, best);
        let low = lowest(votes, chain, best);
        assert(votes[n] == votes.last());
        assert forall|i: int| 0 <= i < votes.len() && (#[trigger] votes[i]).1.0
            == chain implies low <= votes[i].1.1 by {
            if i < n {
                assert(some[i] == votes[i]);
            }
        }
        if low == before && before != best {
            let i = choose|i: int| 0 <= i < some.len() && (#[trigger] some[i]).1 == (chain, before);
            assert(votes[i].1 == (chain, low));
        }
    }
}

/// A main chain that is added to a graph that has no block of it.
proof fn lemma_with_chain(
    strict: bool,
    t: Records,
    votes: Seq<(H256, (u16, u64))>,
    graph: Graph,
    chain: u16,
    blocks: Seq<(H256, u64)>,
)
    requires
        drawn_once(strict, t, votes, graph),
        strict ==> votes.no_duplicates(),
        forall|i: int|
            0 <= i < blocks.len() ==> !graph.nodes.contains_key((#[trigger] blocks[i]).0)
                && t.voter_level[blocks[i].0] == blocks[i].1,
        forall|i: int, j: int|
            0 <= i < j < blocks.len() ==> (#[trigger] blocks[i]).0 != (#[trigger] blocks[j]).0,
    ensures
        ({
            let more = with_chain(t, votes, graph, chain, blocks);
            &&& drawn_once(strict, t, votes, more)
            &&& forall|block: H256| #[trigger]
                more.nodes.contains_key(block) <==> graph.nodes.contains_key(block) || exists|
                    i: int,
                |
                    0 <= i < blocks.len() && (#[trigger] blocks[i]).0 == block
            &&& forall|block: H256| #[trigger]
                graph.nodes.contains_key(block) ==> more.nodes[block] == graph.nodes[block]
            &&& forall|i: int|
                0 <= i < blocks.len() ==> more.nodes[(#[trigger] blocks[i]).0] == (Voter {
                    chain,
                    level: blocks[i].1,
                    status: VoterStatus::OnMainChain,
                    deepest_vote_level: t.voted_level[blocks[i].0],
                })
        }),
    decreases blocks.len(),
{
    if blocks.len() > 0 {
        let some = blocks.drop_last();
        let n = some.len() as int;
        let (last, level) = blocks.last();
        assert(blocks[n] == blocks.last());
        assert forall|i: int| 0 <= i < some.len() implies !graph.nodes.contains_key(
            (#[trigger] some[i]).0,
        ) && t.voter_level[some[i].0] == some[i].1 by {
            assert(some[i] == blocks[i]);
        }
        assert forall|i: int, j: int| 0 <= i < j < some.len() implies (#[trigger] some[i]).0 != (
        #[trigger] some[j]).0 by {
            assert(blocks[i].0 != blocks[j].0);
        }
        lemma_with_chain(strict, t, votes, graph, chain, some);
        let before = with_chain(t, votes, graph, chain, some);
        let more = with_chain(t, votes, graph, chain, blocks);
        if before.nodes.contains_key(last) {
            let i = choose|i: int| 0 <= i < some.len() && (#[trigger] some[i]).0 == last;
            assert(blocks[i].0 != blocks[n].0);
        }
        let cast = votes_at(votes, chain, level);
        lemma_votes_at(votes, chain, level);
        let voter = Voter {
            chain,
            level,
            status: VoterStatus::OnMainChain,
            deepest_vote_level: t.voted_level[last],
        };
        lemma_drawn_with(strict, t, votes, before, last, voter, cast);
        assert forall|block: H256| #[trigger] more.nodes.contains_key(
            block,
        ) <==> graph.nodes.contains_key(block) || exists|i: int|
            0 <= i < blocks.len() && (#[trigger] blocks[i]).0 == block by {
            if before.nodes.contains_key(block) && !graph.nodes.contains_key(block) {
                let i = choose|i: int| 0 <= i < some.len() && (#[trigger] some[i]).0 == block;
                assert(blocks[i].0 == block);
            }
            if exists|i: int| 0 <= i < blocks.len() && (#[trigger] blocks[i]).0 == block {
                let i = choose|i: int| 0 <= i < blocks.len() && (#[trigger] blocks[i]).0 == block;
                if i < n {
                    assert(some[i].0 == block);
                    assert(before.nodes.contains_key(block));
                }
            }
        }
        assert forall|i: int| 0 <= i < blocks.len() implies more.nodes[(#[trigger] blocks[i]).0]
            == (Voter {
            chain,
            level: blocks[i].1,
            status: VoterStatus::OnMainChain,
            deepest_vote_level: t.voted_level[blocks[i].0],
        }) by {
            if i < n {
                assert(some[i] == blocks[i]);
                assert(blocks[i].0 != blocks[n].0);
            }
        }
    }
}

/// A voter block as it is shown: with its chain, its level and the level it has voted up to.
pub open spec fn shown_voter(t: Records, block: H256, status: VoterStatus) -> Voter {
    Voter {
        chain: t.voter_chain[block],
        level: t.voter_level[block],
        status,
        deepest_vote_level: t.voted_level[block],
    }
}

/// Whether a known voter block is on one of the first chains, above the lowest level of it that is
/// shown, and on the way to its best block.
pub open spec fn on_main(
    state: ChainState,
    t: Records,
    lows: Seq<u64>,
    n: nat,
    block: H256,
) -> bool {
    &&& t.voter_level.contains_key(block)
    &&& t.voter_chain[block] < n
    &&& t.voter_level[block] >= lows[t.voter_chain[block] as int]
    &&& on_best_chain(state, t, block)
}

pub(crate) proof fn lemma_main_chains_shown(
    strict: bool,
    state: ChainState,
    t: Records,
    votes: Seq<(H256, (u16, u64))>,
    lows: Seq<u64>,
    n: nat,
)
    requires
        state.wf(),
        voters_placed(state, t),
        strict ==> votes.no_duplicates(),
        n <= state.voter_best.len() == lows.len(),
        forall|chain: u16|
            chain < lows.len() ==> #[trigger] lows[chain as int] == lowest(
                votes,
                chain,
                state.voter_best[chain as int].1,
            ),
        main_chains(state, t, votes, n) is Some,
    ensures
        ({
            let graph = main_chains(state, t, votes, n).unwrap();
            &&& drawn_once(strict, t, votes, graph)
            &&& forall|block: H256| #[trigger]
                graph.nodes.contains_key(block) <==> on_main(state, t, lows, n, block)
            &&& forall|block: H256| #[trigger]
                graph.nodes.contains_key(block) ==> graph.nodes[block] == shown_voter(
                    t,
                    block,
                    VoterStatus::OnMainChain,
                )
        }),
    decreases n,
{
    if n > 0 {
        let k = (n - 1) as nat;
        let chain = k as u16;
        lemma_main_chains_shown(strict, state, t, votes, lows, k);
        let (best, level) = state.voter_best[k as int];
        let low = lowest(votes, chain, level);
        assert(lows[chain as int] == low);
        lemma_lowest(votes, chain, level);
        lemma_main_chain_blocks(state, t, best, low);
        let blocks = main_chain(t, best, level, low).unwrap();
        let graph = main_chains(state, t, votes, k).unwrap();
        let more = main_chains(state, t, votes, n).unwrap();
        assert forall|i: int| 0 <= i < blocks.len() implies !graph.nodes.contains_key(
            (#[trigger] blocks[i]).0,
        ) && t.voter_level[blocks[i].0] == blocks[i].1 by {
            let block = blocks[i].0;
            assert(t.voter_chain[block] == chain);
            assert(!on_main(state, t, lows, k, block));
        }
        assert forall|i: int, j: int| 0 <= i < j < blocks.len() implies (#[trigger] blocks[i]).0
            != (#[trigger] blocks[j]).0 by {
            assert(blocks[i].1 != blocks[j].1);
            assert(t.voter_level[blocks[i].0] == blocks[i].1);
            assert(t.voter_level[blocks[j].0] == blocks[j].1);
        }
        lemma_with_chain(strict, t, votes, graph, chain, blocks);
        assert forall|block: H256| #[trigger] more.nodes.contains_key(block) <==> on_main(
            state,
            t,
            lows,
            n,
            block,
        ) by {
            assert(graph.nodes.contains_key(block) <==> on_main(state, t, lows, k, block));
            if exists|i: int| 0 <= i < blocks.len() && (#[trigger] blocks[i]).0 == block {
                let i = choose|i: int| 0 <= i < blocks.len() && (#[trigger] blocks[i]).0 == block;
                assert(level - t.voter_level[block] == i);
                assert(on_best_chain(state, t, block));
            }
            if on_main(state, t, lows, n, block) && t.voter_chain[block] == chain {
                assert(voter_placed(state, t, block));
                let i = level - t.voter_level[block];
                assert(blocks[i].0 == block);
            }
        }
        assert forall|block: H256| #[trigger] more.nodes.contains_key(
            block,
        ) implies more.nodes[block] == shown_voter(t, block, VoterStatus::OnMainChain) by {
            if !graph.nodes.contains_key(block) {
                let i = choose|i: int| 0 <= i < blocks.len() && (#[trigger] blocks[i]).0 == block;
                assert(blocks[i].0 == block);
            }
        }
    }
}

/// Whether one of the first entries of a list is a block that is not too low.
pub open spec fn listed_above(
    t: Records,
    listed: Seq<(H256, u16)>,
    lows: Seq<u64>,
    n: nat,
    block: H256,
) -> bool {
    exists|i: int|
        0 <= i < n && (#[trigger] listed[i]).0 == block && t.voter_level[block]
            >= lows[listed[i].1 as int]
}

pub(crate) proof fn lemma_forks_shown(
    strict: bool,
    state: ChainState,
    t: Records,
    votes: Seq<(H256, (u16, u64))>,
    lows: Seq<u64>,
    graph: Graph,
    listed: Seq<(H256, u16)>,
    n: nat,
)
    requires
        drawn_once(strict, t, votes, graph),
        n <= listed.len(),
        state.voter_best.len() == lows.len(),
        forall|chain: u16|
            chain < lows.len() ==> #[trigger] lows[chain as int] == lowest(
                votes,
                chain,
                state.voter_best[chain as int].1,
            ),
        forall|i: int|
            0 <= i < listed.len() ==> t.voter_chain[(#[trigger] listed[i]).0] == listed[i].1
                && (strict ==> t.votes[listed[i].0].no_duplicates()),
        with_forks(state, t, votes, graph, listed, n) is Some,
    ensures
        ({
            let more = with_forks(state, t, votes, graph, listed, n).unwrap();
            &&& drawn_once(strict, t, votes, more)
            &&& forall|block: H256| #[trigger]
                more.nodes.contains_key(block) <==> graph.nodes.contains_key(block)
                    || listed_above(t, listed, lows, n, block)
            &&& forall|block: H256| #[trigger]
                more.nodes.contains_key(block) ==> more.nodes[block]
                    == if graph.nodes.contains_key(block) {
                    graph.nodes[block]
                } else {
                    shown_voter(t, block, VoterStatus::Orphan)
                }
        }),
    decreases n,
{
    if n > 0 {
        let k = (n - 1) as nat;
        lemma_forks_shown(strict, state, t, votes, lows, graph, listed, k);
        let before = with_forks(state, t, votes, graph, listed, k).unwrap();
        let more = with_forks(state, t, votes, graph, listed, n).unwrap();
        let (last, chain) = listed[k as int];
        assert(with_fork(state, t, votes, before, last, chain) == Some(more));
        assert(lows[chain as int] == lowest(votes, chain, state.voter_best[chain as int].1));
        assert forall|block: H256| #[trigger] listed_above(t, listed, lows, n, block)
            <==> listed_above(t, listed, lows, k, block) || (block == last && t.voter_level[last]
            >= lows[chain as int]) by {
            if listed_above(t, listed, lows, n, block) {
                let i = choose|i: int|
                    0 <= i < n && (#[trigger] listed[i]).0 == block && t.voter_level[block]
                        >= lows[listed[i].1 as int];
                if i < k {
                    assert(listed_above(t, listed, lows, k, block));
                }
            }
            if block == last && t.voter_level[last] >= lows[chain as int] {
                assert(listed[k as int].0 == block);
            }
        }
        if more != before {
            lemma_drawn_with(
                strict,
                t,
                votes,
                before,
                last,
                shown_voter(t, last, VoterStatus::Orphan),
                t.votes[last],
            );
        }
        assert forall|block: H256| #[trigger] more.nodes.contains_key(
            block,
        ) <==> graph.nodes.contains_key(block) || listed_above(t, listed, lows, n, block) by {
            assert(before.nodes.contains_key(block) <==> graph.nodes.contains_key(block)
                || listed_above(t, listed, lows, k, block));
        }
    }
}

proof fn lemma_cast_once(state: ChainState, t: Records, block: H256)
    requires
        voters_fit(state, t),
        t.voter_level.contains_key(block),
    ensures
        t.votes[block].no_duplicates(),
{
    assert(voter_fits(state, t, block));
    let list = votes_up_to(t, block);
    let cast = t.votes[block];
    let here = stamped(cast, t.voter_level[block]);
    assert(crate::votes::chain_votes(t, block, t.voter_level[block]) == list);
    assert forall|i: int, j: int| 0 <= i < j < cast.len() implies cast[i] != cast[j] by {
        assert(list[i] == here[i]);
        assert(list[j] == here[j]);
        assert(list[i].0 != list[j].0);
    }
}

/// Whether levels are those of the tree from a level on.
spec fn levels_from(t: Records, levels: Seq<Seq<H256>>, bottom: u64) -> bool {
    &&& forall|i: int|
        0 <= i < levels.len() ==> #[trigger] levels[i] == t.tree[(bottom + i) as u64]
    &&& forall|level: u64|
        bottom <= level < bottom + levels.len() ==> #[trigger] t.tree.contains_key(level)
}

/// Whether a list has the known blocks of some levels, each once if it is to be strict.
spec fn blocks_between(
    strict: bool,
    t: Records,
    blocks: Seq<(H256, u64)>,
    bottom: int,
    end: int,
) -> bool {
    &&& strict ==> forall|i: int, j: int|
        0 <= i < j < blocks.len() ==> (#[trigger] blocks[i]).0 != (#[trigger] blocks[j]).0
    &&& forall|i: int|
        0 <= i < blocks.len() ==> t.proposer_level.contains_key((#[trigger] blocks[i]).0) && bottom
            <= t.proposer_level[blocks[i].0] < end
    &&& forall|block: H256| #[trigger]
        t.proposer_level.contains_key(block) && bottom <= t.proposer_level[block] < end
            ==> exists|i: int| 0 <= i < blocks.len() && (#[trigger] blocks[i]).0 == block
}

proof fn lemma_blocks_shown(
    strict: bool,
    t: Records,
    levels: Seq<Seq<H256>>,
    bottom: u64,
    n: nat,
)
    requires
        proposers_placed(t),
        strict ==> forall|level: u64| #[trigger]
            t.tree.contains_key(level) ==> t.tree[level].no_duplicates(),
        n <= levels.len(),
        bottom + levels.len() <= u64::MAX,
        levels_from(t, levels, bottom),
    ensures
        blocks_between(strict, t, shown(levels, bottom, n), bottom as int, bottom + n),
    decreases n,
{
    if n > 0 {
        let k = (n - 1) as nat;
        let level = (bottom + k) as u64;
        let here = levels[k as int];
        let before = shown(levels, bottom, k);
        let blocks = shown(levels, bottom, n);
        lemma_blocks_shown(strict, t, levels, bottom, k);
        assert(here == t.tree[level]);
        assert(t.tree.contains_key(level));
        assert forall|i: int| before.len() <= i < blocks.len() implies (#[trigger] blocks[i]).0
            == here[i - before.len()] && at(t.proposer_level, blocks[i].0) == Some(level) by {
            assert(at(t.proposer_level, t.tree[level][i - before.len()]) == Some(level));
        }
        assert forall|i: int| 0 <= i < before.len() implies #[trigger] blocks[i] == before[i] by {}
        assert forall|i: int| 0 <= i < blocks.len() implies t.proposer_level.contains_key(
            (#[trigger] blocks[i]).0,
        ) && bottom <= t.proposer_level[blocks[i].0] < bottom + n by {
            if i < before.len() {
                assert(blocks[i] == before[i]);
            }
        }
        assert forall|i: int, j: int| strict && 0 <= i < j < blocks.len() implies (
        #[trigger] blocks[i]).0 != (#[trigger] blocks[j]).0 by {
            if j < before.len() {
                assert(before[i].0 != before[j].0);
            } else if i >= before.len() {
                assert(here[i - before.len()] != here[j - before.len()]);
            } else {
                assert(blocks[i] == before[i]);
                assert(t.proposer_level[before[i].0] < bottom + k);
            }
        }
        assert forall|block: H256| #[trigger]
            t.proposer_level.contains_key(block) && bottom <= t.proposer_level[block] < bottom
                + n implies exists|i: int|
            0 <= i < blocks.len() && (#[trigger] blocks[i]).0 == block by {
            if t.proposer_level[block] < level {
                let i = choose|i: int| 0 <= i < before.len() && (#[trigger] before[i]).0 == block;
                assert(blocks[i].0 == block);
            } else {
                assert(t.tree[t.proposer_level[block]].contains(block));
                let i = choose|i: int| 0 <= i < here.len() && here[i] == block;
                assert(blocks[before.len() + i].0 == block);
            }
        }
    }
}

proof fn lemma_parent_edges(strict: bool, parent: Map<H256, H256>, blocks: Seq<(H256, u64)>)
    requires
        strict ==> forall|i: int, j: int|
            0 <= i < j < blocks.len() ==> (#[trigger] blocks[i]).0 != (#[trigger] blocks[j]).0,
    ensures
        strict ==> parent_edges(parent, blocks).no_duplicates(),
        forall|edge: Edge| #[trigger]
            parent_edges(parent, blocks).contains(edge) <==> (exists|i: int|
                0 <= i < blocks.len() && (#[trigger] blocks[i]).0 == edge.from)
                && edge.edgetype is ProposerToProposerParent && at(parent, edge.from) == Some(
                edge.to,
            ),
    decreases blocks.len(),
{
    if blocks.len() > 0 {
        let some = blocks.drop_last();
        let n = some.len() as int;
        let last = blocks.last().0;
        assert(blocks[n] == blocks.last());
        assert forall|i: int, j: int| strict && 0 <= i < j < some.len() implies (
        #[trigger] some[i]).0 != (#[trigger] some[j]).0 by {
            assert(blocks[i].0 != blocks[j].0);
        }
        lemma_parent_edges(strict, parent, some);
        let before = parent_edges(parent, some);
        let link = link_edge(parent, last, EdgeType::ProposerToProposerParent);
        lemma_link_edge(parent, last, EdgeType::ProposerToProposerParent);
        assert forall|edge: Edge| strict && #[trigger] before.contains(
            edge,
        ) implies !link.contains(edge) by {
            let i = choose|i: int| 0 <= i < some.len() && (#[trigger] some[i]).0 == edge.from;
            assert(blocks[i].0 != blocks[n].0);
        }
        lemma_concat_edges(before, link);
        assert forall|edge: Edge| #[trigger]
            parent_edges(parent, blocks).contains(edge) <==> (exists|i: int|
            0 <= i < blocks.len() && (#[trigger] blocks[i]).0 == edge.from)
            && edge.edgetype is ProposerToProposerParent && at(parent, edge.from) == Some(
            edge.to,
        ) by {
            if before.contains(edge) {
                let i = choose|i: int| 0 <= i < some.len() && (#[trigger] some[i]).0 == edge.from;
                assert(blocks[i].0 == edge.from);
            }
            if exists|i: int| 0 <= i < blocks.len() && (#[trigger] blocks[i]).0 == edge.from {
                let i = choose|i: int|
                    0 <= i < blocks.len() && (#[trigger] blocks[i]).0 == edge.from;
                if i < n {
                    assert(some[i].0 == edge.from);
                }
            }
        }
    }
}

proof fn lemma_filter_once(list: Seq<Edge>, keep: spec_fn(Edge) -> bool)
    ensures
        forall|edge: Edge| #[trigger]
            list.filter(keep).contains(edge) <==> list.contains(edge) && keep(edge),
        list.no_duplicates() ==> list.filter(keep).no_duplicates(),
    decreases list.len(),
{
    reveal(Seq::filter);
    if list.len() > 0 {
        let some = list.drop_last();
        let last = list.last();
        lemma_filter_once(some, keep);
        assert(list =~= some + seq![last]);
        lemma_concat_edges(some, seq![last]);
        assert(seq![last][0] == last);
        let before = some.filter(keep);
        assert(before.push(last) =~= before + seq![last]);
        lemma_concat_edges(before, seq![last]);
        assert forall|edge: Edge| #[trigger] list.filter(keep).contains(edge) <==> list.contains(
            edge,
        ) && keep(edge) by {
            assert((some + seq![last]).contains(edge) <==> some.contains(edge) || edge == last);
            assert((before + seq![last]).contains(edge) <==> before.contains(edge) || edge == last);
        }
        if list.no_duplicates() {
            assert forall|i: int, j: int| 0 <= i < j < some.len() implies some[i] != some[j] by {
                assert(list[i] != list[j]);
            }
            if some.contains(last) {
                let i = choose|i: int| 0 <= i < some.len() && some[i] == last;
                assert(list[i] != list[list.len() - 1]);
            }
        }
    }
}

/// Whether a level is the lowest one of a voter chain that is shown: the level of its best block,
/// or the lowest level below it from which there is a counted vote for a proposer block that is
/// shown.
pub open spec fn lowest_shown(
    t: Records,
    proposers: Set<H256>,
    chain: u16,
    best: u64,
    low: u64,
) -> bool {
    &&& low <= best
    &&& forall|block: H256, level: u64|
        proposers.contains(block) && #[trigger] list_at(t.node_votes, block).contains(
            (chain, level),
        ) ==> low <= level
    &&& low == best || exists|block: H256|
        proposers.contains(block) && #[trigger] list_at(t.node_votes, block).contains((chain, low))
}

proof fn lemma_levels_from(
    state: ChainState,
    t: Records,
    voters: Option<Seq<(H256, u16)>>,
    limit: u64,
    bottom: u64,
)
    requires
        picture(state, t, voters, limit) is Some,
        state.proposer_ledger_tip > limit ==> bottom + limit == state.proposer_ledger_tip,
        state.proposer_ledger_tip <= limit ==> bottom == 0,
    ensures
        levels_from(t, picture(state, t, voters, limit).unwrap().proposer_levels, bottom),
{
    law_levels_shown(state, t, voters, limit, bottom);
    let levels = picture(state, t, voters, limit).unwrap().proposer_levels;
    assert forall|level: u64| bottom <= level < bottom + levels.len() implies #[trigger]
        t.tree.contains_key(level) by {
        assert(levels[level - bottom] == t.tree[level]);
    }
}

/// The votes for the blocks that are shown, and the lowest levels with one.
pub(crate) proof fn lemma_lows(
    strict: bool,
    state: ChainState,
    t: Records,
    voters: Option<Seq<(H256, u16)>>,
    limit: u64,
    bottom: u64,
    lows: Seq<u64>,
)
    requires
        state.wf(),
        voters_placed(state, t),
        proposers_placed(t),
        strict ==> {
            &&& forall|level: u64| #[trigger]
                t.tree.contains_key(level) ==> t.tree[level].no_duplicates()
            &&& forall|block: H256| (#[trigger] list_at(t.node_votes, block)).no_duplicates()
            &&& forall|block: H256| #[trigger]
                t.voter_level.contains_key(block) ==> t.votes[block].no_duplicates()
        },
        picture(state, t, voters, limit) is Some,
        state.proposer_ledger_tip > limit ==> bottom + limit == state.proposer_ledger_tip,
        state.proposer_ledger_tip <= limit ==> bottom == 0,
        voters matches Some(list) ==> {
            &&& forall|i: int|
                0 <= i < list.len() ==> t.voter_level.contains_key((#[trigger] list[i]).0)
                    && t.voter_chain[list[i].0] == list[i].1
            &&& forall|block: H256| #[trigger]
                t.voter_level.contains_key(block) ==> list.contains((block, t.voter_chain[block]))
        },
        lows.len() == state.voter_best.len(),
        forall|chain: u16|
            chain < lows.len() ==> lowest_shown(
                t,
                picture(state, t, voters, limit).unwrap().proposer_nodes.dom(),
                chain,
                state.voter_best[chain as int].1,
                #[trigger] lows[chain as int],
            ),
    ensures
        ({
            let view = picture(state, t, voters, limit).unwrap();
            let levels = view.proposer_levels;
            let blocks = shown(levels, bottom, levels.len());
            let votes = votes_for(t.node_votes, blocks);
            &&& strict ==> forall|i: int, j: int|
                0 <= i < j < blocks.len() ==> (#[trigger] blocks[i]).0 != (#[trigger] blocks[j]).0
            &&& forall|block: H256|
                (exists|i: int| 0 <= i < blocks.len() && (#[trigger] blocks[i]).0 == block)
                    <==> #[trigger] view.proposer_nodes.contains_key(block)
            &&& strict ==> votes.no_duplicates()
            &&& forall|block: H256, vote: (u16, u64)| #[trigger]
                votes.contains((block, vote)) <==> view.proposer_nodes.contains_key(block)
                    && list_at(t.node_votes, block).contains(vote)
            &&& forall|chain: u16|
                chain < lows.len() ==> #[trigger] lows[chain as int] == lowest(
                    votes,
                    chain,
                    state.voter_best[chain as int].1,
                )
        }),
{
    let view = picture(state, t, voters, limit).unwrap();
    let levels = view.proposer_levels;
    let proposers = view.proposer_nodes;
    law_levels_shown(state, t, voters, limit, bottom);
    let blocks = shown(levels, bottom, levels.len());
    let votes = votes_for(t.node_votes, blocks);
    lemma_levels_from(state, t, voters, limit, bottom);
    lemma_blocks_shown(strict, t, levels, bottom, levels.len());
    law_proposers_are_shown_on_their_levels(state, t, voters, limit, bottom);
    assert forall|block: H256|
        (exists|i: int| 0 <= i < blocks.len() && (#[trigger] blocks[i]).0 == block)
            <==> #[trigger] proposers.contains_key(block) by {
        assert(t.proposer_level.contains_key(block) || !t.proposer_level.contains_key(block));
    }
    lemma_votes_for_contains(t.node_votes, blocks);
    assert(strict ==> votes.no_duplicates());
    assert forall|block: H256, vote: (u16, u64)| #[trigger] votes.contains(
        (block, vote),
    ) <==> proposers.contains_key(block) && list_at(t.node_votes, block).contains(vote) by {}
    assert forall|chain: u16| chain < lows.len() implies #[trigger] lows[chain as int] == lowest(
        votes,
        chain,
        state.voter_best[chain as int].1,
    ) by {
        let best = state.voter_best[chain as int].1;
        let low = lows[chain as int];
        let other = lowest(votes, chain, best);
        lemma_lowest(votes, chain, best);
        assert(lowest_shown(t, proposers.dom(), chain, best, low));
        if other != best {
            let i = choose|i: int| 0 <= i < votes.len() && (#[trigger] votes[i]).1 == (
                chain,
                other,
            );
            assert(votes.contains((votes[i].0, votes[i].1)));
            assert(list_at(t.node_votes, votes[i].0).contains((chain, other)));
        }
        if low != best {
            let block = choose|block: H256|
                proposers.dom().contains(block) && #[trigger] list_at(
                    t.node_votes,
                    block,
                ).contains((chain, low));
            assert(votes.contains((block, (chain, low))));
            let i = choose|i: int| 0 <= i < votes.len() && votes[i] == (block, (chain, low));
            assert(votes[i].1.0 == chain);
        }
    }
}

proof fn lemma_graph_shown(
    strict: bool,
    state: ChainState,
    t: Records,
    voters: Option<Seq<(H256, u16)>>,
    limit: u64,
    bottom: u64,
    lows: Seq<u64>,
)
    requires
        state.wf(),
        voters_placed(state, t),
        proposers_placed(t),
        strict ==> {
            &&& forall|level: u64| #[trigger]
                t.tree.contains_key(level) ==> t.tree[level].no_duplicates()
            &&& forall|block: H256| (#[trigger] list_at(t.node_votes, block)).no_duplicates()
            &&& forall|block: H256| #[trigger]
                t.voter_level.contains_key(block) ==> t.votes[block].no_duplicates()
        },
        picture(state, t, voters, limit) is Some,
        state.proposer_ledger_tip > limit ==> bottom + limit == state.proposer_ledger_tip,
        state.proposer_ledger_tip <= limit ==> bottom == 0,
        voters matches Some(list) ==> {
            &&& forall|i: int|
                0 <= i < list.len() ==> t.voter_level.contains_key((#[trigger] list[i]).0)
                    && t.voter_chain[list[i].0] == list[i].1
            &&& forall|block: H256| #[trigger]
                t.voter_level.contains_key(block) ==> list.contains((block, t.voter_chain[block]))
        },
        lows.len() == state.voter_best.len(),
        forall|chain: u16|
            chain < lows.len() ==> lowest_shown(
                t,
                picture(state, t, voters, limit).unwrap().proposer_nodes.dom(),
                chain,
                state.voter_best[chain as int].1,
                #[trigger] lows[chain as int],
            ),
    ensures
        ({
            let view = picture(state, t, voters, limit).unwrap();
            let nodes = view.voter_nodes;
            &&& forall|block: H256| #[trigger]
                nodes.contains_key(block) <==> t.voter_level.contains_key(block)
                    && t.voter_level[block] >= lows[t.voter_chain[block] as int] && (voters is Some
                    || on_best_chain(state, t, block))
            &&& forall|block: H256| #[trigger]
                nodes.contains_key(block) ==> {
                    &&& nodes[block].chain == t.voter_chain[block]
                    &&& nodes[block].level == t.voter_level[block]
                    &&& nodes[block].deepest_vote_level == t.voted_level[block]
                    &&& nodes[block].status is OnMainChain <==> on_best_chain(state, t, block)
                }
            &&& strict ==> view.edges.no_duplicates()
            &&& forall|edge: Edge| #[trigger]
                view.edges.contains(edge) <==> {
                    &&& view.proposer_nodes.contains_key(edge.from) || nodes.contains_key(edge.from)
                    &&& view.proposer_nodes.contains_key(edge.to) || nodes.contains_key(edge.to)
                    &&& match edge.edgetype {
                        EdgeType::ProposerToProposerParent => view.proposer_nodes.contains_key(
                            edge.from,
                        ) && t.parent.contains_key(edge.from) && t.parent[edge.from] == edge.to,
                        EdgeType::VoterToVoterParent => nodes.contains_key(edge.from)
                            && t.voter_parent.contains_key(edge.from) && t.voter_parent[edge.from]
                            == edge.to,
                        EdgeType::VoterToProposerVote => nodes.contains_key(edge.from) && (
                        if on_best_chain(state, t, edge.from) {
                            view.proposer_nodes.contains_key(edge.to) && list_at(
                                t.node_votes,
                                edge.to,
                            ).contains((t.voter_chain[edge.from], t.voter_level[edge.from]))
                        } else {
                            t.votes[edge.from].contains(edge.to)
                        }),
                    }
                }
        }),
{
    let view = picture(state, t, voters, limit).unwrap();
    let levels = view.proposer_levels;
    let proposers = view.proposer_nodes;
    let nodes = view.voter_nodes;
    let n = state.voter_best.len();
    law_levels_shown(state, t, voters, limit, bottom);
    let blocks = shown(levels, bottom, levels.len());
    let votes = votes_for(t.node_votes, blocks);
    lemma_lows(strict, state, t, voters, limit, bottom, lows);
    lemma_main_chains_shown(strict, state, t, votes, lows, n);
    let graph = main_chains(state, t, votes, n).unwrap();
    assert forall|block: H256| #[trigger] graph.nodes.contains_key(block) <==> (
    t.voter_level.contains_key(block) && t.voter_level[block] >= lows[t.voter_chain[block] as int]
        && on_best_chain(state, t, block)) by {
        if t.voter_level.contains_key(block) {
            assert(voter_placed(state, t, block));
        }
    }
    let all = match voters {
        Some(list) => with_forks(state, t, votes, graph, list, list.len()).unwrap(),
        None => graph,
    };
    if let Some(list) = voters {
        assert forall|i: int| 0 <= i < list.len() implies t.voter_chain[(#[trigger] list[i]).0]
            == list[i].1 && (strict ==> t.votes[list[i].0].no_duplicates()) by {
            assert(t.voter_level.contains_key(list[i].0));
        }
        lemma_forks_shown(strict, state, t, votes, lows, graph, list, list.len());
        assert forall|block: H256| #[trigger] listed_above(t, list, lows, list.len(), block)
            <==> t.voter_level.contains_key(block) && t.voter_level[block]
            >= lows[t.voter_chain[block] as int] by {
            if t.voter_level.contains_key(block) {
                let i = choose|i: int|
                    0 <= i < list.len() && list[i] == (block, t.voter_chain[block]);
                assert(list[i].0 == block);
            }
        }
    }
    assert(nodes == all.nodes);
    assert(drawn_once(strict, t, votes, all));
    let parents = parent_edges(t.parent, blocks);
    lemma_parent_edges(strict, t.parent, blocks);
    let keep = |edge: Edge| visible(proposers, nodes, edge);
    assert(view.edges == (parents + all.edges).filter(keep));
    lemma_concat_edges(parents, all.edges);
    lemma_filter_once(parents + all.edges, keep);
    assert forall|edge: Edge| #[trigger] parents.contains(edge) implies !all.edges.contains(
        edge,
    ) by {
        assert(!drawn(t, votes, all.nodes, edge));
    }
    assert forall|edge: Edge| #[trigger] view.edges.contains(edge) <==> {
        &&& proposers.contains_key(edge.from) || nodes.contains_key(edge.from)
        &&& proposers.contains_key(edge.to) || nodes.contains_key(edge.to)
        &&& match edge.edgetype {
            EdgeType::ProposerToProposerParent => proposers.contains_key(edge.from)
                && t.parent.contains_key(edge.from) && t.parent[edge.from] == edge.to,
            EdgeType::VoterToVoterParent => nodes.contains_key(edge.from)
                && t.voter_parent.contains_key(edge.from) && t.voter_parent[edge.from] == edge.to,
            EdgeType::VoterToProposerVote => nodes.contains_key(edge.from) && (if on_best_chain(
                state,
                t,
                edge.from,
            ) {
                proposers.contains_key(edge.to) && list_at(t.node_votes, edge.to).contains(
                    (t.voter_chain[edge.from], t.voter_level[edge.from]),
                )
            } else {
                t.votes[edge.from].contains(edge.to)
            }),
        }
    } by {
        assert((parents + all.edges).contains(edge) <==> parents.contains(edge)
            || all.edges.contains(edge));
        assert(all.edges.contains(edge) <==> drawn(t, votes, all.nodes, edge));
        assert(proposers.contains_key(edge.from) || !proposers.contains_key(edge.from));
        if nodes.contains_key(edge.from) {
            assert(votes.contains(
                (edge.to, (nodes[edge.from].chain, nodes[edge.from].level)),
            ) <==> proposers.contains_key(edge.to) && list_at(t.node_votes, edge.to).contains(
                (t.voter_chain[edge.from], t.voter_level[edge.from]),
            ));
        }
    }
}

/// The picture shows, of each voter chain, the best block and its ancestors from the lowest level
/// on that votes for a proposer block that is shown. If all voter blocks are listed, the others
/// from that level on are shown too, as orphans. Each is shown with its chain, its level and the
/// level that it has voted up to.
///
/// The edges are those between blocks that are shown: from proposer blocks to their parents, from
/// voter blocks to their voter parents, and from voter blocks to the blocks that they vote for,
/// which are those with a counted vote from there if the voter block is not an orphan.
pub proof fn law_voters_and_edges_shown(
    state: ChainState,
    t: Records,
    voters: Option<Seq<(H256, u16)>>,
    limit: u64,
    bottom: u64,
    lows: Seq<u64>,
)
    requires
        state.wf(),
        voters_placed(state, t),
        proposers_placed(t),
        picture(state, t, voters, limit) is Some,
        state.proposer_ledger_tip > limit ==> bottom + limit == state.proposer_ledger_tip,
        state.proposer_ledger_tip <= limit ==> bottom == 0,
        voters matches Some(list) ==> {
            &&& forall|i: int|
                0 <= i < list.len() ==> t.voter_level.contains_key((#[trigger] list[i]).0)
                    && t.voter_chain[list[i].0] == list[i].1
            &&& forall|block: H256| #[trigger]
                t.voter_level.contains_key(block) ==> list.contains((block, t.voter_chain[block]))
        },
        lows.len() == state.voter_best.len(),
        forall|chain: u16|
            chain < lows.len() ==> lowest_shown(
                t,
                picture(state, t, voters, limit).unwrap().proposer_nodes.dom(),
                chain,
                state.voter_best[chain as int].1,
                #[trigger] lows[chain as int],
            ),
    ensures
        ({
            let view = picture(state, t, voters, limit).unwrap();
            let nodes = view.voter_nodes;
            &&& forall|block: H256| #[trigger]
                nodes.contains_key(block) <==> t.voter_level.contains_key(block)
                    && t.voter_level[block] >= lows[t.voter_chain[block] as int] && (voters is Some
                    || on_best_chain(state, t, block))
            &&& forall|block: H256| #[trigger]
                nodes.contains_key(block) ==> {
                    &&& nodes[block].chain == t.voter_chain[block]
                    &&& nodes[block].level == t.voter_level[block]
                    &&& nodes[block].deepest_vote_level == t.voted_level[block]
                    &&& nodes[block].status is OnMainChain <==> on_best_chain(state, t, block)
                }
            &&& forall|edge: Edge| #[trigger]
                view.edges.contains(edge) <==> {
                    &&& view.proposer_nodes.contains_key(edge.from) || nodes.contains_key(edge.from)
                    &&& view.proposer_nodes.contains_key(edge.to) || nodes.contains_key(edge.to)
                    &&& match edge.edgetype {
                        EdgeType::ProposerToProposerParent => view.proposer_nodes.contains_key(
                            edge.from,
                        ) && t.parent.contains_key(edge.from) && t.parent[edge.from] == edge.to,
                        EdgeType::VoterToVoterParent => nodes.contains_key(edge.from)
                            && t.voter_parent.contains_key(edge.from) && t.voter_parent[edge.from]
                            == edge.to,
                        EdgeType::VoterToProposerVote => nodes.contains_key(edge.from) && (
                        if on_best_chain(state, t, edge.from) {
                            view.proposer_nodes.contains_key(edge.to) && list_at(
                                t.node_votes,
                                edge.to,
                            ).contains((t.voter_chain[edge.from], t.voter_level[edge.from]))
                        } else {
                            t.votes[edge.from].contains(edge.to)
                        }),
                    }
                }
        }),
{
    lemma_graph_shown(false, state, t, voters, limit, bottom, lows);
}

/// In a consistent chain every block is in its place.
pub proof fn law_consistent_is_placed(state: ChainState, t: Records)
    requires
        consistent(state, t),
    ensures
        voters_placed(state, t),
        proposers_placed(t),
{
    assert forall|block: H256| #[trigger] t.voter_level.contains_key(block) implies voter_placed(
        state,
        t,
        block,
    ) by {
        assert(voter_fits(state, t, block));
    }
    assert forall|chain: u16| chain < state.voter_best.len() implies at(
        t.voter_level,
        (#[trigger] state.voter_best[chain as int]).0,
    ) == Some(state.voter_best[chain as int].1) && at(
        t.voter_chain,
        state.voter_best[chain as int].0,
    ) == Some(chain) by {
        assert(chain_fits(state, t, chain as int));
    }
    assert forall|level: u64, i: int|
        t.tree.contains_key(level) && 0 <= i < t.tree[level].len() implies at(
        t.proposer_level,
        #[trigger] t.tree[level][i],
    ) == Some(level) by {
        assert(level_fits(t, level));
    }
    assert forall|block: H256| #[trigger] t.proposer_level.contains_key(
        block,
    ) implies t.tree.contains_key(t.proposer_level[block])
        && t.tree[t.proposer_level[block]].contains(block) by {
        assert(proposer_fits(t, block));
    }
}

/// In a consistent chain no edge is shown twice.
pub proof fn law_edges_are_shown_once(
    state: ChainState,
    t: Records,
    voters: Option<Seq<(H256, u16)>>,
    limit: u64,
    bottom: u64,
    lows: Seq<u64>,
)
    requires
        consistent(state, t),
        picture(state, t, voters, limit) is Some,
        state.proposer_ledger_tip > limit ==> bottom + limit == state.proposer_ledger_tip,
        state.proposer_ledger_tip <= limit ==> bottom == 0,
        voters matches Some(list) ==> {
            &&& forall|i: int|
                0 <= i < list.len() ==> t.voter_level.contains_key((#[trigger] list[i]).0)
                    && t.voter_chain[list[i].0] == list[i].1
            &&& forall|block: H256| #[trigger]
                t.voter_level.contains_key(block) ==> list.contains((block, t.voter_chain[block]))
        },
        lows.len() == state.voter_best.len(),
        forall|chain: u16|
            chain < lows.len() ==> lowest_shown(
                t,
                picture(state, t, voters, limit).unwrap().proposer_nodes.dom(),
                chain,
                state.voter_best[chain as int].1,
                #[trigger] lows[chain as int],
            ),
    ensures
        picture(state, t, voters, limit).unwrap().edges.no_duplicates(),
{
    law_consistent_is_placed(state, t);
    assert forall|level: u64| #[trigger] t.tree.contains_key(
        level,
    ) implies t.tree[level].no_duplicates() by {
        assert(level_fits(t, level));
    }
    assert forall|block: H256| #[trigger] t.voter_level.contains_key(
        block,
    ) implies t.votes[block].no_duplicates() by {
        lemma_cast_once(state, t, block);
    }
    lemma_graph_shown(true, state, t, voters, limit, bottom, lows);
}

} // verus!
