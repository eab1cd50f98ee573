//! The order in which the picture has its edges.

use vstd::prelude::*;

use crate::block::H256;
use crate::chain::ChainState;
use crate::dump::{
    link_edge, lowest, main_chain, main_chains, parent_edges, picture, shown, visible, vote_edges,
    votes_at, votes_for, with_chain, with_forks, Edge, EdgeType, Graph,
};
use crate::flat::lemma_flatten_last;
use crate::graph_laws::{
    lemma_forks_shown, lemma_lows, lemma_main_chain_blocks, lemma_main_chains_shown, lowest_shown,
    on_best_chain, proposers_placed, voter_placed, voters_placed,
};
use crate::store::{list_at, Records};
use crate::vote_laws::nth_parent;

verus! {

proof fn lemma_shown_flat(levels: Seq<Seq<H256>>, bottom: u64, n: nat)
    requires
        n <= levels.len(),
    ensures
        shown(levels, bottom, n).map_values(|pair: (H256, u64)| pair.0) == levels.subrange(
            0,
            n as int,
        ).flatten(),
    decreases n,
{
    let first = levels.subrange(0, n as int);
    let blocks = shown(levels, bottom, n).map_values(|pair: (H256, u64)| pair.0);
    if n > 0 {
        lemma_shown_flat(levels, bottom, (n - 1) as nat);
        lemma_flatten_last(first);
        assert(first.drop_last() =~= levels.subrange(0, n - 1));
        assert(blocks =~= shown(levels, bottom, (n - 1) as nat).map_values(
            |pair: (H256, u64)| pair.0,
        ) + levels[n - 1]);
    } else {
        assert(first =~= Seq::empty());
        assert(first.flatten() =~= Seq::empty());
        assert(blocks =~= Seq::empty());
    }
}

proof fn lemma_parent_edges_flat(parent: Map<H256, H256>, blocks: Seq<(H256, u64)>)
    ensures
        parent_edges(parent, blocks) == blocks.map_values(
            |pair: (H256, u64)|
                link_edge(parent, pair.0, EdgeType::ProposerToProposerParent),
        ).flatten(),
    decreases blocks.len(),
{
    let lists = blocks.map_values(
        |pair: (H256, u64)| link_edge(parent, pair.0, EdgeType::ProposerToProposerParent),
    );
    if blocks.len() > 0 {
        lemma_parent_edges_flat(parent, blocks.drop_last());
        lemma_flatten_last(lists);
        assert(lists.drop_last() =~= blocks.drop_last().map_values(
            |pair: (H256, u64)| link_edge(parent, pair.0, EdgeType::ProposerToProposerParent),
        ));
    } else {
        assert(lists =~= Seq::empty());
        assert(lists.flatten() =~= Seq::empty());
    }
}

proof fn lemma_votes_flat(votes: Map<H256, Seq<(u16, u64)>>, blocks: Seq<(H256, u64)>)
    ensures
        votes_for(votes, blocks) == blocks.map_values(
            |pair: (H256, u64)|
                list_at(votes, pair.0).map_values(|vote: (u16, u64)| (pair.0, vote)),
        ).flatten(),
    decreases blocks.len(),
{
    let lists = blocks.map_values(
        |pair: (H256, u64)| list_at(votes, pair.0).map_values(|vote: (u16, u64)| (pair.0, vote)),
    );
    if blocks.len() > 0 {
        lemma_votes_flat(votes, blocks.drop_last());
        lemma_flatten_last(lists);
        assert(lists.drop_last() =~= blocks.drop_last().map_values(
            |pair: (H256, u64)|
                list_at(votes, pair.0).map_values(|vote: (u16, u64)| (pair.0, vote)),
        ));
        let block = blocks.last().0;
        assert(lists.last() =~= list_at(votes, block).map_values(
            |vote: (u16, u64)| (block, vote),
        ));
    } else {
        assert(lists =~= Seq::empty());
        assert(lists.flatten() =~= Seq::empty());
    }
}

proof fn lemma_votes_at_filter(votes: Seq<(H256, (u16, u64))>, chain: u16, level: u64)
    ensures
        votes_at(votes, chain, level) == votes.filter(
            |vote: (H256, (u16, u64))| vote.1 == (chain, level),
        ).map_values(|vote: (H256, (u16, u64))| vote.0),
    decreases votes.len(),
{
    reveal(Seq::filter);
    let keep = |vote: (H256, (u16, u64))| vote.1 == (chain, level);
    let first = |vote: (H256, (u16, u64))| vote.0;
    if votes.len() > 0 {
        lemma_votes_at_filter(votes.drop_last(), chain, level);
        let before = votes.drop_last().filter(keep);
        if keep(votes.last()) {
            assert(votes.filter(keep) == before.push(votes.last()));
            assert(before.push(votes.last()).map_values(first) =~= before.map_values(first).push(
                votes.last().0,
            ));
        } else {
            assert(votes.filter(keep) == before);
        }
    } else {
        assert(votes.filter(keep) =~= Seq::empty());
        assert(votes.filter(keep).map_values(first) =~= Seq::empty());
    }
}

/// The edges of a block of a main chain.
spec fn main_edges(
    t: Records,
    votes: Seq<(H256, (u16, u64))>,
    chain: u16,
    block: H256,
    level: u64,
) -> Seq<Edge> {
    vote_edges(block, votes_at(votes, chain, level)) + link_edge(
        t.voter_parent,
        block,
        EdgeType::VoterToVoterParent,
    )
}

proof fn lemma_with_chain_edges(
    t: Records,
    votes: Seq<(H256, (u16, u64))>,
    graph: Graph,
    chain: u16,
    blocks: Seq<(H256, u64)>,
)
    ensures
        with_chain(t, votes, graph, chain, blocks).edges == graph.edges + blocks.map_values(
            |pair: (H256, u64)| main_edges(t, votes, chain, pair.0, pair.1),
        ).flatten(),
    decreases blocks.len(),
{
    let lists = blocks.map_values(
        |pair: (H256, u64)| main_edges(t, votes, chain, pair.0, pair.1),
    );
    if blocks.len() > 0 {
        lemma_with_chain_edges(t, votes, graph, chain, blocks.drop_last());
        lemma_flatten_last(lists);
        let some = lists.drop_last();
        assert(some =~= blocks.drop_last().map_values(
            |pair: (H256, u64)| main_edges(t, votes, chain, pair.0, pair.1),
        ));
        let (block, level) = blocks.last();
        let before = with_chain(t, votes, graph, chain, blocks.drop_last()).edges;
        let cast = vote_edges(block, votes_at(votes, chain, level));
        let link = link_edge(t.voter_parent, block, EdgeType::VoterToVoterParent);
        assert(lists.last() == cast + link);
        assert(before + cast + link =~= graph.edges + (some.flatten() + (cast + link)));
    } else {
        assert(lists =~= Seq::empty());
        assert(lists.flatten() =~= Seq::empty());
        assert(graph.edges + lists.flatten() =~= graph.edges);
    }
}

/// The edges of the blocks of a main chain, from the best block down.
spec fn chain_edges(
    state: ChainState,
    t: Records,
    votes: Seq<(H256, (u16, u64))>,
    lows: Seq<u64>,
    chain: int,
) -> Seq<Edge> {
    let (best, level) = state.voter_best[chain];
    Seq::new(
        (level - lows[chain] + 1) as nat,
        |k: int|
            main_edges(
                t,
                votes,
                chain as u16,
                nth_parent(t.voter_parent, best, k as nat),
                (level - k) as u64,
            ),
    ).flatten()
}

proof fn lemma_main_chains_edges(
    state: ChainState,
    t: Records,
    votes: Seq<(H256, (u16, u64))>,
    lows: Seq<u64>,
    n: nat,
)
    requires
        state.wf(),
        voters_placed(state, t),
        n <= state.voter_best.len() == lows.len(),
        forall|chain: u16|
            chain < lows.len() ==> #[trigger] lows[chain as int] == lowest(
                votes,
                chain,
                state.voter_best[chain as int].1,
            ) && lows[chain as int] <= state.voter_best[chain as int].1,
        main_chains(state, t, votes, n) is Some,
    ensures
        main_chains(state, t, votes, n).unwrap().edges == Seq::new(
            n,
            |chain: int| chain_edges(state, t, votes, lows, chain),
        ).flatten(),
    decreases n,
{
    let lists = Seq::new(n, |chain: int| chain_edges(state, t, votes, lows, chain));
    if n > 0 {
        let k = (n - 1) as nat;
        let chain = k as u16;
        lemma_main_chains_edges(state, t, votes, lows, k);
        lemma_flatten_last(lists);
        assert(lists.drop_last() =~= Seq::new(
            k,
            |chain: int| chain_edges(state, t, votes, lows, chain),
        ));
        let (best, level) = state.voter_best[chain as int];
        assert(lows[chain as int] == lowest(votes, chain, level));
        let low = lows[k as int];
        lemma_main_chain_blocks(state, t, best, low);
        let blocks = main_chain(t, best, level, low).unwrap();
        let graph = main_chains(state, t, votes, k).unwrap();
        lemma_with_chain_edges(t, votes, graph, chain, blocks);
        assert(blocks.map_values(
            |pair: (H256, u64)| main_edges(t, votes, chain, pair.0, pair.1),
        ) =~= Seq::new(
            (level - lows[k as int] + 1) as nat,
            |i: int|
                main_edges(
                    t,
                    votes,
                    k as int as u16,
                    nth_parent(t.voter_parent, best, i as nat),
                    (level - i) as u64,
                ),
        ));
    } else {
        assert(lists =~= Seq::empty());
        assert(lists.flatten() =~= Seq::empty());
    }
}

/// The edges of an entry of a list of voter blocks, if it is shown as an orphan.
spec fn fork_edges(
    state: ChainState,
    t: Records,
    lows: Seq<u64>,
    listed: Seq<(H256, u16)>,
    index: int,
) -> Seq<Edge> {
    let block = listed[index].0;
    if t.voter_level[block] >= lows[t.voter_chain[block] as int] && !on_best_chain(state, t, block)
        && forall|j: int| 0 <= j < index ==> (#[trigger] listed[j]).0 != block {
        vote_edges(block, t.votes[block]) + link_edge(
            t.voter_parent,
            block,
            EdgeType::VoterToVoterParent,
        )
    } else {
        Seq::empty()
    }
}

proof fn lemma_forks_edges(
    state: ChainState,
    t: Records,
    votes: Seq<(H256, (u16, u64))>,
    lows: Seq<u64>,
    listed: Seq<(H256, u16)>,
    n: nat,
)
    requires
        state.wf(),
        voters_placed(state, t),
        n <= listed.len(),
        state.voter_best.len() == lows.len(),
        forall|chain: u16|
            chain < lows.len() ==> #[trigger] lows[chain as int] == lowest(
                votes,
                chain,
                state.voter_best[chain as int].1,
            ),
        forall|i: int|
            0 <= i < listed.len() ==> t.voter_level.contains_key((#[trigger] listed[i]).0)
                && t.voter_chain[listed[i].0] == listed[i].1,
        main_chains(state, t, votes, state.voter_best.len()) matches Some(graph) && with_forks(
            state,
            t,
            votes,
            graph,
            listed,
            n,
        ) is Some,
    ensures
        ({
            let graph = main_chains(state, t, votes, state.voter_best.len()).unwrap();
            with_forks(state, t, votes, graph, listed, n).unwrap().edges == graph.edges + Seq::new(
                n,
                |i: int| fork_edges(state, t, lows, listed, i),
            ).flatten()
        }),
    decreases n,
{
    let all = state.voter_best.len();
    let graph = main_chains(state, t, votes, all).unwrap();
    let lists = Seq::new(n, |i: int| fork_edges(state, t, lows, listed, i));
    if n > 0 {
        let k = (n - 1) as nat;
        lemma_forks_edges(state, t, votes, lows, listed, k);
        lemma_flatten_last(lists);
        let some = lists.drop_last();
        assert(some =~= Seq::new(k, |i: int| fork_edges(state, t, lows, listed, i)));
        lemma_main_chains_shown(false, state, t, votes, lows, all);
        assert forall|i: int| 0 <= i < listed.len() implies t.voter_chain[(#[trigger] listed[i]).0]
            == listed[i].1 by {}
        lemma_forks_shown(false, state, t, votes, lows, graph, listed, k);
        let before = with_forks(state, t, votes, graph, listed, k).unwrap();
        let (block, chain) = listed[k as int];
        assert(voter_placed(state, t, block));
        assert(lows[chain as int] == lowest(votes, chain, state.voter_best[chain as int].1));
        let cast = vote_edges(block, t.votes[block]);
        let link = link_edge(t.voter_parent, block, EdgeType::VoterToVoterParent);
        let low_enough = t.voter_level[block] >= lows[chain as int];
        let fresh = forall|j: int| 0 <= j < k ==> (#[trigger] listed[j]).0 != block;
        if low_enough {
            assert(before.nodes.contains_key(block) <==> on_best_chain(state, t, block) || !fresh)
                by {
                if !fresh {
                    let j = choose|j: int| 0 <= j < k && (#[trigger] listed[j]).0 == block;
                    assert(t.voter_level[block] >= lows[listed[j].1 as int]);
                }
            }
        }
        if low_enough && !on_best_chain(state, t, block) && fresh {
            assert(lists.last() == cast + link);
            assert(before.edges + cast + link =~= graph.edges + (some.flatten() + (cast + link)));
        } else {
            assert(lists.last() =~= Seq::empty());
            assert(some.flatten() + lists.last() =~= some.flatten());
        }
    } else {
        assert(lists =~= Seq::empty());
        assert(lists.flatten() =~= Seq::empty());
        assert(graph.edges + lists.flatten() =~= graph.edges);
    }
}

/// The edges of the picture, in order: first those of the proposer blocks to their parents, level
/// by level; then those of the main chains, chain by chain and from the best block down, each
/// block's votes, in the order of the votes for the proposer blocks that are shown, and its link to
/// its voter parent; and then, if voter blocks are listed, those of the orphans, in the order in
/// which they are listed first, each one's votes and its link to its voter parent. Of these, those
/// are shown that are between blocks that are shown.
pub proof fn law_order_of_edges(
    state: ChainState,
    t: Records,
    voters: Option<Seq<(H256, u16)>>,
    limit: u64,
    bottom: u64,
    lows: Seq<u64>,
)
    requires
        state.wf(),
        voters_placed(state, t),
        proposers_placed(t),
        picture(state, t, voters, limit) is Some,
        state.proposer_ledger_tip > limit ==> bottom + limit == state.proposer_ledger_tip,
        state.proposer_ledger_tip <= limit ==> bottom == 0,
        voters matches Some(list) ==> {
            &&& forall|i: int|
                0 <= i < list.len() ==> t.voter_level.contains_key((#[trigger] list[i]).0)
                    && t.voter_chain[list[i].0] == list[i].1
            &&& forall|block: H256| #[trigger]
                t.voter_level.contains_key(block) ==> list.contains((block, t.voter_chain[block]))
        },
        lows.len() == state.voter_best.len(),
        forall|chain: u16|
            chain < lows.len() ==> lowest_shown(
                t,
                picture(state, t, voters, limit).unwrap().proposer_nodes.dom(),
                chain,
                state.voter_best[chain as int].1,
                #[trigger] lows[chain as int],
            ),
    ensures
        ({
            let view = picture(state, t, voters, limit).unwrap();
            let blocks = view.proposer_levels.flatten();
            let votes = blocks.map_values(
                |block: H256|
                    list_at(t.node_votes, block).map_values(|vote: (u16, u64)| (block, vote)),
            ).flatten();
            let parents = blocks.map_values(
                |block: H256|
                    if t.parent.contains_key(block) {
                        seq![
                            Edge {
                                from: block,
                                to: t.parent[block],
                                edgetype: EdgeType::ProposerToProposerParent,
                            },
                        ]
                    } else {
                        Seq::empty()
                    },
            ).flatten();
            let mains = Seq::new(
                state.voter_best.len(),
                |chain: int|
                    Seq::new(
                        (state.voter_best[chain].1 - lows[chain] + 1) as nat,
                        |k: int|
                            votes.filter(
                                |vote: (H256, (u16, u64))|
                                    vote.1 == (
                                        chain as u16,
                                        (state.voter_best[chain].1 - k) as u64,
                                    ),
                            ).map_values(
                                |vote: (H256, (u16, u64))|
                                    Edge {
                                        from: nth_parent(
                                            t.voter_parent,
                                            state.voter_best[chain].0,
                                            k as nat,
                                        ),
                                        to: vote.0,
                                        edgetype: EdgeType::VoterToProposerVote,
                                    },
                            ) + voter_link(
                                t,
                                nth_parent(t.voter_parent, state.voter_best[chain].0, k as nat),
                            ),
                    ).flatten(),
            ).flatten();
            let forks = match voters {
                Some(list) => Seq::new(
                    list.len(),
                    |i: int|
                        if t.voter_level[list[i].0] >= lows[t.voter_chain[list[i].0] as int]
                            && !on_best_chain(state, t, list[i].0) && forall|j: int|
                            0 <= j < i ==> (#[trigger] list[j]).0 != list[i].0 {
                            t.votes[list[i].0].map_values(
                                |vote: H256|
                                    Edge {
                                        from: list[i].0,
                                        to: vote,
                                        edgetype: EdgeType::VoterToProposerVote,
                                    },
                            ) + voter_link(t, list[i].0)
                        } else {
                            Seq::empty()
                        },
                ).flatten(),
                None => Seq::empty(),
            };
            view.edges == (parents + (mains + forks)).filter(
                |edge: Edge|
                    (view.proposer_nodes.contains_key(edge.from) || view.voter_nodes.contains_key(
                        edge.from,
                    )) && (view.proposer_nodes.contains_key(edge.to)
                        || view.voter_nodes.contains_key(edge.to)),
            )
        }),
{
    let view = picture(state, t, voters, limit).unwrap();
    let levels = view.proposer_levels;
    let n = state.voter_best.len();
    let pairs = shown(levels, bottom, levels.len());
    let votes = votes_for(t.node_votes, pairs);
    lemma_lows(false, state, t, voters, limit, bottom, lows);
    let graph = main_chains(state, t, votes, n).unwrap();
    // the blocks and the votes
    lemma_shown_flat(levels, bottom, levels.len());
    assert(levels.subrange(0, levels.len() as int) =~= levels);
    let blocks = levels.flatten();
    assert(pairs.map_values(|pair: (H256, u64)| pair.0) == blocks);
    assert forall|i: int| 0 <= i < pairs.len() implies (#[trigger] pairs[i]).0 == blocks[i] by {
        assert(pairs.map_values(|pair: (H256, u64)| pair.0)[i] == pairs[i].0);
    }
    lemma_votes_flat(t.node_votes, pairs);
    let vote_lists = blocks.map_values(
        |block: H256| list_at(t.node_votes, block).map_values(|vote: (u16, u64)| (block, vote)),
    );
    assert(vote_lists =~= pairs.map_values(
        |pair: (H256, u64)|
            list_at(t.node_votes, pair.0).map_values(|vote: (u16, u64)| (pair.0, vote)),
    ));
    assert(votes == vote_lists.flatten());
    lemma_parent_edges_flat(t.parent, pairs);
    let parent_lists = blocks.map_values(
        |block: H256|
            if t.parent.contains_key(block) {
                seq![
                    Edge {
                        from: block,
                        to: t.parent[block],
                        edgetype: EdgeType::ProposerToProposerParent,
                    },
                ]
            } else {
                Seq::empty()
            },
    );
    assert(parent_lists =~= pairs.map_values(
        |pair: (H256, u64)| link_edge(t.parent, pair.0, EdgeType::ProposerToProposerParent),
    ));
    // the main chains
    assert forall|chain: u16| chain < lows.len() implies #[trigger] lows[chain as int] == lowest(
        votes,
        chain,
        state.voter_best[chain as int].1,
    ) && lows[chain as int] <= state.voter_best[chain as int].1 by {}
    lemma_main_chains_edges(state, t, votes, lows, n);
    let mains = Seq::new(
        n,
        |chain: int|
            Seq::new(
                (state.voter_best[chain].1 - lows[chain] + 1) as nat,
                |k: int|
                    votes.filter(
                        |vote: (H256, (u16, u64))|
                            vote.1 == (chain as u16, (state.voter_best[chain].1 - k) as u64),
                    ).map_values(
                        |vote: (H256, (u16, u64))|
                            Edge {
                                from: nth_parent(
                                    t.voter_parent,
                                    state.voter_best[chain].0,
                                    k as nat,
                                ),
                                to: vote.0,
                                edgetype: EdgeType::VoterToProposerVote,
                            },
                    ) + voter_link(
                        t,
                        nth_parent(t.voter_parent, state.voter_best[chain].0, k as nat),
                    ),
            ).flatten(),
    );
    assert forall|chain: int| 0 <= chain < n implies #[trigger] mains[chain] == chain_edges(
        state,
        t,
        votes,
        lows,
        chain,
    ) by {
        let (best, level) = state.voter_best[chain];
        let mine = Seq::new(
            (level - lows[chain] + 1) as nat,
            |k: int|
                main_edges(
                    t,
                    votes,
                    chain as u16,
                    nth_parent(t.voter_parent, best, k as nat),
                    (level - k) as u64,
                ),
        );
        let other = Seq::new(
            (state.voter_best[chain].1 - lows[chain] + 1) as nat,
            |k: int|
                votes.filter(
                    |vote: (H256, (u16, u64))|
                        vote.1 == (chain as u16, (state.voter_best[chain].1 - k) as u64),
                ).map_values(
                    |vote: (H256, (u16, u64))|
                        Edge {
                            from: nth_parent(t.voter_parent, state.voter_best[chain].0, k as nat),
                            to: vote.0,
                            edgetype: EdgeType::VoterToProposerVote,
                        },
                ) + voter_link(
                    t,
                    nth_parent(t.voter_parent, state.voter_best[chain].0, k as nat),
                ),
        );
        assert forall|k: int| 0 <= k < mine.len() implies #[trigger] mine[k] == other[k] by {
            let block = nth_parent(t.voter_parent, best, k as nat);
            let from = (level - k) as u64;
            lemma_votes_at_filter(votes, chain as u16, from);
            let kept = votes.filter(
                |vote: (H256, (u16, u64))| vote.1 == (chain as u16, from),
            );
            let drawn = kept.map_values(
                |vote: (H256, (u16, u64))|
                    Edge { from: block, to: vote.0, edgetype: EdgeType::VoterToProposerVote },
            );
            assert(vote_edges(block, votes_at(votes, chain as u16, from)) =~= drawn);
            lemma_same_filter(
                votes,
                |vote: (H256, (u16, u64))| vote.1 == (chain as u16, from),
                |vote: (H256, (u16, u64))|
                    vote.1 == (chain as u16, (state.voter_best[chain].1 - k) as u64),
            );
            assert(other[k] =~= drawn + voter_link(t, block));
        }
        assert(mine =~= other);
    }
    assert(mains =~= Seq::new(n, |chain: int| chain_edges(state, t, votes, lows, chain)));
    // the forks
    let all = match voters {
        Some(list) => with_forks(state, t, votes, graph, list, list.len()).unwrap(),
        None => graph,
    };
    if let Some(list) = voters {
        lemma_forks_edges(state, t, votes, lows, list, list.len());
        let forks = Seq::new(
            list.len(),
            |i: int|
                if t.voter_level[list[i].0] >= lows[t.voter_chain[list[i].0] as int]
                    && !on_best_chain(state, t, list[i].0) && forall|j: int|
                    0 <= j < i ==> (#[trigger] list[j]).0 != list[i].0 {
                    t.votes[list[i].0].map_values(
                        |vote: H256|
                            Edge {
                                from: list[i].0,
                                to: vote,
                                edgetype: EdgeType::VoterToProposerVote,
                            },
                    ) + voter_link(t, list[i].0)
                } else {
                    Seq::empty()
                },
        );
        assert forall|i: int| 0 <= i < list.len() implies #[trigger] forks[i] == fork_edges(
            state,
            t,
            lows,
            list,
            i,
        ) by {
            assert(forks[i] =~= fork_edges(state, t, lows, list, i));
        }
        assert(forks =~= Seq::new(list.len(), |i: int| fork_edges(state, t, lows, list, i)));
        assert(all.edges == mains.flatten() + forks.flatten());
    } else {
        assert(mains.flatten() + Seq::<Edge>::empty() =~= mains.flatten());
    }
    lemma_same_edge_filter(
        parent_lists.flatten() + all.edges,
        |edge: Edge| visible(view.proposer_nodes, view.voter_nodes, edge),
        |edge: Edge|
            (view.proposer_nodes.contains_key(edge.from) || view.voter_nodes.contains_key(
                edge.from,
            )) && (view.proposer_nodes.contains_key(edge.to) || view.voter_nodes.contains_key(
                edge.to,
            )),
    );
}

/// The edge from a voter block to its voter parent, if it has one.
pub open spec fn voter_link(t: Records, block: H256) -> Seq<Edge> {
    if t.voter_parent.contains_key(block) {
        seq![
            Edge {
                from: block,
                to: t.voter_parent[block],
                edgetype: EdgeType::VoterToVoterParent,
            },
        ]
    } else {
        Seq::empty()
    }
}

proof fn lemma_same_filter(
    list: Seq<(H256, (u16, u64))>,
    a: spec_fn((H256, (u16, u64))) -> bool,
    b: spec_fn((H256, (u16, u64))) -> bool,
)
    requires
        forall|vote: (H256, (u16, u64))| #[trigger] a(vote) == b(vote),
    ensures
        list.filter(a) == list.filter(b),
{
    assert(a =~= b);
}

proof fn lemma_same_edge_filter(
    list: Seq<Edge>,
    a: spec_fn(Edge) -> bool,
    b: spec_fn(Edge) -> bool,
)
    requires
        forall|edge: Edge| #[trigger] a(edge) == b(edge),
    ensures
        list.filter(a) == list.filter(b),
{
    assert(a =~= b);
}

} // verus!
