//! A picture of the chain, for display: the blocks near the tip of the ledger, and how they are
//! linked.

use std::collections::BTreeMap;

use vstd::prelude::*;

use crate::block::H256;
use crate::chain::{BlockChain, ChainState};
use crate::ledger::{
    all_levels, erased, ledger_between, ledger_blocks, transaction_blocks, transactions_of,
};
use crate::store::{
    answers, at, callable, decode_voters, leader_at_level, level_under, link_under, list_at,
    list_at_level, list_under, required, settles, voters_in, votes_under, Column, Error, Records,
};

verus! {

broadcast use {vstd::laws_cmp::group_laws_cmp, vstd::std_specs::btree::group_btree_axioms};

/// What an edge stands for.
#[derive(Clone, Copy, Debug, PartialEq, Eq, Structural)]
pub enum EdgeType {
    VoterToVoterParent,
    ProposerToProposerParent,
    VoterToProposerVote,
}

/// A link between two blocks.
#[derive(Debug, PartialEq, Eq)]
pub struct Edge {
    pub from: H256,
    pub to: H256,
    pub edgetype: EdgeType,
}

/// Whether a proposer block leads its level.
#[derive(Clone, Copy, Debug, PartialEq, Eq, Structural)]
pub enum ProposerStatus {
    Leader,
    Others,
}

/// What is shown of a proposer block.
#[derive(Clone, Copy, Debug, PartialEq, Eq, Structural)]
pub struct Proposer {
    pub level: u64,
    pub status: ProposerStatus,
    pub votes: u16,
}

/// Whether a voter block is on the chain of the best block.
#[derive(Clone, Copy, Debug, PartialEq, Eq, Structural)]
pub enum VoterStatus {
    OnMainChain,
    Orphan,
}

/// What is shown of a voter block.
#[derive(Clone, Copy, Debug, PartialEq, Eq, Structural)]
pub struct Voter {
    pub chain: u16,
    pub level: u64,
    pub status: VoterStatus,
    pub deepest_vote_level: u64,
}

/// A picture of the chain.
#[derive(Debug)]
pub struct Dump {
    /// The links between the blocks that are shown.
    pub edges: Vec<Edge>,
    /// The proposer blocks that are shown, by level.
    pub proposer_levels: Vec<Vec<H256>>,
    /// The leaders of the levels that are shown.
    pub proposer_leaders: BTreeMap<u64, H256>,
    /// The best block of each voter chain.
    pub voter_longest: Vec<H256>,
    /// The proposer blocks that are shown.
    pub proposer_nodes: BTreeMap<H256, Proposer>,
    /// The voter blocks that are shown.
    pub voter_nodes: BTreeMap<H256, Voter>,
    /// The transaction blocks of the levels of the ledger that are shown.
    pub transaction_in_ledger: Vec<H256>,
    /// The transaction blocks that no proposer block refers to.
    pub transaction_unreferred: Vec<H256>,
    /// The proposer blocks of the levels of the ledger that are shown.
    pub proposer_in_ledger: Vec<H256>,
    /// For each voter chain its number of levels and of blocks, as text; nothing if the blocks
    /// were not counted.
    pub voter_chain_number: Vec<String>,
    /// The number of proposer levels and blocks, as text.
    pub proposer_tree_number: String,
}

/// The lowest level of the ledger that is shown.
pub open spec fn bottom_level(tip: u64, limit: u64) -> u64 {
    if tip > limit {
        (tip - limit) as u64
    } else {
        0
    }
}

/// The first level from `level` on that has no proposer block.
pub open spec fn end_of(tree: Map<u64, Seq<H256>>, level: nat) -> nat
    decreases all_levels() - level,
{
    if level < all_levels() && tree.contains_key(level as u64) {
        end_of(tree, level + 1)
    } else {
        level
    }
}

/// The proposer blocks from level `bottom` on, by level, if the levels end.
pub open spec fn levels_of(tree: Map<u64, Seq<H256>>, bottom: u64) -> Option<Seq<Seq<H256>>> {
    let end = end_of(tree, bottom as nat);
    if end < all_levels() {
        Some(Seq::new((end - bottom) as nat, |i: int| tree[(bottom + i) as u64]))
    } else {
        None
    }
}

/// The blocks of the first `n` of some levels, each with its level.
pub open spec fn shown(levels: Seq<Seq<H256>>, bottom: u64, n: nat) -> Seq<(H256, u64)>
    decreases n,
{
    if n == 0 {
        Seq::empty()
    } else {
        let level = (bottom + n - 1) as u64;
        shown(levels, bottom, (n - 1) as nat) + levels[n - 1].map_values(
            |block: H256| (block, level),
        )
    }
}

/// The edge from a block along its link, if it has one.
pub open spec fn link_edge(links: Map<H256, H256>, block: H256, edgetype: EdgeType) -> Seq<Edge> {
    if links.contains_key(block) {
        seq![Edge { from: block, to: links[block], edgetype }]
    } else {
        Seq::empty()
    }
}

/// The edges from some blocks to others that they vote for.
pub open spec fn vote_edges(block: H256, votes: Seq<H256>) -> Seq<Edge> {
    votes.map_values(
        |vote: H256| Edge { from: block, to: vote, edgetype: EdgeType::VoterToProposerVote },
    )
}

/// The edges from proposer blocks to their parents.
pub open spec fn parent_edges(parent: Map<H256, H256>, blocks: Seq<(H256, u64)>) -> Seq<Edge>
    decreases blocks.len(),
{
    if blocks.len() == 0 {
        Seq::empty()
    } else {
        parent_edges(parent, blocks.drop_last()) + link_edge(
            parent,
            blocks.last().0,
            EdgeType::ProposerToProposerParent,
        )
    }
}

/// The proposer blocks that are shown, without their status.
pub open spec fn proposers(
    votes: Map<H256, Seq<(u16, u64)>>,
    blocks: Seq<(H256, u64)>,
) -> Map<H256, Proposer>
    decreases blocks.len(),
{
    if blocks.len() == 0 {
        Map::empty()
    } else {
        let (block, level) = blocks.last();
        proposers(votes, blocks.drop_last()).insert(
            block,
            Proposer {
                level,
                status: ProposerStatus::Others,
                votes: list_at(votes, block).len() as u16,
            },
        )
    }
}

/// The votes for some proposer blocks, each with the block that it is for.
pub open spec fn votes_for(
    votes: Map<H256, Seq<(u16, u64)>>,
    blocks: Seq<(H256, u64)>,
) -> Seq<(H256, (u16, u64))>
    decreases blocks.len(),
{
    if blocks.len() == 0 {
        Seq::empty()
    } else {
        let block = blocks.last().0;
        votes_for(votes, blocks.drop_last()) + list_at(votes, block).map_values(
            |vote: (u16, u64)| (block, vote),
        )
    }
}

/// Whether every vote is of one of the given number of voter chains.
pub open spec fn in_range(votes: Seq<(H256, (u16, u64))>, chains: nat) -> bool {
    forall|i: int| 0 <= i < votes.len() ==> (#[trigger] votes[i]).1.0 < chains
}

/// The lowest level on a voter chain that votes for a block that is shown; the best level of the
/// chain if there is none below it.
pub open spec fn lowest(votes: Seq<(H256, (u16, u64))>, chain: u16, best: u64) -> u64
    decreases votes.len(),
{
    if votes.len() == 0 {
        best
    } else {
        let before = lowest(votes.drop_last(), chain, best);
        let (of, level) = votes.last().1;
        if of == chain && level < before {
            level
        } else {
            before
        }
    }
}

/// The blocks that the voter block at a level of a chain votes for.
pub open spec fn votes_at(votes: Seq<(H256, (u16, u64))>, chain: u16, level: u64) -> Seq<H256>
    decreases votes.len(),
{
    if votes.len() == 0 {
        Seq::empty()
    } else {
        let before = votes_at(votes.drop_last(), chain, level);
        if votes.last().1 == (chain, level) {
            before.push(votes.last().0)
        } else {
            before
        }
    }
}

/// The blocks of a voter chain from a block down to the lowest level that is shown, each with its
/// level, if the chain is whole.
pub open spec fn main_chain(t: Records, block: H256, level: u64, low: u64) -> Option<
    Seq<(H256, u64)>,
>
    decreases level,
{
    if level < low {
        Some(Seq::empty())
    } else if !t.voted_level.contains_key(block) {
        None
    } else if !t.voter_parent.contains_key(block) {
        Some(seq![(block, level)])
    } else if level == 0 {
        None
    } else {
        match main_chain(t, t.voter_parent[block], (level - 1) as u64, low) {
            Some(rest) => Some(seq![(block, level)] + rest),
            None => None,
        }
    }
}

/// Voter blocks that are shown, and their edges.
#[verifier::ext_equal]
pub struct Graph {
    pub edges: Seq<Edge>,
    pub nodes: Map<H256, Voter>,
}

/// A graph with the blocks of a main chain added.
pub open spec fn with_chain(
    t: Records,
    votes: Seq<(H256, (u16, u64))>,
    graph: Graph,
    chain: u16,
    blocks: Seq<(H256, u64)>,
) -> Graph
    decreases blocks.len(),
{
    if blocks.len() == 0 {
        graph
    } else {
        let before = with_chain(t, votes, graph, chain, blocks.drop_last());
        let (block, level) = blocks.last();
        Graph {
            edges: before.edges + vote_edges(block, votes_at(votes, chain, level)) + link_edge(
                t.voter_parent,
                block,
                EdgeType::VoterToVoterParent,
            ),
            nodes: before.nodes.insert(
                block,
                Voter {
                    chain,
                    level,
                    status: VoterStatus::OnMainChain,
                    deepest_vote_level: t.voted_level[block],
                },
            ),
        }
    }
}

/// The main chains of the first `n` voter chains.
pub open spec fn main_chains(
    state: ChainState,
    t: Records,
    votes: Seq<(H256, (u16, u64))>,
    n: nat,
) -> Option<Graph>
    decreases n,
{
    if n == 0 {
        Some(Graph { edges: Seq::empty(), nodes: Map::empty() })
    } else {
        let chain = (n - 1) as u16;
        let (block, level) = state.voter_best[n - 1];
        match (
            main_chains(state, t, votes, (n - 1) as nat),
            main_chain(t, block, level, lowest(votes, chain, level)),
        ) {
            (Some(graph), Some(blocks)) => Some(with_chain(t, votes, graph, chain, blocks)),
            _ => None,
        }
    }
}

/// A graph with a voter block added, unless it is too low or in the graph already.
pub open spec fn with_fork(
    state: ChainState,
    t: Records,
    votes: Seq<(H256, (u16, u64))>,
    graph: Graph,
    block: H256,
    chain: u16,
) -> Option<Graph> {
    if chain >= state.voter_best.len() || !t.voter_level.contains_key(block) {
        None
    } else if t.voter_level[block] < lowest(votes, chain, state.voter_best[chain as int].1)
        || graph.nodes.contains_key(block) {
        Some(graph)
    } else if !t.voted_level.contains_key(block) || !t.votes.contains_key(block) {
        None
    } else {
        Some(
            Graph {
                edges: graph.edges + vote_edges(block, t.votes[block]) + link_edge(
                    t.voter_parent,
                    block,
                    EdgeType::VoterToVoterParent,
                ),
                nodes: graph.nodes.insert(
                    block,
                    Voter {
                        chain,
                        level: t.voter_level[block],
                        status: VoterStatus::Orphan,
                        deepest_vote_level: t.voted_level[block],
                    },
                ),
            },
        )
    }
}

/// A graph with the first `n` of all voter blocks added, but for those that are too low or in the
/// graph already.
pub open spec fn with_forks(
    state: ChainState,
    t: Records,
    votes: Seq<(H256, (u16, u64))>,
    graph: Graph,
    voters: Seq<(H256, u16)>,
    n: nat,
) -> Option<Graph>
    decreases n,
{
    if n == 0 {
        Some(graph)
    } else {
        match with_forks(state, t, votes, graph, voters, (n - 1) as nat) {
            Some(before) => with_fork(
                state,
                t,
                votes,
                before,
                voters[n - 1].0,
                voters[n - 1].1,
            ),
            None => None,
        }
    }
}

/// The number of voter blocks of a chain.
pub open spec fn count_of(voters: Seq<(H256, u16)>, chain: u16) -> nat
    decreases voters.len(),
{
    if voters.len() == 0 {
        0
    } else {
        count_of(voters.drop_last(), chain) + if voters.last().1 == chain {
            1nat
        } else {
            0nat
        }
    }
}

/// Whether a block leads one of the levels from `bottom` on and below `end`.
pub open spec fn leads(leader: Map<u64, H256>, bottom: nat, end: nat, block: H256) -> bool {
    exists|level: u64|
        bottom <= level < end && #[trigger] leader.contains_key(level) && leader[level] == block
}

/// The leaders of the levels from `bottom` on and below `end`.
pub open spec fn leaders_between(leader: Map<u64, H256>, bottom: nat, end: nat) -> Map<u64, H256> {
    Map::new(
        |level: u64| bottom <= level < end && leader.contains_key(level),
        |level: u64| leader[level],
    )
}

/// Proposer blocks with their status.
pub open spec fn with_status(
    nodes: Map<H256, Proposer>,
    leader: Map<u64, H256>,
    bottom: nat,
    end: nat,
) -> Map<H256, Proposer> {
    Map::new(
        |block: H256| nodes.contains_key(block),
        |block: H256|
            Proposer {
                status: if leads(leader, bottom, end, block) {
                    ProposerStatus::Leader
                } else {
                    nodes[block].status
                },
                ..nodes[block]
            },
    )
}

/// The number of blocks in the first `n` of some levels.
pub open spec fn total(levels: Seq<Seq<H256>>, n: nat) -> nat
    decreases n,
{
    if n == 0 {
        0
    } else {
        total(levels, (n - 1) as nat) + levels[n - 1].len()
    }
}

/// The decimal digits of a number.
pub open spec fn digits(n: nat) -> Seq<char>
    decreases n,
{
    let last = ((n % 10) + 48) as char;
    if n < 10 {
        seq![last]
    } else {
        digits(n / 10).push(last)
    }
}

/// Two numbers as text.
pub open spec fn ratio_text(first: nat, second: nat) -> Seq<char> {
    seq!['('] + digits(first) + seq!['/'] + digits(second) + seq![')', ' ']
}

/// What is shown of the chain.
#[verifier::ext_equal]
pub struct Picture {
    pub edges: Seq<Edge>,
    pub proposer_levels: Seq<Seq<H256>>,
    pub proposer_leaders: Map<u64, H256>,
    pub voter_longest: Seq<H256>,
    pub proposer_nodes: Map<H256, Proposer>,
    pub voter_nodes: Map<H256, Voter>,
    pub transaction_in_ledger: Seq<H256>,
    pub transaction_unreferred: Set<H256>,
    pub proposer_in_ledger: Seq<H256>,
    pub voter_chain_number: Seq<Seq<char>>,
    pub proposer_tree_number: Seq<char>,
}

impl View for Dump {
    type V = Picture;

    open spec fn view(&self) -> Picture {
        Picture {
            edges: self.edges@,
            proposer_levels: lists(self.proposer_levels@),
            proposer_leaders: self.proposer_leaders@,
            voter_longest: self.voter_longest@,
            proposer_nodes: self.proposer_nodes@,
            voter_nodes: self.voter_nodes@,
            transaction_in_ledger: self.transaction_in_ledger@,
            transaction_unreferred: self.transaction_unreferred@.to_set(),
            proposer_in_ledger: self.proposer_in_ledger@,
            voter_chain_number: texts(self.voter_chain_number@),
            proposer_tree_number: self.proposer_tree_number@,
        }
    }
}

/// Lists as sequences.
pub open spec fn lists(levels: Seq<Vec<H256>>) -> Seq<Seq<H256>> {
    levels.map_values(|level: Vec<H256>| level@)
}

/// Texts as sequences of characters.
pub open spec fn texts(list: Seq<String>) -> Seq<Seq<char>> {
    list.map_values(|text: String| text@)
}

/// The voter blocks that are shown: the main chains and, if all voter blocks are given, the forks.
pub open spec fn voter_graph(
    state: ChainState,
    t: Records,
    votes: Seq<(H256, (u16, u64))>,
    voters: Option<Seq<(H256, u16)>>,
) -> Option<Graph> {
    match (main_chains(state, t, votes, state.voter_best.len()), voters) {
        (Some(graph), Some(voters)) => with_forks(
            state,
            t,
            votes,
            graph,
            voters,
            voters.len(),
        ),
        (graph, None) => graph,
        (None, Some(_)) => None,
    }
}

/// Whether an edge is between blocks that are shown.
pub open spec fn visible(
    proposers: Map<H256, Proposer>,
    voters: Map<H256, Voter>,
    edge: Edge,
) -> bool {
    &&& proposers.contains_key(edge.from) || voters.contains_key(edge.from)
    &&& proposers.contains_key(edge.to) || voters.contains_key(edge.to)
}

/// The number of levels and of blocks of a voter chain, as text; nothing if it has no block.
pub open spec fn chain_text(best: u64, count: nat) -> Seq<char> {
    if count == 0 {
        Seq::empty()
    } else {
        ratio_text((1 + best) as nat, count)
    }
}

/// Whether the numbers of levels of the voter chains are in range.
pub open spec fn countable(state: ChainState, voters: Seq<(H256, u16)>) -> bool {
    forall|i: int|
        0 <= i < state.voter_best.len() && count_of(voters, i as u16) > 0
            ==> (#[trigger] state.voter_best[i]).1 < u64::MAX
}

/// What is shown of the chain, with the levels of the ledger that are at most `limit` below its
/// tip. Forks of the voter chains are shown if all voter blocks are given.
pub open spec fn picture(
    state: ChainState,
    t: Records,
    voters: Option<Seq<(H256, u16)>>,
    limit: u64,
) -> Option<Picture> {
    let tip = state.proposer_ledger_tip;
    let bottom = bottom_level(tip, limit);
    let counted = match voters {
        Some(voters) => voters,
        None => Seq::empty(),
    };
    match (
        levels_of(t.tree, bottom),
        levels_of(t.tree, 0),
        ledger_between(t.order, bottom as nat, (tip + 1) as nat),
    ) {
        (Some(levels), Some(tree), Some(ledger)) => {
            let end = bottom as nat + levels.len();
            let blocks = shown(levels, bottom, levels.len());
            let votes = votes_for(t.node_votes, blocks);
            match (
                voter_graph(state, t, votes, voters),
                transactions_of(t.transaction_refs, ledger, ledger.len()),
            ) {
                (Some(graph), Some(transactions)) => {
                    let nodes = with_status(
                        proposers(t.node_votes, blocks),
                        t.leader,
                        bottom as nat,
                        end,
                    );
                    if in_range(votes, state.voter_best.len()) && countable(state, counted)
                        && total(tree, tree.len()) <= usize::MAX {
                        Some(
                            Picture {
                                edges: (parent_edges(t.parent, blocks) + graph.edges).filter(
                                    |edge: Edge| visible(nodes, graph.nodes, edge),
                                ),
                                proposer_levels: levels,
                                proposer_leaders: leaders_between(t.leader, bottom as nat, end),
                                voter_longest: state.voter_best.map_values(
                                    |best: (H256, u64)| best.0,
                                ),
                                proposer_nodes: nodes,
                                voter_nodes: graph.nodes,
                                transaction_in_ledger: transactions,
                                transaction_unreferred: state.unreferred_transactions,
                                proposer_in_ledger: ledger,
                                voter_chain_number: Seq::new(
                                    state.voter_best.len(),
                                    |i: int|
                                        chain_text(
                                            state.voter_best[i].1,
                                            count_of(counted, i as u16),
                                        ),
                                ),
                                proposer_tree_number: ratio_text(
                                    tree.len(),
                                    total(tree, tree.len()),
                                ),
                            },
                        )
                    } else {
                        None
                    }
                },
                _ => None,
            }
        },
        _ => None,
    }
}

/// A decimal digit as text.
fn digit(n: u64) -> (text: &'static str)
    requires
        n < 10,
    ensures
        text@ == seq![(n + 48) as char],
{
    proof {
        reveal_strlit("0");
        reveal_strlit("1");
        reveal_strlit("2");
        reveal_strlit("3");
        reveal_strlit("4");
        reveal_strlit("5");
        reveal_strlit("6");
        reveal_strlit("7");
        reveal_strlit("8");
        reveal_strlit("9");
    }
    match n {
        0 => "0",
        1 => "1",
        2 => "2",
        3 => "3",
        4 => "4",
        5 => "5",
        6 => "6",
        7 => "7",
        8 => "8",
        _ => "9",
    }
}

/// Adds the decimal digits of a number to a text.
fn push_number(text: &mut String, n: u64)
    ensures
        final(text)@ == old(text)@ + digits(n as nat),
    decreases n,
{
    if n >= 10 {
        push_number(text, n / 10);
    }
    text.append(digit(n % 10));
    assert(text@ =~= old(text)@ + digits(n as nat));
}

/// Two numbers as text.
fn ratio(first: u64, second: u64) -> (text: String)
    ensures
        text@ == ratio_text(first as nat, second as nat),
{
    proof {
        reveal_strlit("(");
        reveal_strlit("/");
        reveal_strlit(") ");
    }
    let mut text = String::new();
    text.append("(");
    push_number(&mut text, first);
    text.append("/");
    push_number(&mut text, second);
    text.append(") ");
    assert(text@ =~= ratio_text(first as nat, second as nat));
    text
}

proof fn lemma_end_of(tree: Map<u64, Seq<H256>>, bottom: nat, level: nat)
    requires
        bottom <= level <= all_levels(),
        forall|l: u64| bottom <= l < level ==> tree.contains_key(l),
    ensures
        end_of(tree, bottom) == end_of(tree, level),
    decreases level - bottom,
{
    if bottom < level {
        assert(tree.contains_key(bottom as u64));
        lemma_end_of(tree, bottom + 1, level);
    }
}

/// Reads the proposer blocks from level `bottom` on, by level.
fn read_levels<R, E>(read: &R, bottom: u64) -> (result: Result<
    Vec<Vec<H256>>,
    Error<E>,
>) where R: Fn(Column, Vec<u8>) -> Result<Option<Vec<u8>>, E>
    requires
        callable(*read),
    ensures
        result matches Ok(levels) ==> bottom + levels@.len() <= u64::MAX,
        forall|t: Records| #[trigger]
            answers(*read, t) ==> match result {
                Ok(levels) => levels_of(t.tree, bottom) == Some(lists(levels@)),
                Err(error) => settles(
                    *read,
                    Err::<Seq<Seq<H256>>, Error<E>>(error),
                    levels_of(t.tree, bottom),
                ),
            },
{
    let mut levels: Vec<Vec<H256>> = Vec::new();
    let mut level: u64 = bottom;
    loop
        invariant
            callable(*read),
            level == bottom + levels@.len(),
            forall|t: Records| #[trigger]
                answers(*read, t) ==> forall|l: u64|
                    bottom <= l < level ==> #[trigger] t.tree.contains_key(l) && t.tree[l]
                        == levels@[l - bottom]@,
        decreases u64::MAX - level,
    {
        let found = match list_at_level(read, Column::ProposerTreeLevel, level) {
            Ok(found) => found,
            Err(error) => {
                return Err(error);
            },
        };
        match found {
            None => {
                assert forall|t: Records| #[trigger] answers(*read, t) implies levels_of(
                    t.tree,
                    bottom,
                ) == Some(lists(levels@)) by {
                    lemma_end_of(t.tree, bottom as nat, level as nat);
                    let want = levels_of(t.tree, bottom).unwrap();
                    assert forall|i: int| 0 <= i < want.len() implies want[i] == lists(
                        levels@,
                    )[i] by {
                        assert(t.tree.contains_key((bottom + i) as u64));
                    }
                    assert(want =~= lists(levels@));
                }
                return Ok(levels);
            },
            Some(blocks) => {
                if level == u64::MAX {
                    assert forall|t: Records| #[trigger] answers(*read, t) implies levels_of(
                        t.tree,
                        bottom,
                    ) is None by {
                        lemma_end_of(t.tree, bottom as nat, level as nat);
                        assert(end_of(t.tree, level as nat + 1) == all_levels());
                    }
                    return Err(Error::Inconsistent);
                }
                let ghost before = levels@;
                levels.push(blocks);
                assert forall|t: Records| #[trigger] answers(*read, t) implies forall|l: u64|
                    bottom <= l < level + 1 ==> #[trigger] t.tree.contains_key(l) && t.tree[l]
                        == levels@[l - bottom]@ by {
                    assert forall|l: u64|
                        bottom <= l < level + 1 implies #[trigger] t.tree.contains_key(l)
                        && t.tree[l] == levels@[l - bottom]@ by {
                        if l < level {
                            assert(levels@[l - bottom] == before[l - bottom]);
                        }
                    }
                }
                level += 1;
            },
        }
    }
}

/// The votes for proposer blocks, by the voter block that casts them.
struct VoteCache {
    votes: BTreeMap<(u16, u64), Vec<H256>>,
}

impl VoteCache {
    /// The votes that are in the cache for a level of a chain.
    spec fn found(self, chain: u16, level: u64) -> Seq<H256> {
        if self.votes@.contains_key((chain, level)) {
            self.votes@[(chain, level)]@
        } else {
            Seq::empty()
        }
    }

    /// Whether the cache holds exactly the given votes.
    spec fn holds(self, votes: Seq<(H256, (u16, u64))>) -> bool {
        forall|chain: u16, level: u64| #[trigger]
            self.found(chain, level) == votes_at(votes, chain, level)
    }

    /// Adds a vote.
    fn push(&mut self, block: H256, chain: u16, level: u64)
        ensures
            forall|c: u16, l: u64| #[trigger]
                final(self).found(c, l) == if c == chain && l == level {
                    old(self).found(c, l).push(block)
                } else {
                    old(self).found(c, l)
                },
    {
        let key: (u16, u64) = (chain, level);
        let mut list: Vec<H256> = match self.votes.remove(&key) {
            Some(list) => list,
            None => Vec::new(),
        };
        assert(list@ =~= old(self).found(chain, level));
        list.push(block);
        self.votes.insert(key, list);
    }
}

/// Adds the edges from a voter block to the blocks that it votes for.
fn push_vote_edges(edges: &mut Vec<Edge>, block: H256, votes: &Vec<H256>)
    ensures
        final(edges)@ == old(edges)@ + vote_edges(block, votes@),
{
    for i in 0..votes.len()
        invariant
            edges@ =~= old(edges)@ + vote_edges(block, votes@.subrange(0, i as int)),
    {
        edges.push(Edge { from: block, to: votes[i], edgetype: EdgeType::VoterToProposerVote });
    }
    assert(votes@.subrange(0, votes@.len() as int) =~= votes@);
}

/// Adds the blocks of the levels that are shown: their edges to their parents, what is shown of
/// them, and the votes for them.
fn push_proposers<R, E>(
    read: &R,
    levels: &Vec<Vec<H256>>,
    bottom: u64,
    edges: &mut Vec<Edge>,
    nodes: &mut BTreeMap<H256, Proposer>,
    votes: &mut Vec<(H256, (u16, u64))>,
) -> (result: Result<(), Error<E>>) where R: Fn(Column, Vec<u8>) -> Result<Option<Vec<u8>>, E>
    requires
        callable(*read),
        bottom + levels@.len() <= u64::MAX,
        old(edges)@ == Seq::<Edge>::empty(),
        old(nodes)@ == Map::<H256, Proposer>::empty(),
        old(votes)@ == Seq::<(H256, (u16, u64))>::empty(),
    ensures
        forall|t: Records| #[trigger]
            answers(*read, t) ==> match result {
                Ok(()) => {
                    let blocks = shown(lists(levels@), bottom, levels@.len());
                    &&& final(edges)@ == parent_edges(t.parent, blocks)
                    &&& final(nodes)@ == proposers(t.node_votes, blocks)
                    &&& final(votes)@ == votes_for(t.node_votes, blocks)
                },
                Err(error) => settles(*read, Err::<(), Error<E>>(error), Some(())),
            },
{
    let ghost mut done: Seq<(H256, u64)> = Seq::empty();
    for i in 0..levels.len()
        invariant
            callable(*read),
            bottom + levels@.len() <= u64::MAX,
            done == shown(lists(levels@), bottom, i as nat),
            forall|t: Records| #[trigger]
                answers(*read, t) ==> {
                    &&& edges@ == parent_edges(t.parent, done)
                    &&& nodes@ == proposers(t.node_votes, done)
                    &&& votes@ == votes_for(t.node_votes, done)
                },
    {
        let level: u64 = bottom + i as u64;
        let blocks = &levels[i];
        let ghost start = done;
        let ghost pairs = blocks@.map_values(|block: H256| (block, level));
        assert(lists(levels@)[i as int] == blocks@);
        assert(start + pairs.subrange(0, 0) =~= start);
        for j in 0..blocks.len()
            invariant
                callable(*read),
                pairs == blocks@.map_values(|block: H256| (block, level)),
                done == start + pairs.subrange(0, j as int),
                forall|t: Records| #[trigger]
                    answers(*read, t) ==> {
                        &&& edges@ == parent_edges(t.parent, done)
                        &&& nodes@ == proposers(t.node_votes, done)
                        &&& votes@ == votes_for(t.node_votes, done)
                    },
        {
            let block = blocks[j];
            let ghost before = done;
            let ghost edges_before = edges@;
            let ghost votes_before = votes@;
            proof {
                done = done.push((block, level));
                assert(done.drop_last() =~= before);
                assert(done =~= start + pairs.subrange(0, j + 1));
            }
            let parent = match link_under(read, Column::ParentNeighbor, block) {
                Ok(parent) => parent,
                Err(error) => {
                    return Err(error);
                },
            };
            if let Some(parent) = parent {
                edges.push(
                    Edge { from: block, to: parent, edgetype: EdgeType::ProposerToProposerParent },
                );
            }
            let found = match votes_under(read, block) {
                Ok(Some(found)) => found,
                Ok(None) => Vec::new(),
                Err(error) => {
                    return Err(error);
                },
            };
            let count: u16 = found.len() as u16;
            nodes.insert(
                block,
                Proposer { level, status: ProposerStatus::Others, votes: count },
            );
            for k in 0..found.len()
                invariant
                    votes@ =~= votes_before + found@.subrange(0, k as int).map_values(
                        |vote: (u16, u64)| (block, vote),
                    ),
            {
                votes.push((block, found[k]));
            }
            assert(found@.subrange(0, found@.len() as int) =~= found@);
            assert forall|t: Records| #[trigger] answers(*read, t) implies {
                &&& edges@ == parent_edges(t.parent, done)
                &&& nodes@ == proposers(t.node_votes, done)
                &&& votes@ == votes_for(t.node_votes, done)
            } by {
                assert(found@ =~= list_at(t.node_votes, block));
                assert(edges@ =~= edges_before + link_edge(
                    t.parent,
                    block,
                    EdgeType::ProposerToProposerParent,
                ));
            }
        }
        assert(pairs.subrange(0, pairs.len() as int) =~= pairs);
    }
    Ok(())
}

/// The lowest level of each voter chain that is shown, and the votes by the voter block that
/// casts them; none if a vote is of a chain that does not exist.
fn lowest_levels(best: &Vec<(H256, u64)>, votes: &Vec<(H256, (u16, u64))>) -> (result: Option<
    (Vec<u64>, VoteCache),
>)
    ensures
        match result {
            Some((low, cache)) => {
                &&& in_range(votes@, best@.len())
                &&& low@.len() == best@.len()
                &&& forall|c: int|
                    0 <= c < best@.len() && c <= u16::MAX ==> #[trigger] low@[c] == lowest(
                        votes@,
                        c as u16,
                        best@[c].1,
                    )
                &&& cache.holds(votes@)
            },
            None => !in_range(votes@, best@.len()),
        },
{
    let mut low: Vec<u64> = Vec::new();
    for i in 0..best.len()
        invariant
            low@.len() == i,
            forall|c: int| 0 <= c < i ==> #[trigger] low@[c] == best@[c].1,
    {
        low.push(best[i].1);
    }
    let mut cache = VoteCache { votes: BTreeMap::new() };
    assert(votes@.subrange(0, 0) =~= Seq::empty());
    for i in 0..votes.len()
        invariant
            low@.len() == best@.len(),
            in_range(votes@.subrange(0, i as int), best@.len()),
            forall|c: int|
                0 <= c < best@.len() && c <= u16::MAX ==> #[trigger] low@[c] == lowest(
                    votes@.subrange(0, i as int),
                    c as u16,
                    best@[c].1,
                ),
            cache.holds(votes@.subrange(0, i as int)),
    {
        let (block, (chain, level)) = votes[i];
        let ghost before = votes@.subrange(0, i as int);
        let ghost after = votes@.subrange(0, i + 1);
        assert(after.drop_last() =~= before);
        assert(after.last() == votes@[i as int]);
        if chain as usize >= low.len() {
            assert(votes@[i as int].1.0 >= best@.len());
            return None;
        }
        if low[chain as usize] > level {
            low[chain as usize] = level;
        }
        cache.push(block, chain, level);
        assert forall|j: int| 0 <= j < after.len() implies (#[trigger] after[j]).1.0
            < best@.len() by {
            if j < i {
                assert(before[j] == after[j]);
            }
        }
    }
    assert(votes@.subrange(0, votes@.len() as int) =~= votes@);
    Some((low, cache))
}

/// The blocks of a chain, with more before them.
spec fn chain_after(before: Seq<(H256, u64)>, rest: Option<Seq<(H256, u64)>>) -> Option<
    Seq<(H256, u64)>,
> {
    match rest {
        Some(rest) => Some(before + rest),
        None => None,
    }
}

/// Adds the blocks of a voter chain from its best block down to the lowest level that is shown.
fn push_chain<R, E>(
    read: &R,
    chain: u16,
    best: (H256, u64),
    low: u64,
    cache: &VoteCache,
    Ghost(votes): Ghost<Seq<(H256, (u16, u64))>>,
    edges: &mut Vec<Edge>,
    nodes: &mut BTreeMap<H256, Voter>,
) -> (result: Result<(), Error<E>>) where R: Fn(Column, Vec<u8>) -> Result<Option<Vec<u8>>, E>
    requires
        callable(*read),
        cache.holds(votes),
    ensures
        forall|t: Records| #[trigger]
            answers(*read, t) ==> match result {
                Ok(()) => main_chain(t, best.0, best.1, low) matches Some(blocks) && (Graph {
                    edges: final(edges)@,
                    nodes: final(nodes)@,
                }) == with_chain(
                    t,
                    votes,
                    (Graph { edges: old(edges)@, nodes: old(nodes)@ }),
                    chain,
                    blocks,
                ),
                Err(error) => settles(*read, Err::<(), Error<E>>(error), erased(
                    main_chain(t, best.0, best.1, low),
                )),
            },
{
    let mut block: H256 = best.0;
    let mut level: u64 = best.1;
    let ghost mut done: Seq<(H256, u64)> = Seq::empty();
    let ghost start = Graph { edges: old(edges)@, nodes: old(nodes)@ };
    assert forall|t: Records| #[trigger] answers(*read, t) implies main_chain(
        t,
        best.0,
        best.1,
        low,
    ) == chain_after(done, main_chain(t, block, level, low)) by {
        if let Some(rest) = main_chain(t, block, level, low) {
            assert(done + rest =~= rest);
        }
    }
    while level >= low
        invariant
            callable(*read),
            cache.holds(votes),
            start == (Graph { edges: old(edges)@, nodes: old(nodes)@ }),
            forall|t: Records| #[trigger]
                answers(*read, t) ==> {
                    &&& main_chain(t, best.0, best.1, low) == chain_after(
                        done,
                        main_chain(t, block, level, low),
                    )
                    &&& (Graph { edges: edges@, nodes: nodes@ }) == with_chain(
                        t,
                        votes,
                        start,
                        chain,
                        done,
                    )
                },
        decreases level,
    {
        let ghost before = done;
        let ghost edges_before = edges@;
        let ghost here = (block, level);
        let deepest_vote_level = match required(
            level_under(read, Column::VoterNodeVotedLevel, block),
        ) {
            Ok(level) => level,
            Err(error) => {
                return Err(error);
            },
        };
        nodes.insert(
            block,
            Voter { chain, level, status: VoterStatus::OnMainChain, deepest_vote_level },
        );
        assert(cache.found(chain, level) == votes_at(votes, chain, level));
        match cache.votes.get(&(chain, level)) {
            Some(found) => push_vote_edges(edges, block, found),
            None => {
                assert(vote_edges(block, Seq::empty()) =~= Seq::empty());
                assert(edges@ =~= edges@ + vote_edges(block, Seq::empty()));
            },
        }
        assert(edges@ == edges_before + vote_edges(block, votes_at(votes, chain, level)));
        let ghost edges_voted = edges@;
        proof {
            done = done.push(here);
            assert(done.drop_last() =~= before);
        }
        let parent = match link_under(read, Column::VoterParentNeighbor, block) {
            Ok(parent) => parent,
            Err(error) => {
                return Err(error);
            },
        };
        match parent {
            Some(parent) => {
                edges.push(
                    Edge { from: block, to: parent, edgetype: EdgeType::VoterToVoterParent },
                );
                if level == 0 {
                    return Err(Error::Inconsistent);
                }
                assert forall|t: Records| #[trigger] answers(*read, t) implies {
                    &&& main_chain(t, best.0, best.1, low) == chain_after(
                        done,
                        main_chain(t, parent, (level - 1) as u64, low),
                    )
                    &&& (Graph { edges: edges@, nodes: nodes@ }) == with_chain(
                        t,
                        votes,
                        start,
                        chain,
                        done,
                    )
                } by {
                    if let Some(rest) = main_chain(t, parent, (level - 1) as u64, low) {
                        assert(before + (seq![here] + rest) =~= done + rest);
                    }
                    assert(edges@ =~= edges_voted + link_edge(
                        t.voter_parent,
                        block,
                        EdgeType::VoterToVoterParent,
                    ));
                }
                block = parent;
                level -= 1;
            },
            None => {
                assert forall|t: Records| #[trigger] answers(*read, t) implies {
                    &&& main_chain(t, best.0, best.1, low) == Some(done)
                    &&& (Graph { edges: edges@, nodes: nodes@ }) == with_chain(
                        t,
                        votes,
                        start,
                        chain,
                        done,
                    )
                } by {
                    assert(before + seq![here] =~= done);
                    assert(edges@ =~= edges_voted + link_edge(
                        t.voter_parent,
                        block,
                        EdgeType::VoterToVoterParent,
                    ));
                }
                return Ok(());
            },
        }
    }
    assert(done + Seq::<(H256, u64)>::empty() =~= done);
    Ok(())
}

/// Where fewer main chains cannot be shown, more cannot.
proof fn lemma_main_chains_none(
    state: ChainState,
    t: Records,
    votes: Seq<(H256, (u16, u64))>,
    n: nat,
    m: nat,
)
    requires
        n <= m,
        main_chains(state, t, votes, n) is None,
    ensures
        main_chains(state, t, votes, m) is None,
    decreases m,
{
    if n < m {
        lemma_main_chains_none(state, t, votes, n, (m - 1) as nat);
    }
}

/// Where fewer forks cannot be shown, more cannot.
proof fn lemma_forks_none(
    state: ChainState,
    t: Records,
    votes: Seq<(H256, (u16, u64))>,
    graph: Graph,
    voters: Seq<(H256, u16)>,
    n: nat,
    m: nat,
)
    requires
        n <= m,
        with_forks(state, t, votes, graph, voters, n) is None,
    ensures
        with_forks(state, t, votes, graph, voters, m) is None,
    decreases m,
{
    if n < m {
        lemma_forks_none(state, t, votes, graph, voters, n, (m - 1) as nat);
    }
}

impl BlockChain {
    /// The main chains of all voter chains.
    fn main_graph<R, E>(
        &self,
        read: &R,
        low: &Vec<u64>,
        cache: &VoteCache,
        Ghost(votes): Ghost<Seq<(H256, (u16, u64))>>,
    ) -> (result: Result<(Vec<Edge>, BTreeMap<H256, Voter>), Error<E>>) where
        R: Fn(Column, Vec<u8>) -> Result<Option<Vec<u8>>, E>

        requires
            self.wf(),
            callable(*read),
            cache.holds(votes),
            low@.len() == self@.voter_best.len(),
            forall|c: int|
                0 <= c < self@.voter_best.len() ==> #[trigger] low@[c] == lowest(
                    votes,
                    c as u16,
                    self@.voter_best[c].1,
                ),
        ensures
            forall|t: Records| #[trigger]
                answers(*read, t) ==> match result {
                    Ok((edges, nodes)) => main_chains(
                        self@,
                        t,
                        votes,
                        self@.voter_best.len(),
                    ) == Some(Graph { edges: edges@, nodes: nodes@ }),
                    Err(error) => settles(*read, Err::<(), Error<E>>(error), erased(
                        main_chains(self@, t, votes, self@.voter_best.len()),
                    )),
                },
    {
        let mut edges: Vec<Edge> = Vec::new();
        let mut nodes: BTreeMap<H256, Voter> = BTreeMap::new();
        let chains: u16 = self.voter_best.len() as u16;
        assert((Graph { edges: edges@, nodes: nodes@ }) =~= (Graph {
            edges: Seq::empty(),
            nodes: Map::empty(),
        }));
        for i in 0..chains
            invariant
                self.wf(),
                callable(*read),
                cache.holds(votes),
                chains == self@.voter_best.len(),
                low@.len() == self@.voter_best.len(),
                forall|c: int|
                    0 <= c < self@.voter_best.len() ==> #[trigger] low@[c] == lowest(
                        votes,
                        c as u16,
                        self@.voter_best[c].1,
                    ),
                forall|t: Records| #[trigger]
                    answers(*read, t) ==> main_chains(self@, t, votes, i as nat) == Some(
                        Graph { edges: edges@, nodes: nodes@ },
                    ),
        {
            let best = self.voter_best[i as usize];
            match push_chain(
                read,
                i,
                best,
                low[i as usize],
                cache,
                Ghost(votes),
                &mut edges,
                &mut nodes,
            ) {
                Ok(()) => {},
                Err(error) => {
                    assert forall|t: Records| #[trigger] answers(*read, t) implies settles(
                        *read,
                        Err::<(), Error<E>>(error),
                        erased(main_chains(self@, t, votes, self@.voter_best.len())),
                    ) by {
                        if error is Inconsistent {
                            lemma_main_chains_none(
                                self@,
                                t,
                                votes,
                                (i + 1) as nat,
                                self@.voter_best.len(),
                            );
                        }
                    }
                    return Err(error);
                },
            }
        }
        Ok((edges, nodes))
    }

    /// Adds those voter blocks that are not too low and not shown yet.
    fn push_forks<R, E>(
        &self,
        read: &R,
        low: &Vec<u64>,
        voters: &Vec<(H256, u16)>,
        Ghost(votes): Ghost<Seq<(H256, (u16, u64))>>,
        edges: &mut Vec<Edge>,
        nodes: &mut BTreeMap<H256, Voter>,
    ) -> (result: Result<(), Error<E>>) where
        R: Fn(Column, Vec<u8>) -> Result<Option<Vec<u8>>, E>

        requires
            self.wf(),
            callable(*read),
            low@.len() == self@.voter_best.len(),
            forall|c: int|
                0 <= c < self@.voter_best.len() ==> #[trigger] low@[c] == lowest(
                    votes,
                    c as u16,
                    self@.voter_best[c].1,
                ),
        ensures
            forall|t: Records| #[trigger]
                answers(*read, t) ==> {
                    let start = Graph { edges: old(edges)@, nodes: old(nodes)@ };
                    let want = with_forks(self@, t, votes, start, voters@, voters@.len());
                    match result {
                        Ok(()) => want == Some(
                            Graph { edges: final(edges)@, nodes: final(nodes)@ },
                        ),
                        Err(error) => settles(*read, Err::<(), Error<E>>(error), erased(want)),
                    }
                },
    {
        let ghost start = Graph { edges: old(edges)@, nodes: old(nodes)@ };
        for i in 0..voters.len()
            invariant
                self.wf(),
                callable(*read),
                low@.len() == self@.voter_best.len(),
                forall|c: int|
                    0 <= c < self@.voter_best.len() ==> #[trigger] low@[c] == lowest(
                        votes,
                        c as u16,
                        self@.voter_best[c].1,
                    ),
                start == (Graph { edges: old(edges)@, nodes: old(nodes)@ }),
                forall|t: Records| #[trigger]
                    answers(*read, t) ==> with_forks(self@, t, votes, start, voters@, i as nat)
                        == Some(Graph { edges: edges@, nodes: nodes@ }),
        {
            let (block, chain) = voters[i];
            match self.push_fork(read, low, block, chain, Ghost(votes), edges, nodes) {
                Ok(()) => {},
                Err(error) => {
                    assert forall|t: Records| #[trigger] answers(*read, t) implies settles(
                        *read,
                        Err::<(), Error<E>>(error),
                        erased(with_forks(self@, t, votes, start, voters@, voters@.len())),
                    ) by {
                        if error is Inconsistent {
                            lemma_forks_none(
                                self@,
                                t,
                                votes,
                                start,
                                voters@,
                                (i + 1) as nat,
                                voters@.len(),
                            );
                        }
                    }
                    return Err(error);
                },
            }
        }
        Ok(())
    }

    /// Adds a voter block, unless it is too low or shown already.
    fn push_fork<R, E>(
        &self,
        read: &R,
        low: &Vec<u64>,
        block: H256,
        chain: u16,
        Ghost(votes): Ghost<Seq<(H256, (u16, u64))>>,
        edges: &mut Vec<Edge>,
        nodes: &mut BTreeMap<H256, Voter>,
    ) -> (result: Result<(), Error<E>>) where
        R: Fn(Column, Vec<u8>) -> Result<Option<Vec<u8>>, E>

        requires
            self.wf(),
            callable(*read),
            low@.len() == self@.voter_best.len(),
            forall|c: int|
                0 <= c < self@.voter_best.len() ==> #[trigger] low@[c] == lowest(
                    votes,
                    c as u16,
                    self@.voter_best[c].1,
                ),
        ensures
            forall|t: Records| #[trigger]
                answers(*read, t) ==> {
                    let start = Graph { edges: old(edges)@, nodes: old(nodes)@ };
                    let want = with_fork(self@, t, votes, start, block, chain);
                    match result {
                        Ok(()) => want == Some(
                            Graph { edges: final(edges)@, nodes: final(nodes)@ },
                        ),
                        Err(error) => settles(*read, Err::<(), Error<E>>(error), erased(want)),
                    }
                },
    {
        if chain as usize >= low.len() {
            return Err(Error::Inconsistent);
        }
        let level = match required(level_under(read, Column::VoterNodeLevel, block)) {
            Ok(level) => level,
            Err(error) => {
                return Err(error);
            },
        };
        if level < low[chain as usize] || nodes.contains_key(&block) {
            return Ok(());
        }
        let deepest_vote_level = match required(
            level_under(read, Column::VoterNodeVotedLevel, block),
        ) {
            Ok(level) => level,
            Err(error) => {
                return Err(error);
            },
        };
        nodes.insert(
            block,
            Voter { chain, level, status: VoterStatus::Orphan, deepest_vote_level },
        );
        let found = match required(list_under(read, Column::VoteNeighbor, block)) {
            Ok(found) => found,
            Err(error) => {
                return Err(error);
            },
        };
        push_vote_edges(edges, block, &found);
        let ghost edges_voted = edges@;
        let parent = match link_under(read, Column::VoterParentNeighbor, block) {
            Ok(parent) => parent,
            Err(error) => {
                return Err(error);
            },
        };
        if let Some(parent) = parent {
            edges.push(Edge { from: block, to: parent, edgetype: EdgeType::VoterToVoterParent });
        }
        assert forall|t: Records| #[trigger] answers(*read, t) implies edges@ == edges_voted
            + link_edge(t.voter_parent, block, EdgeType::VoterToVoterParent) by {
            assert(edges@ =~= edges_voted + link_edge(
                t.voter_parent,
                block,
                EdgeType::VoterToVoterParent,
            ));
        }
        Ok(())
    }
}

/// The leaders of the levels from `bottom` on and below `end`; marks those that are shown.
fn mark_leaders<R, E>(
    read: &R,
    bottom: u64,
    end: u64,
    nodes: &mut BTreeMap<H256, Proposer>,
) -> (result: Result<BTreeMap<u64, H256>, Error<E>>) where
    R: Fn(Column, Vec<u8>) -> Result<Option<Vec<u8>>, E>

    requires
        callable(*read),
    ensures
        forall|t: Records| #[trigger]
            answers(*read, t) ==> match result {
                Ok(leaders) => {
                    &&& leaders@ == leaders_between(t.leader, bottom as nat, end as nat)
                    &&& final(nodes)@ == with_status(
                        old(nodes)@,
                        t.leader,
                        bottom as nat,
                        end as nat,
                    )
                },
                Err(error) => settles(*read, Err::<(), Error<E>>(error), Some(())),
            },
{
    let mut leaders: BTreeMap<u64, H256> = BTreeMap::new();
    let mut level: u64 = bottom;
    assert forall|t: Records| #[trigger] answers(*read, t) implies {
        &&& leaders@ == leaders_between(t.leader, bottom as nat, level as nat)
        &&& nodes@ == with_status(old(nodes)@, t.leader, bottom as nat, level as nat)
    } by {
        assert(leaders@ =~= leaders_between(t.leader, bottom as nat, level as nat));
        assert(nodes@ =~= with_status(old(nodes)@, t.leader, bottom as nat, level as nat));
    }
    while level < end
        invariant
            callable(*read),
            bottom <= level,
            level <= end || level == bottom,
            forall|t: Records| #[trigger]
                answers(*read, t) ==> {
                    &&& leaders@ == leaders_between(t.leader, bottom as nat, level as nat)
                    &&& nodes@ == with_status(old(nodes)@, t.leader, bottom as nat, level as nat)
                },
        decreases end - level,
    {
        let ghost leaders_before = leaders@;
        let ghost nodes_before = nodes@;
        let leader = match leader_at_level(read, level) {
            Ok(leader) => leader,
            Err(error) => {
                return Err(error);
            },
        };
        if let Some(block) = leader {
            leaders.insert(level, block);
            let found: Option<Proposer> = match nodes.get(&block) {
                Some(proposer) => Some(*proposer),
                None => None,
            };
            if let Some(proposer) = found {
                nodes.insert(
                    block,
                    Proposer {
                        level: proposer.level,
                        status: ProposerStatus::Leader,
                        votes: proposer.votes,
                    },
                );
            }
        }
        assert forall|t: Records| #[trigger] answers(*read, t) implies {
            &&& leaders@ == leaders_between(t.leader, bottom as nat, level as nat + 1)
            &&& nodes@ == with_status(old(nodes)@, t.leader, bottom as nat, level as nat + 1)
        } by {
            assert(leaders@ =~= leaders_between(t.leader, bottom as nat, level as nat + 1));
            let want = with_status(old(nodes)@, t.leader, bottom as nat, level as nat + 1);
            assert forall|block: H256| old(nodes)@.contains_key(block) implies nodes@[block]
                == want[block] by {
                if at(t.leader, level) == Some(block) {
                    assert(t.leader.contains_key(level));
                    assert(leads(t.leader, bottom as nat, level as nat + 1, block));
                } else {
                    if leads(t.leader, bottom as nat, level as nat + 1, block) {
                        let l = choose|l: u64|
                            bottom <= l < level + 1 && #[trigger] t.leader.contains_key(l)
                                && t.leader[l] == block;
                        assert(t.leader.contains_key(l));
                        assert(leads(t.leader, bottom as nat, level as nat, block));
                    }
                    if leads(t.leader, bottom as nat, level as nat, block) {
                        let l = choose|l: u64|
                            bottom <= l < level && #[trigger] t.leader.contains_key(l)
                                && t.leader[l] == block;
                        assert(t.leader.contains_key(l));
                        assert(leads(t.leader, bottom as nat, level as nat + 1, block));
                    }
                    assert(nodes_before.contains_key(block));
                }
            }
            assert(nodes@ =~= want);
        }
        level += 1;
    }
    assert forall|t: Records| #[trigger] answers(*read, t) implies {
        &&& leaders@ == leaders_between(t.leader, bottom as nat, end as nat)
        &&& nodes@ == with_status(old(nodes)@, t.leader, bottom as nat, end as nat)
    } by {
        if end < bottom {
            assert(leaders@ =~= leaders_between(t.leader, bottom as nat, end as nat));
            assert(nodes@ =~= with_status(old(nodes)@, t.leader, bottom as nat, end as nat));
        }
    }
    Ok(leaders)
}

/// The number of blocks in some levels, if it can be had.
fn count_blocks(levels: &Vec<Vec<H256>>) -> (result: Option<usize>)
    ensures
        match result {
            Some(count) => count == total(lists(levels@), levels@.len()),
            None => total(lists(levels@), levels@.len()) > usize::MAX,
        },
{
    let mut count: usize = 0;
    for i in 0..levels.len()
        invariant
            count == total(lists(levels@), i as nat),
    {
        assert(lists(levels@)[i as int] == levels@[i as int]@);
        match count.checked_add(levels[i].len()) {
            Some(sum) => {
                count = sum;
            },
            None => {
                proof {
                    lemma_total_grows(lists(levels@), (i + 1) as nat, levels@.len());
                }
                return None;
            },
        }
    }
    Some(count)
}

proof fn lemma_total_grows(levels: Seq<Seq<H256>>, n: nat, m: nat)
    requires
        n <= m,
    ensures
        total(levels, n) <= total(levels, m),
    decreases m,
{
    if n < m {
        lemma_total_grows(levels, n, (m - 1) as nat);
    }
}

proof fn lemma_count_bound(voters: Seq<(H256, u16)>, chain: u16)
    ensures
        count_of(voters, chain) <= voters.len(),
    decreases voters.len(),
{
    if voters.len() > 0 {
        lemma_count_bound(voters.drop_last(), chain);
    }
}

/// The number of voter blocks of each chain; those of other chains are not counted.
fn count_voters(voters: &Vec<(H256, u16)>, chains: u16) -> (numbers: Vec<u64>)
    ensures
        numbers@.len() == chains,
        forall|c: int| 0 <= c < chains ==> #[trigger] numbers@[c] == count_of(voters@, c as u16),
{
    let mut numbers: Vec<u64> = Vec::new();
    assert(voters@.subrange(0, 0) =~= Seq::empty());
    for i in 0..chains
        invariant
            numbers@.len() == i,
            forall|c: int| 0 <= c < i ==> #[trigger] numbers@[c] == 0,
    {
        numbers.push(0);
    }
    for i in 0..voters.len()
        invariant
            numbers@.len() == chains,
            forall|c: int|
                0 <= c < chains ==> #[trigger] numbers@[c] == count_of(
                    voters@.subrange(0, i as int),
                    c as u16,
                ),
    {
        let chain = voters[i].1;
        let ghost before = voters@.subrange(0, i as int);
        let ghost after = voters@.subrange(0, i + 1);
        assert(after.drop_last() =~= before);
        assert(after.last() == voters@[i as int]);
        if chain < chains {
            proof {
                lemma_count_bound(before, chain);
                assert(numbers@[chain as int] <= i);
            }
            let number: u64 = numbers[chain as usize];
            numbers[chain as usize] = number + 1;
        }
    }
    assert(voters@.subrange(0, voters@.len() as int) =~= voters@);
    numbers
}

/// The edges that are between blocks that are shown.
fn visible_edges(
    edges: &Vec<Edge>,
    proposer_nodes: &BTreeMap<H256, Proposer>,
    voter_nodes: &BTreeMap<H256, Voter>,
) -> (list: Vec<Edge>)
    ensures
        list@ == edges@.filter(|edge: Edge| visible(proposer_nodes@, voter_nodes@, edge)),
{
    let mut list: Vec<Edge> = Vec::new();
    let ghost keep = |edge: Edge| visible(proposer_nodes@, voter_nodes@, edge);
    proof {
        reveal(Seq::filter);
        assert(edges@.subrange(0, 0) =~= Seq::empty());
    }
    for i in 0..edges.len()
        invariant
            keep == (|edge: Edge| visible(proposer_nodes@, voter_nodes@, edge)),
            list@ == edges@.subrange(0, i as int).filter(keep),
    {
        let edge = &edges[i];
        proof {
            reveal(Seq::filter);
            let after = edges@.subrange(0, i + 1);
            assert(after.drop_last() =~= edges@.subrange(0, i as int));
            assert(after.last() == *edge);
        }
        if (proposer_nodes.contains_key(&edge.from) || voter_nodes.contains_key(&edge.from)) && (
        proposer_nodes.contains_key(&edge.to) || voter_nodes.contains_key(&edge.to)) {
            list.push(Edge { from: edge.from, to: edge.to, edgetype: edge.edgetype });
        }
    }
    assert(edges@.subrange(0, edges@.len() as int) =~= edges@);
    list
}

/// What is shown of the chain; the forks of the voter chains, if they are asked for, are those in
/// the given entries of the column of chain numbers.
pub open spec fn picture_with(
    state: ChainState,
    t: Records,
    entries: Seq<(Vec<u8>, Vec<u8>)>,
    limit: u64,
    display_fork: bool,
) -> Option<Picture> {
    if !display_fork {
        picture(state, t, None, limit)
    } else {
        match voters_in(entries, entries.len()) {
            Some(voters) => picture(state, t, Some(voters), limit),
            None => None,
        }
    }
}

/// A result with the picture in it as a model.
pub open spec fn pictured<E>(result: Result<Dump, Error<E>>) -> Result<Picture, Error<E>> {
    match result {
        Ok(dump) => Ok(dump@),
        Err(error) => Err(error),
    }
}

impl BlockChain {
    /// The number of levels and of blocks of each voter chain, as text, if the levels are in
    /// range.
    fn chain_numbers(&self, voters: &Vec<(H256, u16)>) -> (result: Option<Vec<String>>)
        requires
            self.wf(),
        ensures
            match result {
                Some(list) => countable(self@, voters@) && texts(list@) == Seq::new(
                    self@.voter_best.len(),
                    |i: int| chain_text(self@.voter_best[i].1, count_of(voters@, i as u16)),
                ),
                None => !countable(self@, voters@),
            },
    {
        let chains: u16 = self.voter_best.len() as u16;
        let numbers = count_voters(voters, chains);
        let mut list: Vec<String> = Vec::new();
        for i in 0..chains
            invariant
                chains == self@.voter_best.len(),
                numbers@.len() == chains,
                forall|c: int|
                    0 <= c < chains ==> #[trigger] numbers@[c] == count_of(voters@, c as u16),
                texts(list@) =~= Seq::new(
                    i as nat,
                    |i: int| chain_text(self@.voter_best[i].1, count_of(voters@, i as u16)),
                ),
                forall|c: int|
                    0 <= c < i && count_of(voters@, c as u16) > 0 ==> (
                    #[trigger] self@.voter_best[c]).1 < u64::MAX,
        {
            let number: u64 = numbers[i as usize];
            let best: u64 = self.voter_best[i as usize].1;
            let ghost before = texts(list@);
            assert(numbers@[i as int] == count_of(voters@, i));
            if number == 0 {
                let text = String::new();
                assert(text@ =~= chain_text(best, 0));
                list.push(text);
                assert(texts(list@) =~= before.push(text@));
            } else if best == u64::MAX {
                assert(self@.voter_best[i as int].1 == u64::MAX);
                return None;
            } else {
                let text = ratio(1 + best, number);
                list.push(text);
                assert(texts(list@) =~= before.push(text@));
            }
        }
        Some(list)
    }

    /// A picture of the chain, with the levels of the ledger that are at most `limit` below its
    /// tip. To show the forks of the voter chains, `voters` holds the entries of the column of
    /// chain numbers.
    pub fn dump<R, E>(
        &self,
        read: &R,
        voters: &Vec<(Vec<u8>, Vec<u8>)>,
        limit: u64,
        display_fork: bool,
    ) -> (result: Result<Dump, Error<E>>) where
        R: Fn(Column, Vec<u8>) -> Result<Option<Vec<u8>>, E>

        requires
            self.wf(),
            callable(*read),
        ensures
            result matches Ok(dump) ==> dump.transaction_unreferred@.no_duplicates(),
            forall|t: Records| #[trigger]
                answers(*read, t) ==> settles(
                    *read,
                    pictured(result),
                    picture_with(self@, t, voters@, limit, display_fork),
                ),
            forall|t: Records| #[trigger]
                answers(*read, t) ==> (result matches Ok(dump) ==> picture_with(
                    self@,
                    t,
                    voters@,
                    limit,
                    display_fork,
                ) matches Some(want) && {
                    &&& dump.edges@ == want.edges
                    &&& dump.proposer_levels@.len() == want.proposer_levels.len()
                    &&& forall|i: int|
                        0 <= i < want.proposer_levels.len() ==> (
                        #[trigger] dump.proposer_levels@[i])@ == want.proposer_levels[i]
                    &&& dump.proposer_leaders@ == want.proposer_leaders
                    &&& dump.voter_longest@ == want.voter_longest
                    &&& dump.proposer_nodes@ == want.proposer_nodes
                    &&& dump.voter_nodes@ == want.voter_nodes
                    &&& dump.transaction_in_ledger@ == want.transaction_in_ledger
                    &&& forall|block: H256| #[trigger]
                        dump.transaction_unreferred@.contains(block)
                            <==> self@.unreferred_transactions.contains(block)
                    &&& dump.proposer_in_ledger@ == want.proposer_in_ledger
                    &&& dump.voter_chain_number@.len() == want.voter_chain_number.len()
                    &&& forall|i: int|
                        0 <= i < want.voter_chain_number.len() ==> (
                        #[trigger] dump.voter_chain_number@[i])@ == want.voter_chain_number[i]
                    &&& dump.proposer_tree_number@ == want.proposer_tree_number
                }),
    {
        let tip = self.proposer_ledger_tip;
        let bottom: u64 = if tip > limit {
            tip - limit
        } else {
            0
        };
        // the proposer blocks
        let proposer_levels = match read_levels(read, bottom) {
            Ok(levels) => levels,
            Err(error) => {
                return Err(error);
            },
        };
        let end: u64 = bottom + proposer_levels.len() as u64;
        let mut edges: Vec<Edge> = Vec::new();
        let mut proposer_nodes: BTreeMap<H256, Proposer> = BTreeMap::new();
        let mut votes: Vec<(H256, (u16, u64))> = Vec::new();
        assert(edges@ =~= Seq::empty());
        assert(votes@ =~= Seq::empty());
        match push_proposers(
            read,
            &proposer_levels,
            bottom,
            &mut edges,
            &mut proposer_nodes,
            &mut votes,
        ) {
            Ok(()) => {},
            Err(error) => {
                return Err(error);
            },
        }
        let (low, cache) = match lowest_levels(&self.voter_best, &votes) {
            Some(found) => found,
            None => {
                return Err(Error::Inconsistent);
            },
        };
        // the voter blocks
        let (mut voter_edges, mut voter_nodes) = match self.main_graph(
            read,
            &low,
            &cache,
            Ghost(votes@),
        ) {
            Ok(graph) => graph,
            Err(error) => {
                return Err(error);
            },
        };
        let mut counted: Vec<(H256, u16)> = Vec::new();
        assert(counted@ =~= Seq::empty());
        if display_fork {
            counted = match decode_voters(voters) {
                Some(voters) => voters,
                None => {
                    return Err(Error::Inconsistent);
                },
            };
            match self.push_forks(
                read,
                &low,
                &counted,
                Ghost(votes@),
                &mut voter_edges,
                &mut voter_nodes,
            ) {
                Ok(()) => {},
                Err(error) => {
                    return Err(error);
                },
            }
        }
        let ghost parents = edges@;
        let ghost links = voter_edges@;
        edges.append(&mut voter_edges);
        // the leaders and the ledger
        let proposer_leaders = match mark_leaders(read, bottom, end, &mut proposer_nodes) {
            Ok(leaders) => leaders,
            Err(error) => {
                return Err(error);
            },
        };
        let proposer_in_ledger = match ledger_blocks(read, bottom, tip) {
            Ok(blocks) => blocks,
            Err(error) => {
                return Err(error);
            },
        };
        let transaction_in_ledger = match transaction_blocks(read, &proposer_in_ledger) {
            Ok(blocks) => blocks,
            Err(error) => {
                return Err(error);
            },
        };
        // the numbers of levels and blocks
        let tree = match read_levels(read, 0) {
            Ok(levels) => levels,
            Err(error) => {
                return Err(error);
            },
        };
        let proposer_number: usize = match count_blocks(&tree) {
            Some(number) => number,
            None => {
                return Err(Error::Inconsistent);
            },
        };
        let proposer_tree_number = ratio(tree.len() as u64, proposer_number as u64);
        let voter_chain_number = match self.chain_numbers(&counted) {
            Some(list) => list,
            None => {
                return Err(Error::Inconsistent);
            },
        };
        let mut voter_longest: Vec<H256> = Vec::new();
        let ghost bests = self@.voter_best.map_values(|best: (H256, u64)| best.0);
        for i in 0..self.voter_best.len()
            invariant
                bests == self@.voter_best.map_values(|best: (H256, u64)| best.0),
                voter_longest@ =~= bests.subrange(0, i as int),
        {
            voter_longest.push(self.voter_best[i].0);
        }
        assert(bests.subrange(0, bests.len() as int) =~= bests);
        let edges = visible_edges(&edges, &proposer_nodes, &voter_nodes);
        let dump = Dump {
            edges,
            proposer_levels,
            proposer_leaders,
            voter_longest,
            proposer_nodes,
            voter_nodes,
            transaction_in_ledger,
            transaction_unreferred: self.unreferred_transactions.list(),
            proposer_in_ledger,
            voter_chain_number,
            proposer_tree_number,
        };
        Ok(dump)
    }
}

} // verus!
