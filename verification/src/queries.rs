//! Questions about the chain.

use vstd::prelude::*;

use crate::block::{H256, NO_HASH};
use crate::chain::{copy_hashes, BlockChain, ChainState};
use crate::dump::bottom_level;
use crate::ledger::{ledger_between, ledger_blocks};
use crate::store::{
    answers, as_seq, at, callable, chain_under, decode_voters, has_record, level_under,
    list_at_level, list_under, required, settles, voters_in, Column, Error, Records,
};

verus! {

/// The blocks that a voter block on `tip` votes for if it is mined on `proposer_parent`: on each
/// level above the one that the tip has voted up to, and up to that of the proposer parent, the
/// first block that was heard.
pub open spec fn unvoted(t: Records, tip: H256, proposer_parent: H256) -> Option<Seq<H256>> {
    if !t.voted_level.contains_key(tip) || !t.proposer_level.contains_key(proposer_parent)
        || t.voted_level[tip] == u64::MAX {
        None
    } else {
        let voted = t.voted_level[tip];
        let last = t.proposer_level[proposer_parent];
        if forall|level: u64| voted < level <= last ==> #[trigger] has_block(t, level) {
            Some(first_blocks(t, voted, last))
        } else {
            None
        }
    }
}

/// Whether a level has a proposer block.
pub open spec fn has_block(t: Records, level: u64) -> bool {
    t.tree.contains_key(level) && t.tree[level].len() > 0
}

/// The first blocks of the levels above `voted` and up to `last`.
pub open spec fn first_blocks(t: Records, voted: u64, last: u64) -> Seq<H256> {
    Seq::new(
        if voted < last {
            (last - voted) as nat
        } else {
            0
        },
        |i: int| t.tree[(voted + 1 + i) as u64][0],
    )
}

/// Blocks of the ledger, each with the transaction blocks that it refers to.
pub open spec fn with_transactions(refs: Map<H256, Seq<H256>>, blocks: Seq<H256>) -> Option<
    Seq<(H256, Seq<H256>)>,
> {
    if forall|i: int| 0 <= i < blocks.len() ==> refs.contains_key(#[trigger] blocks[i]) {
        Some(blocks.map_values(|block: H256| (block, refs[block])))
    } else {
        None
    }
}

/// The blocks of the ledger in the levels that are at most `limit` below its tip, each with the
/// transaction blocks that it refers to.
pub open spec fn ledger_with_transactions(state: ChainState, t: Records, limit: u64) -> Option<
    Seq<(H256, Seq<H256>)>,
> {
    let tip = state.proposer_ledger_tip;
    match ledger_between(t.order, bottom_level(tip, limit) as nat, (tip + 1) as nat) {
        Some(blocks) => with_transactions(t.transaction_refs, blocks),
        None => None,
    }
}

/// Blocks with lists as sequences.
pub open spec fn pairs_of(list: Seq<(H256, Vec<H256>)>) -> Seq<(H256, Seq<H256>)> {
    list.map_values(|pair: (H256, Vec<H256>)| (pair.0, pair.1@))
}

/// A result with blocks and lists in it as sequences.
pub open spec fn as_pairs<E>(result: Result<Vec<(H256, Vec<H256>)>, Error<E>>) -> Result<
    Seq<(H256, Seq<H256>)>,
    Error<E>,
> {
    match result {
        Ok(list) => Ok(pairs_of(list@)),
        Err(error) => Err(error),
    }
}

/// The first block of level 1, the best block and its level; all zero if there is no block on
/// level 1.
pub open spec fn proposer_ends(state: ChainState, t: Records) -> (H256, H256, u64) {
    if has_block(t, 1) {
        (t.tree[1][0], state.proposer_best.0, state.proposer_best.1)
    } else {
        (NO_HASH, NO_HASH, 0)
    }
}

/// The last of some voter blocks that is on level 1 of a chain; zero if there is none.
pub open spec fn bottom_voter(t: Records, voters: Seq<(H256, u16)>, chain: u16) -> H256
    decreases voters.len(),
{
    if voters.len() == 0 {
        NO_HASH
    } else if voters.last().1 == chain && t.voter_level[voters.last().0] == 1 {
        voters.last().0
    } else {
        bottom_voter(t, voters.drop_last(), chain)
    }
}

/// Whether every voter block has a level, and those on level 1 are on one of the voter chains.
pub open spec fn placed(t: Records, voters: Seq<(H256, u16)>, chains: nat) -> bool {
    forall|i: int|
        0 <= i < voters.len() ==> t.voter_level.contains_key((#[trigger] voters[i]).0) && (
        t.voter_level[voters[i].0] == 1 ==> voters[i].1 < chains)
}

/// For each voter chain a block on level 1, the best block and its level, from the entries of the
/// column of chain numbers.
pub open spec fn voter_ends(
    state: ChainState,
    t: Records,
    entries: Seq<(Vec<u8>, Vec<u8>)>,
) -> Option<Seq<(H256, H256, u64)>> {
    match voters_in(entries, entries.len()) {
        Some(voters) => if placed(t, voters, state.voter_best.len()) {
            Some(
                Seq::new(
                    state.voter_best.len(),
                    |i: int|
                        (
                            bottom_voter(t, voters, i as u16),
                            state.voter_best[i].0,
                            state.voter_best[i].1,
                        ),
                ),
            )
        } else {
            None
        },
        None => None,
    }
}

impl BlockChain {
    /// The proposer block of the highest level, the first that was heard.
    pub fn best_proposer(&self) -> (block: H256)
        ensures
            block == self@.proposer_best.0,
    {
        self.proposer_best.0
    }

    /// The block of the highest level of a voter chain, the first that was heard.
    pub fn best_voter(&self, chain_num: usize) -> (block: H256)
        requires
            chain_num < self@.voter_best.len(),
        ensures
            block == self@.voter_best[chain_num as int].0,
    {
        self.voter_best[chain_num].0
    }

    /// The best proposer block and its level.
    pub fn proposer_best(&self) -> (best: (H256, u64))
        ensures
            best == self@.proposer_best,
    {
        self.proposer_best
    }

    /// The best block of a voter chain and its level.
    pub fn voter_best(&self, chain_num: usize) -> (best: (H256, u64))
        requires
            chain_num < self@.voter_best.len(),
        ensures
            best == self@.voter_best[chain_num as int],
    {
        self.voter_best[chain_num]
    }

    /// The number of voter chains.
    pub fn voter_chains(&self) -> (chains: usize)
        ensures
            chains == self@.voter_best.len(),
    {
        self.voter_best.len()
    }

    /// The last level that has blocks in the ledger.
    pub fn proposer_ledger_tip(&self) -> (tip: u64)
        ensures
            tip == self@.proposer_ledger_tip,
    {
        self.proposer_ledger_tip
    }

    /// The proposer blocks that are not in the ledger.
    pub fn unconfirmed_proposers(&self) -> (list: Vec<H256>)
        ensures
            list@.no_duplicates(),
            list@.to_set() == self@.unconfirmed_proposers,
    {
        self.unconfirmed_proposers.list()
    }

    /// The proposer blocks that no proposer block refers to.
    pub fn unreferred_proposers(&self) -> (list: Vec<H256>)
        ensures
            list@.no_duplicates(),
            list@.to_set() == self@.unreferred_proposers,
    {
        self.unreferred_proposers.list()
    }

    /// The transaction blocks that no proposer block refers to.
    pub fn unreferred_transactions(&self) -> (list: Vec<H256>)
        ensures
            list@.no_duplicates(),
            list@.to_set() == self@.unreferred_transactions,
    {
        self.unreferred_transactions.list()
    }

    /// The blocks that a voter block votes for, given the tip of its voter chain and its proposer
    /// parent: the first block that was heard on each level that the tip has not voted on.
    pub fn unvoted_proposer<R, E>(
        &self,
        read: &R,
        tip: &H256,
        proposer_parent: &H256,
    ) -> (result: Result<Vec<H256>, Error<E>>) where
        R: Fn(Column, Vec<u8>) -> Result<Option<Vec<u8>>, E>

        requires
            callable(*read),
            forall|t: Records| #[trigger]
                answers(*read, t) ==> t.voter_level.contains_key(*tip)
                    && t.proposer_level.contains_key(*proposer_parent),
        ensures
            forall|t: Records| #[trigger]
                answers(*read, t) ==> settles(
                    *read,
                    as_seq(result),
                    unvoted(t, *tip, *proposer_parent),
                ),
            forall|t: Records| #[trigger]
                answers(*read, t) ==> (result matches Ok(list) ==> forall|i: int|
                    0 <= i < list@.len() ==> #[trigger] list@[i] == t.tree[(t.voted_level[*tip] + 1
                        + i) as u64][0]),
    {
        let voted = match required(level_under(read, Column::VoterNodeVotedLevel, *tip)) {
            Ok(level) => level,
            Err(error) => {
                return Err(error);
            },
        };
        let last = match required(
            level_under(read, Column::ProposerNodeLevel, *proposer_parent),
        ) {
            Ok(level) => level,
            Err(error) => {
                return Err(error);
            },
        };
        if voted == u64::MAX {
            return Err(Error::Inconsistent);
        }
        let mut list: Vec<H256> = Vec::new();
        let mut level: u64 = voted;
        while level < last
            invariant
                callable(*read),
                voted <= level,
                level <= last || level == voted,
                list@.len() == level - voted,
                forall|t: Records| #[trigger]
                    answers(*read, t) ==> {
                        &&& t.voted_level.contains_key(*tip)
                        &&& t.voted_level[*tip] == voted
                        &&& voted < u64::MAX
                        &&& t.proposer_level.contains_key(*proposer_parent)
                        &&& t.proposer_level[*proposer_parent] == last
                        &&& forall|l: u64|
                            voted < l <= level ==> #[trigger] has_block(t, l) && list@[l - voted
                                - 1] == t.tree[l][0]
                    },
            decreases last - level,
        {
            let ghost before = list@;
            let blocks = match required(
                list_at_level(read, Column::ProposerTreeLevel, level + 1),
            ) {
                Ok(blocks) => blocks,
                Err(error) => {
                    assert forall|t: Records| #[trigger] answers(*read, t) implies settles(
                        *read,
                        Err::<Seq<H256>, Error<E>>(error),
                        unvoted(t, *tip, *proposer_parent),
                    ) by {
                        if error is Inconsistent {
                            assert(!has_block(t, (level + 1) as u64));
                        }
                    }
                    return Err(error);
                },
            };
            if blocks.len() == 0 {
                assert forall|t: Records| #[trigger] answers(*read, t) implies unvoted(
                    t,
                    *tip,
                    *proposer_parent,
                ) is None by {
                    assert(!has_block(t, (level + 1) as u64));
                }
                return Err(Error::Inconsistent);
            }
            list.push(blocks[0]);
            assert forall|t: Records| #[trigger] answers(*read, t) implies forall|l: u64|
                voted < l <= level + 1 ==> #[trigger] has_block(t, l) && list@[l - voted - 1]
                    == t.tree[l][0] by {
                assert forall|l: u64| voted < l <= level + 1 implies #[trigger] has_block(t, l)
                    && list@[l - voted - 1] == t.tree[l][0] by {
                    if l <= level {
                        assert(before[l - voted - 1] == list@[l - voted - 1]);
                    }
                }
            }
            level += 1;
        }
        assert forall|t: Records| #[trigger] answers(*read, t) implies unvoted(
            t,
            *tip,
            *proposer_parent,
        ) == Some(list@) by {
            let want = first_blocks(t, voted, last);
            assert forall|i: int| 0 <= i < want.len() implies want[i] == list@[i] by {
                assert(has_block(t, (voted + 1 + i) as u64));
            }
            assert(want =~= list@);
        }
        Ok(list)
    }

    /// The level of a proposer block.
    pub fn proposer_level<R, E>(&self, read: &R, hash: &H256) -> (result: Result<
        u64,
        Error<E>,
    >) where R: Fn(Column, Vec<u8>) -> Result<Option<Vec<u8>>, E>
        requires
            callable(*read),
            forall|t: Records| #[trigger]
                answers(*read, t) ==> t.proposer_level.contains_key(*hash),
        ensures
            forall|t: Records| #[trigger]
                answers(*read, t) ==> settles(*read, result, at(t.proposer_level, *hash)),
    {
        required(level_under(read, Column::ProposerNodeLevel, *hash))
    }

    /// The chain number of a voter block.
    pub fn voter_chain_number<R, E>(&self, read: &R, hash: &H256) -> (result: Result<
        u16,
        Error<E>,
    >) where R: Fn(Column, Vec<u8>) -> Result<Option<Vec<u8>>, E>
        requires
            callable(*read),
            forall|t: Records| #[trigger]
                answers(*read, t) ==> t.voter_level.contains_key(*hash),
        ensures
            forall|t: Records| #[trigger]
                answers(*read, t) ==> settles(*read, result, at(t.voter_chain, *hash)),
    {
        required(chain_under(read, *hash))
    }

    /// Whether a proposer block is known.
    pub fn contains_proposer<R, E>(&self, read: &R, hash: &H256) -> (result: Result<
        bool,
        Error<E>,
    >) where R: Fn(Column, Vec<u8>) -> Result<Option<Vec<u8>>, E>
        requires
            callable(*read),
        ensures
            forall|t: Records| #[trigger]
                answers(*read, t) ==> settles(
                    *read,
                    result,
                    Some(t.proposer_level.contains_key(*hash)),
                ),
    {
        has_record(read, Column::ProposerNodeLevel, *hash)
    }

    /// Whether a voter block is known.
    pub fn contains_voter<R, E>(&self, read: &R, hash: &H256) -> (result: Result<
        bool,
        Error<E>,
    >) where R: Fn(Column, Vec<u8>) -> Result<Option<Vec<u8>>, E>
        requires
            callable(*read),
        ensures
            forall|t: Records| #[trigger]
                answers(*read, t) ==> settles(
                    *read,
                    result,
                    Some(t.voter_level.contains_key(*hash)),
                ),
    {
        has_record(read, Column::VoterNodeLevel, *hash)
    }

    /// The blocks of the ledger in the levels that are at most `limit` below its tip, each with
    /// the transaction blocks that it refers to.
    pub fn proposer_transaction_in_ledger<R, E>(&self, read: &R, limit: u64) -> (result: Result<
        Vec<(H256, Vec<H256>)>,
        Error<E>,
    >) where R: Fn(Column, Vec<u8>) -> Result<Option<Vec<u8>>, E>
        requires
            callable(*read),
        ensures
            forall|t: Records| #[trigger]
                answers(*read, t) ==> settles(
                    *read,
                    as_pairs(result),
                    ledger_with_transactions(self@, t, limit),
                ),
            forall|t: Records| #[trigger]
                answers(*read, t) ==> (result matches Ok(list) ==> forall|i: int|
                    0 <= i < list@.len() ==> t.transaction_refs.contains_key(
                        (#[trigger] list@[i]).0,
                    ) && list@[i].1@ == t.transaction_refs[list@[i].0]),
    {
        let tip = self.proposer_ledger_tip;
        let bottom: u64 = if tip > limit {
            tip - limit
        } else {
            0
        };
        let blocks = match ledger_blocks(read, bottom, tip) {
            Ok(blocks) => blocks,
            Err(error) => {
                return Err(error);
            },
        };
        let mut ledger: Vec<(H256, Vec<H256>)> = Vec::new();
        for i in 0..blocks.len()
            invariant
                callable(*read),
                ledger@.len() == i,
                forall|t: Records| #[trigger]
                    answers(*read, t) ==> {
                        &&& ledger_between(
                            t.order,
                            bottom_level(self@.proposer_ledger_tip, limit) as nat,
                            (self@.proposer_ledger_tip + 1) as nat,
                        ) == Some(blocks@)
                        &&& forall|j: int|
                            0 <= j < i ==> t.transaction_refs.contains_key(#[trigger] blocks@[j])
                                && ledger@[j].0 == blocks@[j] && ledger@[j].1@
                                == t.transaction_refs[blocks@[j]]
                    },
        {
            let refs = match required(
                list_under(read, Column::TransactionRefNeighbor, blocks[i]),
            ) {
                Ok(refs) => refs,
                Err(error) => {
                    assert forall|t: Records| #[trigger] answers(*read, t) implies settles(
                        *read,
                        Err::<Seq<(H256, Seq<H256>)>, Error<E>>(error),
                        ledger_with_transactions(self@, t, limit),
                    ) by {
                        if error is Inconsistent {
                            assert(!t.transaction_refs.contains_key(blocks@[i as int]));
                        }
                    }
                    return Err(error);
                },
            };
            ledger.push((blocks[i], refs));
        }
        assert forall|t: Records| #[trigger] answers(*read, t) implies ledger_with_transactions(
            self@,
            t,
            limit,
        ) == Some(pairs_of(ledger@)) by {
            let want = with_transactions(t.transaction_refs, blocks@).unwrap();
            assert(want =~= pairs_of(ledger@));
        }
        assert forall|t: Records, i: int| #[trigger]
            answers(*read, t) && 0 <= i < ledger@.len() implies t.transaction_refs.contains_key(
            (#[trigger] ledger@[i]).0,
        ) && ledger@[i].1@ == t.transaction_refs[ledger@[i].0] by {
            let want = with_transactions(t.transaction_refs, blocks@).unwrap();
            assert(want[i] == pairs_of(ledger@)[i]);
            assert(t.transaction_refs.contains_key(blocks@[i]));
        }
        Ok(ledger)
    }

    /// The first proposer block of level 1, the best proposer block and its level; all zero if
    /// there is no block on level 1.
    pub fn proposer_bottom_tip<R, E>(&self, read: &R) -> (result: Result<
        (H256, H256, u64),
        Error<E>,
    >) where R: Fn(Column, Vec<u8>) -> Result<Option<Vec<u8>>, E>
        requires
            callable(*read),
        ensures
            forall|t: Records| #[trigger]
                answers(*read, t) ==> settles(*read, result, Some(proposer_ends(self@, t))),
            forall|t: Records| #[trigger]
                answers(*read, t) ==> (result matches Ok((bottom, best, level)) ==> if at(t.tree, 1)
                    matches Some(blocks) && blocks.len() > 0 {
                    bottom == t.tree[1][0] && (best, level) == self@.proposer_best
                } else {
                    bottom == (0u128, 0u128) && best == (0u128, 0u128) && level == 0
                }),
    {
        let blocks = match list_at_level(read, Column::ProposerTreeLevel, 1) {
            Ok(Some(blocks)) => blocks,
            Ok(None) => {
                return Ok((NO_HASH, NO_HASH, 0));
            },
            Err(error) => {
                return Err(error);
            },
        };
        if blocks.len() > 0 {
            Ok((blocks[0], self.proposer_best.0, self.proposer_best.1))
        } else {
            Ok((NO_HASH, NO_HASH, 0))
        }
    }

    /// For each voter chain a block on level 1, zero if there is none, the best block and its
    /// level. `voters` holds the entries of the column of chain numbers.
    pub fn voter_bottom_tip<R, E>(&self, read: &R, voters: &Vec<(Vec<u8>, Vec<u8>)>) -> (result:
        Result<Vec<(H256, H256, u64)>, Error<E>>) where
        R: Fn(Column, Vec<u8>) -> Result<Option<Vec<u8>>, E>

        requires
            self.wf(),
            callable(*read),
        ensures
            forall|t: Records| #[trigger]
                answers(*read, t) ==> settles(
                    *read,
                    as_seq(result),
                    voter_ends(self@, t, voters@),
                ),
            result matches Ok(list) ==> list@.len() == self@.voter_best.len() && forall|c: int|
                0 <= c < list@.len() ==> (#[trigger] list@[c]).1 == self@.voter_best[c].0
                    && list@[c].2 == self@.voter_best[c].1,
    {
        let mut ends: Vec<(H256, H256, u64)> = Vec::new();
        let chains: u16 = self.voter_best.len() as u16;
        for i in 0..chains
            invariant
                chains == self@.voter_best.len(),
                ends@.len() == i,
                forall|c: int| 0 <= c < i ==> (#[trigger] ends@[c]).0 == NO_HASH,
                forall|c: int| 0 <= c < i ==> (#[trigger] ends@[c]).1 == self@.voter_best[c].0,
                forall|c: int| 0 <= c < i ==> (#[trigger] ends@[c]).2 == self@.voter_best[c].1,
        {
            ends.push((NO_HASH, self.voter_best[i as usize].0, self.voter_best[i as usize].1));
        }
        let blocks = match decode_voters(voters) {
            Some(blocks) => blocks,
            None => {
                return Err(Error::Inconsistent);
            },
        };
        assert(blocks@.subrange(0, 0) =~= Seq::empty());
        for i in 0..blocks.len()
            invariant
                callable(*read),
                self.wf(),
                voters_in(voters@, voters@.len()) == Some(blocks@),
                ends@.len() == self@.voter_best.len(),
                forall|c: int|
                    0 <= c < ends@.len() ==> (#[trigger] ends@[c]).1 == self@.voter_best[c].0,
                forall|c: int|
                    0 <= c < ends@.len() ==> (#[trigger] ends@[c]).2 == self@.voter_best[c].1,
                forall|t: Records| #[trigger]
                    answers(*read, t) ==> {
                        &&& placed(t, blocks@.subrange(0, i as int), self@.voter_best.len())
                        &&& forall|c: int|
                            0 <= c < ends@.len() ==> (#[trigger] ends@[c]).0 == bottom_voter(
                                t,
                                blocks@.subrange(0, i as int),
                                c as u16,
                            )
                    },
        {
            let (block, chain) = blocks[i];
            let ghost before = blocks@.subrange(0, i as int);
            let ghost after = blocks@.subrange(0, i + 1);
            assert(after.drop_last() =~= before);
            assert(after.last() == blocks@[i as int]);
            let level = match required(level_under(read, Column::VoterNodeLevel, block)) {
                Ok(level) => level,
                Err(error) => {
                    assert forall|t: Records| #[trigger] answers(*read, t) implies settles(
                        *read,
                        Err::<Seq<(H256, H256, u64)>, Error<E>>(error),
                        voter_ends(self@, t, voters@),
                    ) by {
                        if error is Inconsistent {
                            assert(!t.voter_level.contains_key(blocks@[i as int].0));
                        }
                    }
                    return Err(error);
                },
            };
            if level == 1 {
                if chain as usize >= ends.len() {
                    assert forall|t: Records| #[trigger] answers(*read, t) implies voter_ends(
                        self@,
                        t,
                        voters@,
                    ) is None by {
                        assert(t.voter_level[blocks@[i as int].0] == 1);
                    }
                    return Err(Error::Inconsistent);
                }
                let end = ends[chain as usize];
                ends[chain as usize] = (block, end.1, end.2);
            }
            assert forall|t: Records| #[trigger] answers(*read, t) implies placed(
                t,
                after,
                self@.voter_best.len(),
            ) by {
                assert forall|j: int| 0 <= j < after.len() implies t.voter_level.contains_key(
                    (#[trigger] after[j]).0,
                ) && (t.voter_level[after[j].0] == 1 ==> after[j].1 < self@.voter_best.len()) by {
                    if j < i {
                        assert(before[j] == after[j]);
                    }
                }
            }
        }
        assert(blocks@.subrange(0, blocks@.len() as int) =~= blocks@);
        assert forall|t: Records| #[trigger] answers(*read, t) implies voter_ends(
            self@,
            t,
            voters@,
        ) == Some(ends@) by {
            assert(voter_ends(self@, t, voters@).unwrap() =~= ends@);
        }
        Ok(ends)
    }
}

impl Clone for BlockChain {
    fn clone(&self) -> (copy: BlockChain)
        ensures
            copy@ == self@,
    {
        let mut voter_best: Vec<(H256, u64)> = Vec::new();
        for i in 0..self.voter_best.len()
            invariant
                voter_best@ =~= self.voter_best@.subrange(0, i as int),
        {
            voter_best.push(self.voter_best[i]);
        }
        assert(voter_best@ =~= self.voter_best@);
        BlockChain {
            proposer_best: self.proposer_best,
            voter_best,
            unreferred_transactions: self.unreferred_transactions.copy(),
            unreferred_proposers: self.unreferred_proposers.copy(),
            unconfirmed_proposers: self.unconfirmed_proposers.copy(),
            proposer_ledger_tip: self.proposer_ledger_tip,
            voter_ledger_tips: copy_hashes(&self.voter_ledger_tips),
        }
    }
}

} // verus!
