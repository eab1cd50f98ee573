//! The columns of the database behind the chain, what they hold, and the changes made to them.
//!
//! The database itself lies outside this crate. Functions that need a record take a `read`
//! function, which is handed a column and a key and gives back the bytes found there. What they
//! return is stated for every set of [`Records`] from which `read` answers. Changes are handed
//! back as a list of [`crate::change::Op`]s for the caller to commit.

use vstd::prelude::*;

use crate::block::H256;
use crate::codec::{
    dec_chain, dec_hash, decode_chain, decode_hash, decode_hashes, decode_level, decode_votes,
    enc_chain, enc_hash, enc_hashes, enc_level, enc_votes, encode_hash, encode_level,
    law_chain_round_trip, law_hash_round_trip, law_hashes_round_trip, law_level_round_trip,
    law_votes_round_trip, lemma_list_lengths,
};
use crate::merge::MergeOperator;

verus! {

/// The columns of the database.
#[derive(Clone, Copy, Debug, PartialEq, Eq, Structural)]
pub enum Column {
    /// The level of each proposer block.
    ProposerNodeLevel,
    /// The level of each voter block.
    VoterNodeLevel,
    /// The chain number of each voter block.
    VoterNodeChain,
    /// The proposer blocks of each level, in the order in which they were heard.
    ProposerTreeLevel,
    /// The deepest proposer level that each voter block, with its ancestors, has voted on.
    VoterNodeVotedLevel,
    /// The votes that each proposer block has on the main voter chains.
    ProposerNodeVote,
    /// The leader of each proposer level.
    ProposerLeaderSequence,
    /// The proposer blocks that each level confirms, in the order of the ledger.
    ProposerLedgerOrder,
    /// The proposer parent of each block.
    ParentNeighbor,
    /// The proposer blocks that each voter block votes for.
    VoteNeighbor,
    /// The voter parent of each voter block.
    VoterParentNeighbor,
    /// The transaction blocks that each proposer block refers to.
    TransactionRefNeighbor,
    /// The proposer blocks that each proposer block refers to, its parent first.
    ProposerRefNeighbor,
}

impl Column {
    /// Whether the keys of the column are levels; the keys of the others are hashes.
    pub open spec fn keyed_by_level(self) -> bool {
        self is ProposerTreeLevel || self is ProposerLeaderSequence || self is ProposerLedgerOrder
    }

    /// The name of the column in the database.
    pub open spec fn spec_name(self) -> Seq<char> {
        match self {
            Column::ProposerNodeLevel => "PROPOSER_NODE_LEVEL"@,
            Column::VoterNodeLevel => "VOTER_NODE_LEVEL"@,
            Column::VoterNodeChain => "VOTER_NODE_CHAIN"@,
            Column::ProposerTreeLevel => "PROPOSER_TREE_LEVEL"@,
            Column::VoterNodeVotedLevel => "VOTER_NODE_VOTED_LEVEL"@,
            Column::ProposerNodeVote => "PROPOSER_NODE_VOTE"@,
            Column::ProposerLeaderSequence => "PROPOSER_LEADER_SEQUENCE"@,
            Column::ProposerLedgerOrder => "PROPOSER_LEDGER_ORDER"@,
            Column::ParentNeighbor => "GRAPH_PARENT_NEIGHBOR"@,
            Column::VoteNeighbor => "GRAPH_VOTE_NEIGHBOR"@,
            Column::VoterParentNeighbor => "GRAPH_VOTER_PARENT_NEIGHBOR"@,
            Column::TransactionRefNeighbor => "GRAPH_TRANSACTION_REF_NEIGHBOR"@,
            Column::ProposerRefNeighbor => "GRAPH_PROPOSER_REF_NEIGHBOR"@,
        }
    }

    /// The name of the column in the database.
    pub fn name(self) -> (name: &'static str)
        ensures
            name@ == self.spec_name(),
    {
        match self {
            Column::ProposerNodeLevel => "PROPOSER_NODE_LEVEL",
            Column::VoterNodeLevel => "VOTER_NODE_LEVEL",
            Column::VoterNodeChain => "VOTER_NODE_CHAIN",
            Column::ProposerTreeLevel => "PROPOSER_TREE_LEVEL",
            Column::VoterNodeVotedLevel => "VOTER_NODE_VOTED_LEVEL",
            Column::ProposerNodeVote => "PROPOSER_NODE_VOTE",
            Column::ProposerLeaderSequence => "PROPOSER_LEADER_SEQUENCE",
            Column::ProposerLedgerOrder => "PROPOSER_LEDGER_ORDER",
            Column::ParentNeighbor => "GRAPH_PARENT_NEIGHBOR",
            Column::VoteNeighbor => "GRAPH_VOTE_NEIGHBOR",
            Column::VoterParentNeighbor => "GRAPH_VOTER_PARENT_NEIGHBOR",
            Column::TransactionRefNeighbor => "GRAPH_TRANSACTION_REF_NEIGHBOR",
            Column::ProposerRefNeighbor => "GRAPH_PROPOSER_REF_NEIGHBOR",
        }
    }

    /// How the column combines a merged value with what it holds, if it takes merged values.
    pub open spec fn spec_merge_operator(self) -> Option<MergeOperator> {
        match self {
            Column::ProposerNodeVote => Some(MergeOperator::ChangeVotes),
            Column::ProposerTreeLevel
            | Column::ParentNeighbor
            | Column::VoteNeighbor
            | Column::VoterParentNeighbor
            | Column::TransactionRefNeighbor
            | Column::ProposerRefNeighbor => Some(MergeOperator::AppendHash),
            _ => None,
        }
    }

    /// How the column combines a merged value with what it holds, if it takes merged values.
    pub fn merge_operator(self) -> (operator: Option<MergeOperator>)
        ensures
            operator == self.spec_merge_operator(),
    {
        match self {
            Column::ProposerNodeVote => Some(MergeOperator::ChangeVotes),
            Column::ProposerTreeLevel
            | Column::ParentNeighbor
            | Column::VoteNeighbor
            | Column::VoterParentNeighbor
            | Column::TransactionRefNeighbor
            | Column::ProposerRefNeighbor => Some(MergeOperator::AppendHash),
            _ => None,
        }
    }

    /// Every column, each once.
    pub fn all() -> (columns: Vec<Column>)
        ensures
            columns@.no_duplicates(),
            forall|column: Column| columns@.contains(column),
    {
        let columns = vec![
            Column::ProposerNodeLevel,
            Column::VoterNodeLevel,
            Column::VoterNodeChain,
            Column::VoterNodeVotedLevel,
            Column::ProposerLeaderSequence,
            Column::ProposerLedgerOrder,
            Column::ProposerTreeLevel,
            Column::ProposerNodeVote,
            Column::ParentNeighbor,
            Column::VoteNeighbor,
            Column::VoterParentNeighbor,
            Column::TransactionRefNeighbor,
            Column::ProposerRefNeighbor,
        ];
        assert forall|column: Column| columns@.contains(column) by {
            match column {
                Column::ProposerNodeLevel => assert(columns@[0] == column),
                Column::VoterNodeLevel => assert(columns@[1] == column),
                Column::VoterNodeChain => assert(columns@[2] == column),
                Column::VoterNodeVotedLevel => assert(columns@[3] == column),
                Column::ProposerLeaderSequence => assert(columns@[4] == column),
                Column::ProposerLedgerOrder => assert(columns@[5] == column),
                Column::ProposerTreeLevel => assert(columns@[6] == column),
                Column::ProposerNodeVote => assert(columns@[7] == column),
                Column::ParentNeighbor => assert(columns@[8] == column),
                Column::VoteNeighbor => assert(columns@[9] == column),
                Column::VoterParentNeighbor => assert(columns@[10] == column),
                Column::TransactionRefNeighbor => assert(columns@[11] == column),
                Column::ProposerRefNeighbor => assert(columns@[12] == column),
            }
        }
        columns
    }
}

/// Why an operation on the chain did not come to an end.
#[derive(Debug, PartialEq, Eq)]
pub enum Error<E> {
    /// A read failed, with this error.
    Read(E),
    /// A record that must be there is missing or unreadable, or a level is out of range.
    Inconsistent,
}

/// The value of a map at a key, if there is one.
pub open spec fn at<K, V>(map: Map<K, V>, key: K) -> Option<V> {
    if map.contains_key(key) {
        Some(map[key])
    } else {
        None
    }
}

/// The list that a map holds at a key; the empty list where it holds none.
pub open spec fn list_at<K, V>(map: Map<K, Seq<V>>, key: K) -> Seq<V> {
    if map.contains_key(key) {
        map[key]
    } else {
        Seq::empty()
    }
}

/// What the columns hold, each as a map from its keys to its values.
#[verifier::ext_equal]
pub struct Records {
    pub proposer_level: Map<H256, u64>,
    pub voter_level: Map<H256, u64>,
    pub voter_chain: Map<H256, u16>,
    pub tree: Map<u64, Seq<H256>>,
    pub voted_level: Map<H256, u64>,
    pub node_votes: Map<H256, Seq<(u16, u64)>>,
    pub leader: Map<u64, H256>,
    pub order: Map<u64, Seq<H256>>,
    pub parent: Map<H256, H256>,
    pub votes: Map<H256, Seq<H256>>,
    pub voter_parent: Map<H256, H256>,
    pub transaction_refs: Map<H256, Seq<H256>>,
    pub proposer_refs: Map<H256, Seq<H256>>,
}

/// The bytes of an optional record.
pub open spec fn bytes_at<K, V>(map: Map<K, V>, key: K, enc: spec_fn(V) -> Seq<u8>) -> Option<
    Seq<u8>,
> {
    if map.contains_key(key) {
        Some(enc(map[key]))
    } else {
        None
    }
}

impl Records {
    /// The records of an empty database.
    pub open spec fn empty() -> Records {
        Records {
            proposer_level: Map::empty(),
            voter_level: Map::empty(),
            voter_chain: Map::empty(),
            tree: Map::empty(),
            voted_level: Map::empty(),
            node_votes: Map::empty(),
            leader: Map::empty(),
            order: Map::empty(),
            parent: Map::empty(),
            votes: Map::empty(),
            voter_parent: Map::empty(),
            transaction_refs: Map::empty(),
            proposer_refs: Map::empty(),
        }
    }

    /// The bytes under a hash in a column that is keyed by hashes.
    pub open spec fn by_hash(self, column: Column, hash: H256) -> Option<Seq<u8>> {
        let level = |level: u64| enc_level(level);
        let single = |hash: H256| enc_hash(hash);
        let list = |list: Seq<H256>| enc_hashes(list);
        match column {
            Column::ProposerNodeLevel => bytes_at(self.proposer_level, hash, level),
            Column::VoterNodeLevel => bytes_at(self.voter_level, hash, level),
            Column::VoterNodeChain => bytes_at(
                self.voter_chain,
                hash,
                |chain: u16| enc_chain(chain),
            ),
            Column::VoterNodeVotedLevel => bytes_at(self.voted_level, hash, level),
            Column::ProposerNodeVote => bytes_at(
                self.node_votes,
                hash,
                |list: Seq<(u16, u64)>| enc_votes(list),
            ),
            Column::ParentNeighbor => bytes_at(self.parent, hash, single),
            Column::VoteNeighbor => bytes_at(self.votes, hash, list),
            Column::VoterParentNeighbor => bytes_at(self.voter_parent, hash, single),
            Column::TransactionRefNeighbor => bytes_at(self.transaction_refs, hash, list),
            Column::ProposerRefNeighbor => bytes_at(self.proposer_refs, hash, list),
            _ => None,
        }
    }

    /// The bytes under a level in a column that is keyed by levels.
    pub open spec fn by_level(self, column: Column, level: u64) -> Option<Seq<u8>> {
        let list = |list: Seq<H256>| enc_hashes(list);
        match column {
            Column::ProposerTreeLevel => bytes_at(self.tree, level, list),
            Column::ProposerLeaderSequence => bytes_at(
                self.leader,
                level,
                |hash: H256| enc_hash(hash),
            ),
            Column::ProposerLedgerOrder => bytes_at(self.order, level, list),
            _ => None,
        }
    }
}

/// Whether `read` can be called on every column and key.
pub open spec fn callable<R, E>(read: R) -> bool where
    R: Fn(Column, Vec<u8>) -> Result<Option<Vec<u8>>, E>,
 {
    forall|column: Column, key: Vec<u8>| #[trigger] call_requires(read, (column, key))
}

/// Whether a reply is the given bytes, or a failure.
pub open spec fn replies<E>(reply: Result<Option<Vec<u8>>, E>, bytes: Option<Seq<u8>>) -> bool {
    match reply {
        Ok(Some(found)) => bytes == Some(found@),
        Ok(None) => bytes is None,
        Err(_) => true,
    }
}

/// Whether `read` answers from `records`: whenever it does not fail, it gives back the bytes that
/// the column holds under the key.
pub open spec fn answers<R, E>(read: R, records: Records) -> bool where
    R: Fn(Column, Vec<u8>) -> Result<Option<Vec<u8>>, E>,
 {
    &&& forall|column: Column, key: Vec<u8>, hash: H256, reply: Result<Option<Vec<u8>>, E>|
        #![trigger call_ensures(read, (column, key), reply), records.by_hash(column, hash)]
        !column.keyed_by_level() && key@ == enc_hash(hash) && call_ensures(
            read,
            (column, key),
            reply,
        ) ==> replies(reply, records.by_hash(column, hash))
    &&& forall|column: Column, key: Vec<u8>, level: u64, reply: Result<Option<Vec<u8>>, E>|
        #![trigger call_ensures(read, (column, key), reply), records.by_level(column, level)]
        column.keyed_by_level() && key@ == enc_level(level) && call_ensures(
            read,
            (column, key),
            reply,
        ) ==> replies(reply, records.by_level(column, level))
}

/// Whether some call of `read` may fail with this error.
pub open spec fn read_fails<R, E>(read: R, error: E) -> bool where
    R: Fn(Column, Vec<u8>) -> Result<Option<Vec<u8>>, E>,
 {
    exists|column: Column, key: Vec<u8>| call_ensures(read, (column, key), Err(error))
}

/// Whether `result` is what is wanted of an operation: the value if there is one, and
/// [`Error::Inconsistent`] if there is none; or else an error with which `read` failed.
pub open spec fn settles<R, E, V>(
    read: R,
    result: Result<V, Error<E>>,
    want: Option<V>,
) -> bool where
    R: Fn(Column, Vec<u8>) -> Result<Option<Vec<u8>>, E>,
 {
    match result {
        Ok(value) => want == Some(value),
        Err(Error::Inconsistent) => want is None,
        Err(Error::Read(error)) => read_fails(read, error),
    }
}

/// A result with the list in it as a sequence.
pub open spec fn as_seq<T, E>(result: Result<Vec<T>, Error<E>>) -> Result<Seq<T>, Error<E>> {
    match result {
        Ok(list) => Ok(list@),
        Err(error) => Err(error),
    }
}

/// A result with the optional list in it as a sequence.
pub open spec fn as_opt_seq<T, E>(result: Result<Option<Vec<T>>, Error<E>>) -> Result<
    Option<Seq<T>>,
    Error<E>,
> {
    match result {
        Ok(Some(list)) => Ok(Some(list@)),
        Ok(None) => Ok(None),
        Err(error) => Err(error),
    }
}

impl Records {
    /// The levels that a column holds under hashes.
    pub open spec fn levels(self, column: Column) -> Map<H256, u64> {
        match column {
            Column::ProposerNodeLevel => self.proposer_level,
            Column::VoterNodeLevel => self.voter_level,
            _ => self.voted_level,
        }
    }

    /// The hashes that a column holds under hashes.
    pub open spec fn links(self, column: Column) -> Map<H256, H256> {
        match column {
            Column::ParentNeighbor => self.parent,
            _ => self.voter_parent,
        }
    }

    /// The lists of hashes that a column holds under hashes.
    pub open spec fn lists(self, column: Column) -> Map<H256, Seq<H256>> {
        match column {
            Column::VoteNeighbor => self.votes,
            Column::TransactionRefNeighbor => self.transaction_refs,
            _ => self.proposer_refs,
        }
    }

    /// The lists of hashes that a column holds under levels.
    pub open spec fn level_lists(self, column: Column) -> Map<u64, Seq<H256>> {
        match column {
            Column::ProposerTreeLevel => self.tree,
            _ => self.order,
        }
    }
}

/// The bytes that were read, as a sequence.
pub open spec fn found_bytes(found: Option<Vec<u8>>) -> Option<Seq<u8>> {
    match found {
        Some(bytes) => Some(bytes@),
        None => None,
    }
}

/// Reads the bytes under a hash.
fn bytes_under<R, E>(read: &R, column: Column, hash: H256) -> (result: Result<
    Option<Vec<u8>>,
    Error<E>,
>) where R: Fn(Column, Vec<u8>) -> Result<Option<Vec<u8>>, E>
    requires
        callable(*read),
        !column.keyed_by_level(),
    ensures
        match result {
            Ok(found) => forall|t: Records| #[trigger]
                answers(*read, t) ==> found_bytes(found) == t.by_hash(column, hash),
            Err(Error::Read(error)) => read_fails(*read, error),
            Err(Error::Inconsistent) => false,
        },
{
    let key = encode_hash(hash);
    match read(column, key) {
        Ok(found) => {
            assert forall|t: Records| #[trigger] answers(*read, t) implies found_bytes(found)
                == t.by_hash(column, hash) by {
                assert(replies(Ok::<Option<Vec<u8>>, E>(found), t.by_hash(column, hash)));
            }
            Ok(found)
        },
        Err(error) => Err(Error::Read(error)),
    }
}

/// Reads the bytes under a level.
fn bytes_at_level<R, E>(read: &R, column: Column, level: u64) -> (result: Result<
    Option<Vec<u8>>,
    Error<E>,
>) where R: Fn(Column, Vec<u8>) -> Result<Option<Vec<u8>>, E>
    requires
        callable(*read),
        column.keyed_by_level(),
    ensures
        match result {
            Ok(found) => forall|t: Records| #[trigger]
                answers(*read, t) ==> found_bytes(found) == t.by_level(column, level),
            Err(Error::Read(error)) => read_fails(*read, error),
            Err(Error::Inconsistent) => false,
        },
{
    let key = encode_level(level);
    match read(column, key) {
        Ok(found) => {
            assert forall|t: Records| #[trigger] answers(*read, t) implies found_bytes(found)
                == t.by_level(column, level) by {
                assert(replies(Ok::<Option<Vec<u8>>, E>(found), t.by_level(column, level)));
            }
            Ok(found)
        },
        Err(error) => Err(Error::Read(error)),
    }
}

/// Takes a record that must be there.
pub(crate) fn required<V, E>(result: Result<Option<V>, Error<E>>) -> (value: Result<V, Error<E>>)
    ensures
        value == (match result {
            Ok(Some(v)) => Ok::<V, Error<E>>(v),
            Ok(None) => Err(Error::Inconsistent),
            Err(error) => Err(error),
        }),
{
    match result {
        Ok(Some(v)) => Ok(v),
        Ok(None) => Err(Error::Inconsistent),
        Err(error) => Err(error),
    }
}

/// Whether a record is there under a hash.
pub(crate) fn has_record<R, E>(read: &R, column: Column, hash: H256) -> (result: Result<
    bool,
    Error<E>,
>) where R: Fn(Column, Vec<u8>) -> Result<Option<Vec<u8>>, E>
    requires
        callable(*read),
        !column.keyed_by_level(),
    ensures
        forall|t: Records| #[trigger]
            answers(*read, t) ==> settles(*read, result, Some(t.by_hash(column, hash) is Some)),
{
    match bytes_under(read, column, hash) {
        Ok(Some(_)) => Ok(true),
        Ok(None) => Ok(false),
        Err(error) => Err(error),
    }
}

/// Reads the level under a hash.
pub(crate) fn level_under<R, E>(read: &R, column: Column, hash: H256) -> (result: Result<
    Option<u64>,
    Error<E>,
>) where R: Fn(Column, Vec<u8>) -> Result<Option<Vec<u8>>, E>
    requires
        callable(*read),
        column is ProposerNodeLevel || column is VoterNodeLevel || column is VoterNodeVotedLevel,
    ensures
        forall|t: Records| #[trigger]
            answers(*read, t) ==> settles(*read, result, Some(at(t.levels(column), hash))),
{
    match bytes_under(read, column, hash) {
        Ok(Some(bytes)) => {
            let level = decode_level(bytes.as_slice());
            assert forall|t: Records| #[trigger] answers(*read, t) implies level is Some && level
                == at(t.levels(column), hash) by {
                law_level_round_trip(t.levels(column)[hash]);
                assert(t.by_hash(column, hash) == Some(bytes@));
            }
            match level {
                Some(level) => Ok(Some(level)),
                None => Err(Error::Inconsistent),
            }
        },
        Ok(None) => {
            assert forall|t: Records| #[trigger] answers(*read, t) implies at(
                t.levels(column),
                hash,
            ) is None by {
                assert(t.by_hash(column, hash) is None);
            }
            Ok(None)
        },
        Err(error) => Err(error),
    }
}

/// Reads the chain number of a voter block.
pub(crate) fn chain_under<R, E>(read: &R, hash: H256) -> (result: Result<
    Option<u16>,
    Error<E>,
>) where R: Fn(Column, Vec<u8>) -> Result<Option<Vec<u8>>, E>
    requires
        callable(*read),
    ensures
        forall|t: Records| #[trigger]
            answers(*read, t) ==> settles(*read, result, Some(at(t.voter_chain, hash))),
{
    let column = Column::VoterNodeChain;
    match bytes_under(read, column, hash) {
        Ok(Some(bytes)) => {
            let chain = decode_chain(bytes.as_slice());
            assert forall|t: Records| #[trigger] answers(*read, t) implies chain is Some && chain
                == at(t.voter_chain, hash) by {
                law_chain_round_trip(t.voter_chain[hash]);
                assert(t.by_hash(column, hash) == Some(bytes@));
            }
            match chain {
                Some(chain) => Ok(Some(chain)),
                None => Err(Error::Inconsistent),
            }
        },
        Ok(None) => {
            assert forall|t: Records| #[trigger] answers(*read, t) implies at(
                t.voter_chain,
                hash,
            ) is None by {
                assert(t.by_hash(column, hash) is None);
            }
            Ok(None)
        },
        Err(error) => Err(error),
    }
}

/// Reads the hash under a hash.
pub(crate) fn link_under<R, E>(read: &R, column: Column, hash: H256) -> (result: Result<
    Option<H256>,
    Error<E>,
>) where R: Fn(Column, Vec<u8>) -> Result<Option<Vec<u8>>, E>
    requires
        callable(*read),
        column is ParentNeighbor || column is VoterParentNeighbor,
    ensures
        forall|t: Records| #[trigger]
            answers(*read, t) ==> settles(*read, result, Some(at(t.links(column), hash))),
{
    match bytes_under(read, column, hash) {
        Ok(Some(bytes)) => {
            let link = decode_hash(bytes.as_slice());
            assert forall|t: Records| #[trigger] answers(*read, t) implies link is Some && link
                == at(t.links(column), hash) by {
                law_hash_round_trip(t.links(column)[hash]);
                assert(t.by_hash(column, hash) == Some(bytes@));
            }
            match link {
                Some(link) => Ok(Some(link)),
                None => Err(Error::Inconsistent),
            }
        },
        Ok(None) => {
            assert forall|t: Records| #[trigger] answers(*read, t) implies at(
                t.links(column),
                hash,
            ) is None by {
                assert(t.by_hash(column, hash) is None);
            }
            Ok(None)
        },
        Err(error) => Err(error),
    }
}

/// Reads the list of hashes under a hash.
pub(crate) fn list_under<R, E>(read: &R, column: Column, hash: H256) -> (result: Result<
    Option<Vec<H256>>,
    Error<E>,
>) where R: Fn(Column, Vec<u8>) -> Result<Option<Vec<u8>>, E>
    requires
        callable(*read),
        column is VoteNeighbor || column is TransactionRefNeighbor || column is ProposerRefNeighbor,
    ensures
        forall|t: Records| #[trigger]
            answers(*read, t) ==> settles(
                *read,
                as_opt_seq(result),
                Some(at(t.lists(column), hash)),
            ),
{
    match bytes_under(read, column, hash) {
        Ok(Some(bytes)) => {
            let list = decode_hashes(bytes.as_slice());
            assert forall|t: Records| #[trigger] answers(*read, t) implies list is Some && Some(
                list.unwrap()@,
            ) == at(t.lists(column), hash) by {
                assert(t.by_hash(column, hash) == Some(bytes@));
                lemma_list_lengths(t.lists(column)[hash], Seq::empty());
                assert(bytes.len() == bytes@.len());
                law_hashes_round_trip(t.lists(column)[hash]);
            }
            match list {
                Some(list) => Ok(Some(list)),
                None => Err(Error::Inconsistent),
            }
        },
        Ok(None) => {
            assert forall|t: Records| #[trigger] answers(*read, t) implies at(
                t.lists(column),
                hash,
            ) is None by {
                assert(t.by_hash(column, hash) is None);
            }
            Ok(None)
        },
        Err(error) => Err(error),
    }
}

/// Reads the votes of a proposer block.
pub(crate) fn votes_under<R, E>(read: &R, hash: H256) -> (result: Result<
    Option<Vec<(u16, u64)>>,
    Error<E>,
>) where R: Fn(Column, Vec<u8>) -> Result<Option<Vec<u8>>, E>
    requires
        callable(*read),
    ensures
        forall|t: Records| #[trigger]
            answers(*read, t) ==> settles(
                *read,
                as_opt_seq(result),
                Some(at(t.node_votes, hash)),
            ),
{
    let column = Column::ProposerNodeVote;
    match bytes_under(read, column, hash) {
        Ok(Some(bytes)) => {
            let list = decode_votes(bytes.as_slice());
            assert forall|t: Records| #[trigger] answers(*read, t) implies list is Some && Some(
                list.unwrap()@,
            ) == at(t.node_votes, hash) by {
                assert(t.by_hash(column, hash) == Some(bytes@));
                lemma_list_lengths(Seq::empty(), t.node_votes[hash]);
                assert(bytes.len() == bytes@.len());
                law_votes_round_trip(t.node_votes[hash]);
            }
            match list {
                Some(list) => Ok(Some(list)),
                None => Err(Error::Inconsistent),
            }
        },
        Ok(None) => {
            assert forall|t: Records| #[trigger] answers(*read, t) implies at(
                t.node_votes,
                hash,
            ) is None by {
                assert(t.by_hash(column, hash) is None);
            }
            Ok(None)
        },
        Err(error) => Err(error),
    }
}

/// Reads the list of hashes under a level.
pub(crate) fn list_at_level<R, E>(read: &R, column: Column, level: u64) -> (result: Result<
    Option<Vec<H256>>,
    Error<E>,
>) where R: Fn(Column, Vec<u8>) -> Result<Option<Vec<u8>>, E>
    requires
        callable(*read),
        column is ProposerTreeLevel || column is ProposerLedgerOrder,
    ensures
        forall|t: Records| #[trigger]
            answers(*read, t) ==> settles(
                *read,
                as_opt_seq(result),
                Some(at(t.level_lists(column), level)),
            ),
{
    match bytes_at_level(read, column, level) {
        Ok(Some(bytes)) => {
            let list = decode_hashes(bytes.as_slice());
            assert forall|t: Records| #[trigger] answers(*read, t) implies list is Some && Some(
                list.unwrap()@,
            ) == at(t.level_lists(column), level) by {
                assert(t.by_level(column, level) == Some(bytes@));
                lemma_list_lengths(t.level_lists(column)[level], Seq::empty());
                assert(bytes.len() == bytes@.len());
                law_hashes_round_trip(t.level_lists(column)[level]);
            }
            match list {
                Some(list) => Ok(Some(list)),
                None => Err(Error::Inconsistent),
            }
        },
        Ok(None) => {
            assert forall|t: Records| #[trigger] answers(*read, t) implies at(
                t.level_lists(column),
                level,
            ) is None by {
                assert(t.by_level(column, level) is None);
            }
            Ok(None)
        },
        Err(error) => Err(error),
    }
}

/// Reads the leader of a level.
pub(crate) fn leader_at_level<R, E>(read: &R, level: u64) -> (result: Result<
    Option<H256>,
    Error<E>,
>) where R: Fn(Column, Vec<u8>) -> Result<Option<Vec<u8>>, E>
    requires
        callable(*read),
    ensures
        forall|t: Records| #[trigger]
            answers(*read, t) ==> settles(*read, result, Some(at(t.leader, level))),
{
    let column = Column::ProposerLeaderSequence;
    match bytes_at_level(read, column, level) {
        Ok(Some(bytes)) => {
            let leader = decode_hash(bytes.as_slice());
            assert forall|t: Records| #[trigger] answers(*read, t) implies leader is Some && leader
                == at(t.leader, level) by {
                assert(t.by_level(column, level) == Some(bytes@));
                law_hash_round_trip(t.leader[level]);
            }
            match leader {
                Some(leader) => Ok(Some(leader)),
                None => Err(Error::Inconsistent),
            }
        },
        Ok(None) => {
            assert forall|t: Records| #[trigger] answers(*read, t) implies at(
                t.leader,
                level,
            ) is None by {
                assert(t.by_level(column, level) is None);
            }
            Ok(None)
        },
        Err(error) => Err(error),
    }
}

/// The voter blocks and chain numbers in the first `n` entries of the column of chain numbers.
pub open spec fn voters_in(entries: Seq<(Vec<u8>, Vec<u8>)>, n: nat) -> Option<Seq<(H256, u16)>>
    decreases n,
{
    if n == 0 {
        Some(Seq::empty())
    } else {
        match (
            voters_in(entries, (n - 1) as nat),
            dec_hash(entries[n - 1].0@),
            dec_chain(entries[n - 1].1@),
        ) {
            (Some(before), Some(block), Some(chain)) => Some(before.push((block, chain))),
            _ => None,
        }
    }
}

proof fn lemma_voters_none(entries: Seq<(Vec<u8>, Vec<u8>)>, n: nat, m: nat)
    requires
        n <= m,
        voters_in(entries, n) is None,
    ensures
        voters_in(entries, m) is None,
    decreases m,
{
    if n < m {
        lemma_voters_none(entries, n, (m - 1) as nat);
    }
}

/// The voter blocks and chain numbers in the entries of the column of chain numbers, if all of
/// them can be decoded.
pub(crate) fn decode_voters(entries: &Vec<(Vec<u8>, Vec<u8>)>) -> (result: Option<
    Vec<(H256, u16)>,
>)
    ensures
        match result {
            Some(voters) => voters_in(entries@, entries@.len()) == Some(voters@),
            None => voters_in(entries@, entries@.len()) is None,
        },
{
    let mut voters: Vec<(H256, u16)> = Vec::new();
    assert(voters@ =~= Seq::empty());
    for i in 0..entries.len()
        invariant
            voters_in(entries@, i as nat) == Some(voters@),
    {
        match (
            decode_hash(entries[i].0.as_slice()),
            decode_chain(entries[i].1.as_slice()),
        ) {
            (Some(block), Some(chain)) => {
                voters.push((block, chain));
            },
            _ => {
                proof {
                    lemma_voters_none(entries@, (i + 1) as nat, entries@.len());
                }
                return None;
            },
        }
    }
    Some(voters)
}

/// No two columns have the same name.
pub proof fn law_column_names_differ(a: Column, b: Column)
    requires
        a.spec_name() == b.spec_name(),
    ensures
        a == b,
{
    reveal_strlit("PROPOSER_NODE_LEVEL");
    reveal_strlit("VOTER_NODE_LEVEL");
    reveal_strlit("VOTER_NODE_CHAIN");
    reveal_strlit("PROPOSER_TREE_LEVEL");
    reveal_strlit("VOTER_NODE_VOTED_LEVEL");
    reveal_strlit("PROPOSER_NODE_VOTE");
    reveal_strlit("PROPOSER_LEADER_SEQUENCE");
    reveal_strlit("PROPOSER_LEDGER_ORDER");
    reveal_strlit("GRAPH_PARENT_NEIGHBOR");
    reveal_strlit("GRAPH_VOTE_NEIGHBOR");
    reveal_strlit("GRAPH_VOTER_PARENT_NEIGHBOR");
    reveal_strlit("GRAPH_TRANSACTION_REF_NEIGHBOR");
    reveal_strlit("GRAPH_PROPOSER_REF_NEIGHBOR");
    let name = a.spec_name();
    let other = b.spec_name();
    assert(name.len() == other.len());
    assert(name[0] == other[0]);
    assert(name[6] == other[6]);
    assert(name[9] == other[9]);
    assert(name[11] == other[11]);
}

/// The names under which a database has the columns.
pub proof fn law_column_names()
    ensures
        Column::ProposerNodeLevel.spec_name() == "PROPOSER_NODE_LEVEL"@,
        Column::VoterNodeLevel.spec_name() == "VOTER_NODE_LEVEL"@,
        Column::VoterNodeChain.spec_name() == "VOTER_NODE_CHAIN"@,
        Column::ProposerTreeLevel.spec_name() == "PROPOSER_TREE_LEVEL"@,
        Column::VoterNodeVotedLevel.spec_name() == "VOTER_NODE_VOTED_LEVEL"@,
        Column::ProposerNodeVote.spec_name() == "PROPOSER_NODE_VOTE"@,
        Column::ProposerLeaderSequence.spec_name() == "PROPOSER_LEADER_SEQUENCE"@,
        Column::ProposerLedgerOrder.spec_name() == "PROPOSER_LEDGER_ORDER"@,
        Column::ParentNeighbor.spec_name() == "GRAPH_PARENT_NEIGHBOR"@,
        Column::VoteNeighbor.spec_name() == "GRAPH_VOTE_NEIGHBOR"@,
        Column::VoterParentNeighbor.spec_name() == "GRAPH_VOTER_PARENT_NEIGHBOR"@,
        Column::TransactionRefNeighbor.spec_name() == "GRAPH_TRANSACTION_REF_NEIGHBOR"@,
        Column::ProposerRefNeighbor.spec_name() == "GRAPH_PROPOSER_REF_NEIGHBOR"@,
{
}

/// The column of votes changes votes; those of levels of blocks and of neighbours add hashes; no
/// other column takes merged values.
pub proof fn law_merging_columns(column: Column)
    ensures
        column.spec_merge_operator() == Some(MergeOperator::ChangeVotes) <==> column
            == Column::ProposerNodeVote,
        column.spec_merge_operator() == Some(MergeOperator::AppendHash) <==> column
            == Column::ProposerTreeLevel || column == Column::ParentNeighbor || column
            == Column::VoteNeighbor || column == Column::VoterParentNeighbor || column
            == Column::TransactionRefNeighbor || column == Column::ProposerRefNeighbor,
{
}

/// What each column has under a hash.
pub proof fn law_columns_by_hash(t: Records, hash: H256)
    ensures
        t.by_hash(Column::ProposerNodeLevel, hash) == (if t.proposer_level.contains_key(hash) {
            Some(enc_level(t.proposer_level[hash]))
        } else {
            None
        }),
        t.by_hash(Column::VoterNodeLevel, hash) == (if t.voter_level.contains_key(hash) {
            Some(enc_level(t.voter_level[hash]))
        } else {
            None
        }),
        t.by_hash(Column::VoterNodeChain, hash) == (if t.voter_chain.contains_key(hash) {
            Some(enc_chain(t.voter_chain[hash]))
        } else {
            None
        }),
        t.by_hash(Column::VoterNodeVotedLevel, hash) == (if t.voted_level.contains_key(hash) {
            Some(enc_level(t.voted_level[hash]))
        } else {
            None
        }),
        t.by_hash(Column::ProposerNodeVote, hash) == (if t.node_votes.contains_key(hash) {
            Some(enc_votes(t.node_votes[hash]))
        } else {
            None
        }),
        t.by_hash(Column::ParentNeighbor, hash) == (if t.parent.contains_key(hash) {
            Some(enc_hash(t.parent[hash]))
        } else {
            None
        }),
        t.by_hash(Column::VoteNeighbor, hash) == (if t.votes.contains_key(hash) {
            Some(enc_hashes(t.votes[hash]))
        } else {
            None
        }),
        t.by_hash(Column::VoterParentNeighbor, hash) == (if t.voter_parent.contains_key(hash) {
            Some(enc_hash(t.voter_parent[hash]))
        } else {
            None
        }),
        t.by_hash(Column::TransactionRefNeighbor, hash) == (if t.transaction_refs.contains_key(
            hash,
        ) {
            Some(enc_hashes(t.transaction_refs[hash]))
        } else {
            None
        }),
        t.by_hash(Column::ProposerRefNeighbor, hash) == (if t.proposer_refs.contains_key(hash) {
            Some(enc_hashes(t.proposer_refs[hash]))
        } else {
            None
        }),
{
}

/// What each column that is keyed by levels has under a level.
pub proof fn law_columns_by_level(t: Records, level: u64)
    ensures
        t.by_level(Column::ProposerTreeLevel, level) == (if t.tree.contains_key(level) {
            Some(enc_hashes(t.tree[level]))
        } else {
            None
        }),
        t.by_level(Column::ProposerLeaderSequence, level) == (if t.leader.contains_key(level) {
            Some(enc_hash(t.leader[level]))
        } else {
            None
        }),
        t.by_level(Column::ProposerLedgerOrder, level) == (if t.order.contains_key(level) {
            Some(enc_hashes(t.order[level]))
        } else {
            None
        }),
{
}

} // verus!
