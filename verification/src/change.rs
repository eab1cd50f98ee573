//! Changes to the records, and the writes by which a database makes them.

use vstd::prelude::*;

use crate::block::H256;
use crate::codec::{
    enc_chain, enc_hash, enc_hashes, enc_level, enc_vote_change, encode_chain, encode_hash,
    encode_hashes, encode_level, encode_vote_change, law_hash_round_trip, law_hashes_round_trip,
    law_level_round_trip, law_vote_change_round_trip, law_votes_round_trip,
};
use crate::merge::{
    hash_merge, vote_merge, with_hash, with_hashes, with_vote_change, with_vote_changes,
    MergeOperator,
};
use crate::store::{answers, at, list_at, replies, Column, Records};

verus! {

/// A change to the records.
#[verifier::ext_equal]
pub enum Change {
    /// Sets the level of a proposer block.
    ProposerLevel(H256, u64),
    /// Sets the level of a voter block.
    VoterLevel(H256, u64),
    /// Sets the chain number of a voter block.
    VoterChain(H256, u16),
    /// Sets the deepest proposer level that a voter block has voted on.
    VotedLevel(H256, u64),
    /// Adds a proposer block to a level.
    TreeBlock(u64, H256),
    /// Adds (`true`) or removes (`false`) a vote for a proposer block, by the chain number and
    /// the level of the voter block.
    NodeVote(H256, bool, u16, u64),
    /// Sets the leader of a level.
    Leader(u64, H256),
    /// Takes the leader of a level away.
    NoLeader(u64),
    /// Sets the blocks that a level confirms.
    Order(u64, Seq<H256>),
    /// Takes the blocks that a level confirms away.
    NoOrder(u64),
    /// Sets the proposer parent of a block.
    Parent(H256, H256),
    /// Sets the voter parent of a voter block.
    VoterParent(H256, H256),
    /// Sets the blocks that a voter block votes for.
    Votes(H256, Seq<H256>),
    /// Adds a block to those that a voter block votes for.
    OneMoreVote(H256, H256),
    /// Sets the transaction blocks that a proposer block refers to.
    TransactionRefs(H256, Seq<H256>),
    /// Sets the proposer blocks that a proposer block refers to.
    ProposerRefs(H256, Seq<H256>),
}

/// A change to the records, as an executable value. Each variant is the one of [`Change`] with
/// the same name.
#[derive(Debug)]
pub enum Op {
    ProposerLevel(H256, u64),
    VoterLevel(H256, u64),
    VoterChain(H256, u16),
    VotedLevel(H256, u64),
    TreeBlock(u64, H256),
    NodeVote(H256, bool, u16, u64),
    Leader(u64, H256),
    NoLeader(u64),
    Order(u64, Vec<H256>),
    NoOrder(u64),
    Parent(H256, H256),
    VoterParent(H256, H256),
    Votes(H256, Vec<H256>),
    OneMoreVote(H256, H256),
    TransactionRefs(H256, Vec<H256>),
    ProposerRefs(H256, Vec<H256>),
}

impl View for Op {
    type V = Change;

    open spec fn view(&self) -> Change {
        match *self {
            Op::ProposerLevel(hash, level) => Change::ProposerLevel(hash, level),
            Op::VoterLevel(hash, level) => Change::VoterLevel(hash, level),
            Op::VoterChain(hash, chain) => Change::VoterChain(hash, chain),
            Op::VotedLevel(hash, level) => Change::VotedLevel(hash, level),
            Op::TreeBlock(level, hash) => Change::TreeBlock(level, hash),
            Op::NodeVote(hash, add, chain, level) => Change::NodeVote(hash, add, chain, level),
            Op::Leader(level, hash) => Change::Leader(level, hash),
            Op::NoLeader(level) => Change::NoLeader(level),
            Op::Order(level, list) => Change::Order(level, list@),
            Op::NoOrder(level) => Change::NoOrder(level),
            Op::Parent(hash, parent) => Change::Parent(hash, parent),
            Op::VoterParent(hash, parent) => Change::VoterParent(hash, parent),
            Op::Votes(hash, list) => Change::Votes(hash, list@),
            Op::OneMoreVote(hash, vote) => Change::OneMoreVote(hash, vote),
            Op::TransactionRefs(hash, list) => Change::TransactionRefs(hash, list@),
            Op::ProposerRefs(hash, list) => Change::ProposerRefs(hash, list@),
        }
    }
}

/// The changes that a list of operations makes, in order.
pub open spec fn changes_of(ops: Seq<Op>) -> Seq<Change> {
    ops.map_values(|op: Op| op@)
}

impl Records {
    /// The records after a change.
    pub open spec fn apply(self, change: Change) -> Records {
        match change {
            Change::ProposerLevel(hash, level) => Records {
                proposer_level: self.proposer_level.insert(hash, level),
                ..self
            },
            Change::VoterLevel(hash, level) => Records {
                voter_level: self.voter_level.insert(hash, level),
                ..self
            },
            Change::VoterChain(hash, chain) => Records {
                voter_chain: self.voter_chain.insert(hash, chain),
                ..self
            },
            Change::VotedLevel(hash, level) => Records {
                voted_level: self.voted_level.insert(hash, level),
                ..self
            },
            Change::TreeBlock(level, hash) => Records {
                tree: self.tree.insert(level, with_hash(list_at(self.tree, level), hash)),
                ..self
            },
            Change::NodeVote(hash, add, chain, level) => Records {
                node_votes: self.node_votes.insert(
                    hash,
                    with_vote_change(list_at(self.node_votes, hash), (add, chain, level)),
                ),
                ..self
            },
            Change::Leader(level, hash) => Records {
                leader: self.leader.insert(level, hash),
                ..self
            },
            Change::NoLeader(level) => Records { leader: self.leader.remove(level), ..self },
            Change::Order(level, list) => Records {
                order: self.order.insert(level, list),
                ..self
            },
            Change::NoOrder(level) => Records { order: self.order.remove(level), ..self },
            Change::Parent(hash, parent) => Records {
                parent: self.parent.insert(hash, parent),
                ..self
            },
            Change::VoterParent(hash, parent) => Records {
                voter_parent: self.voter_parent.insert(hash, parent),
                ..self
            },
            Change::Votes(hash, list) => Records { votes: self.votes.insert(hash, list), ..self },
            Change::OneMoreVote(hash, vote) => Records {
                votes: self.votes.insert(hash, with_hash(list_at(self.votes, hash), vote)),
                ..self
            },
            Change::TransactionRefs(hash, list) => Records {
                transaction_refs: self.transaction_refs.insert(hash, list),
                ..self
            },
            Change::ProposerRefs(hash, list) => Records {
                proposer_refs: self.proposer_refs.insert(hash, list),
                ..self
            },
        }
    }

    /// The records after a list of changes.
    pub open spec fn apply_all(self, changes: Seq<Change>) -> Records
        decreases changes.len(),
    {
        if changes.len() == 0 {
            self
        } else {
            self.apply_all(changes.drop_last()).apply(changes.last())
        }
    }
}

/// Changes made one list after the other are the changes of both lists together.
pub proof fn lemma_apply_all_concat(records: Records, first: Seq<Change>, second: Seq<Change>)
    ensures
        records.apply_all(first + second) == records.apply_all(first).apply_all(second),
    decreases second.len(),
{
    if second.len() == 0 {
        assert(first + second =~= first);
    } else {
        assert((first + second).drop_last() =~= first + second.drop_last());
        lemma_apply_all_concat(records, first, second.drop_last());
    }
}

/// How a write changes the bytes under its key.
pub enum RawWrite {
    Put(Seq<u8>),
    Merge(Seq<u8>),
    Delete,
}

/// A write to the database: a column, a key, and what happens to the bytes under it.
pub struct RawOp {
    pub column: Column,
    pub key: Seq<u8>,
    pub write: RawWrite,
}

/// How a write changes the bytes under its key, as an executable value.
#[derive(Debug)]
pub enum Write {
    /// Replaces them.
    Put(Vec<u8>),
    /// Combines them with a value, by the merge operator of the column.
    Merge(Vec<u8>),
    /// Removes them.
    Delete,
}

/// A write to the database, as an executable value.
#[derive(Debug)]
pub struct WriteOp {
    pub column: Column,
    pub key: Vec<u8>,
    pub write: Write,
}

impl View for WriteOp {
    type V = RawOp;

    open spec fn view(&self) -> RawOp {
        RawOp {
            column: self.column,
            key: self.key@,
            write: match self.write {
                Write::Put(value) => RawWrite::Put(value@),
                Write::Merge(value) => RawWrite::Merge(value@),
                Write::Delete => RawWrite::Delete,
            },
        }
    }
}

/// A write that replaces the bytes under a key.
pub open spec fn put(column: Column, key: Seq<u8>, value: Seq<u8>) -> RawOp {
    RawOp { column, key, write: RawWrite::Put(value) }
}

/// A write that merges a value into the bytes under a key.
pub open spec fn merge(column: Column, key: Seq<u8>, value: Seq<u8>) -> RawOp {
    RawOp { column, key, write: RawWrite::Merge(value) }
}

/// A write that removes the bytes under a key.
pub open spec fn delete(column: Column, key: Seq<u8>) -> RawOp {
    RawOp { column, key, write: RawWrite::Delete }
}

impl Change {
    /// The write by which a database makes the change.
    pub open spec fn raw(self) -> RawOp {
        match self {
            Change::ProposerLevel(hash, level) => put(
                Column::ProposerNodeLevel,
                enc_hash(hash),
                enc_level(level),
            ),
            Change::VoterLevel(hash, level) => put(
                Column::VoterNodeLevel,
                enc_hash(hash),
                enc_level(level),
            ),
            Change::VoterChain(hash, chain) => put(
                Column::VoterNodeChain,
                enc_hash(hash),
                enc_chain(chain),
            ),
            Change::VotedLevel(hash, level) => put(
                Column::VoterNodeVotedLevel,
                enc_hash(hash),
                enc_level(level),
            ),
            Change::TreeBlock(level, hash) => merge(
                Column::ProposerTreeLevel,
                enc_level(level),
                enc_hash(hash),
            ),
            Change::NodeVote(hash, add, chain, level) => merge(
                Column::ProposerNodeVote,
                enc_hash(hash),
                enc_vote_change((add, chain, level)),
            ),
            Change::Leader(level, hash) => put(
                Column::ProposerLeaderSequence,
                enc_level(level),
                enc_hash(hash),
            ),
            Change::NoLeader(level) => delete(Column::ProposerLeaderSequence, enc_level(level)),
            Change::Order(level, list) => put(
                Column::ProposerLedgerOrder,
                enc_level(level),
                enc_hashes(list),
            ),
            Change::NoOrder(level) => delete(Column::ProposerLedgerOrder, enc_level(level)),
            Change::Parent(hash, parent) => put(
                Column::ParentNeighbor,
                enc_hash(hash),
                enc_hash(parent),
            ),
            Change::VoterParent(hash, parent) => put(
                Column::VoterParentNeighbor,
                enc_hash(hash),
                enc_hash(parent),
            ),
            Change::Votes(hash, list) => put(
                Column::VoteNeighbor,
                enc_hash(hash),
                enc_hashes(list),
            ),
            Change::OneMoreVote(hash, vote) => merge(
                Column::VoteNeighbor,
                enc_hash(hash),
                enc_hash(vote),
            ),
            Change::TransactionRefs(hash, list) => put(
                Column::TransactionRefNeighbor,
                enc_hash(hash),
                enc_hashes(list),
            ),
            Change::ProposerRefs(hash, list) => put(
                Column::ProposerRefNeighbor,
                enc_hash(hash),
                enc_hashes(list),
            ),
        }
    }
}

impl Op {
    /// The write by which a database makes the change.
    pub fn encode(&self) -> (op: WriteOp)
        ensures
            op@ == self@.raw(),
    {
        match self {
            Op::ProposerLevel(hash, level) => WriteOp {
                column: Column::ProposerNodeLevel,
                key: encode_hash(*hash),
                write: Write::Put(encode_level(*level)),
            },
            Op::VoterLevel(hash, level) => WriteOp {
                column: Column::VoterNodeLevel,
                key: encode_hash(*hash),
                write: Write::Put(encode_level(*level)),
            },
            Op::VoterChain(hash, chain) => WriteOp {
                column: Column::VoterNodeChain,
                key: encode_hash(*hash),
                write: Write::Put(encode_chain(*chain)),
            },
            Op::VotedLevel(hash, level) => WriteOp {
                column: Column::VoterNodeVotedLevel,
                key: encode_hash(*hash),
                write: Write::Put(encode_level(*level)),
            },
            Op::TreeBlock(level, hash) => WriteOp {
                column: Column::ProposerTreeLevel,
                key: encode_level(*level),
                write: Write::Merge(encode_hash(*hash)),
            },
            Op::NodeVote(hash, add, chain, level) => WriteOp {
                column: Column::ProposerNodeVote,
                key: encode_hash(*hash),
                write: Write::Merge(encode_vote_change((*add, *chain, *level))),
            },
            Op::Leader(level, hash) => WriteOp {
                column: Column::ProposerLeaderSequence,
                key: encode_level(*level),
                write: Write::Put(encode_hash(*hash)),
            },
            Op::NoLeader(level) => WriteOp {
                column: Column::ProposerLeaderSequence,
                key: encode_level(*level),
                write: Write::Delete,
            },
            Op::Order(level, list) => WriteOp {
                column: Column::ProposerLedgerOrder,
                key: encode_level(*level),
                write: Write::Put(encode_hashes(list)),
            },
            Op::NoOrder(level) => WriteOp {
                column: Column::ProposerLedgerOrder,
                key: encode_level(*level),
                write: Write::Delete,
            },
            Op::Parent(hash, parent) => WriteOp {
                column: Column::ParentNeighbor,
                key: encode_hash(*hash),
                write: Write::Put(encode_hash(*parent)),
            },
            Op::VoterParent(hash, parent) => WriteOp {
                column: Column::VoterParentNeighbor,
                key: encode_hash(*hash),
                write: Write::Put(encode_hash(*parent)),
            },
            Op::Votes(hash, list) => WriteOp {
                column: Column::VoteNeighbor,
                key: encode_hash(*hash),
                write: Write::Put(encode_hashes(list)),
            },
            Op::OneMoreVote(hash, vote) => WriteOp {
                column: Column::VoteNeighbor,
                key: encode_hash(*hash),
                write: Write::Merge(encode_hash(*vote)),
            },
            Op::TransactionRefs(hash, list) => WriteOp {
                column: Column::TransactionRefNeighbor,
                key: encode_hash(*hash),
                write: Write::Put(encode_hashes(list)),
            },
            Op::ProposerRefs(hash, list) => WriteOp {
                column: Column::ProposerRefNeighbor,
                key: encode_hash(*hash),
                write: Write::Put(encode_hashes(list)),
            },
        }
    }
}

/// The bytes of a whole database.
pub type RawStore = Map<(Column, Seq<u8>), Seq<u8>>;

/// What a column makes of the bytes under a key and a merged value, if it can.
pub open spec fn merged(column: Column, existing: Option<Seq<u8>>, value: Seq<u8>) -> Option<
    Seq<u8>,
> {
    match column.spec_merge_operator() {
        Some(MergeOperator::AppendHash) => hash_merge(existing, seq![value]),
        Some(MergeOperator::ChangeVotes) => vote_merge(existing, seq![value]),
        None => None,
    }
}

/// A database after a write.
pub open spec fn after_write(store: RawStore, op: RawOp) -> RawStore {
    let place = (op.column, op.key);
    match op.write {
        RawWrite::Put(value) => store.insert(place, value),
        RawWrite::Merge(value) => match merged(op.column, at(store, place), value) {
            Some(bytes) => store.insert(place, bytes),
            None => store,
        },
        RawWrite::Delete => store.remove(place),
    }
}

/// Whether a database holds the given records.
pub open spec fn holds(store: RawStore, records: Records) -> bool {
    &&& forall|column: Column, hash: H256|
        !column.keyed_by_level() ==> at(store, (column, enc_hash(hash)))
            == #[trigger] records.by_hash(column, hash)
    &&& forall|column: Column, level: u64|
        column.keyed_by_level() ==> at(store, (column, enc_level(level)))
            == #[trigger] records.by_level(column, level)
}

/// Whether the lists that values are merged into have lengths that can be written down.
pub open spec fn storable(records: Records) -> bool {
    &&& forall|level: u64| (#[trigger] list_at(records.tree, level)).len() <= u64::MAX
    &&& forall|hash: H256| (#[trigger] list_at(records.votes, hash)).len() <= u64::MAX
    &&& forall|hash: H256| (#[trigger] list_at(records.node_votes, hash)).len() <= u64::MAX
}

/// A write takes a database from the records before a change to the records after it: what is
/// read back is what was written, and nothing else changes.
pub proof fn law_write_makes_change(store: RawStore, records: Records, change: Change)
    requires
        holds(store, records),
        storable(records),
    ensures
        holds(after_write(store, change.raw()), records.apply(change)),
{
    let after = after_write(store, change.raw());
    let next = records.apply(change);
    match change {
        Change::TreeBlock(level, hash) => {
            let list = list_at(records.tree, level);
            assert(at(store, (Column::ProposerTreeLevel, enc_level(level))) == records.by_level(
                Column::ProposerTreeLevel,
                level,
            ));
            lemma_hash_merge(records.tree.contains_key(level), list, hash);
        },
        Change::OneMoreVote(block, vote) => {
            let list = list_at(records.votes, block);
            assert(at(store, (Column::VoteNeighbor, enc_hash(block))) == records.by_hash(
                Column::VoteNeighbor,
                block,
            ));
            lemma_hash_merge(records.votes.contains_key(block), list, vote);
        },
        Change::NodeVote(block, add, chain, level) => {
            let list = list_at(records.node_votes, block);
            assert(at(store, (Column::ProposerNodeVote, enc_hash(block))) == records.by_hash(
                Column::ProposerNodeVote,
                block,
            ));
            lemma_vote_merge(
                records.node_votes.contains_key(block),
                list,
                (add, chain, level),
            );
        },
        _ => {},
    }
    assert forall|column: Column, hash: H256| !column.keyed_by_level() implies at(
        after,
        (column, enc_hash(hash)),
    ) == #[trigger] next.by_hash(column, hash) by {
        assert(at(store, (column, enc_hash(hash))) == records.by_hash(column, hash));
        lemma_keys_differ(change, column, hash, 0);
    }
    assert forall|column: Column, level: u64| column.keyed_by_level() implies at(
        after,
        (column, enc_level(level)),
    ) == #[trigger] next.by_level(column, level) by {
        assert(at(store, (column, enc_level(level))) == records.by_level(column, level));
        lemma_keys_differ(change, column, (0, 0), level);
    }
}

/// A database after the writes of a batch.
pub open spec fn after_writes(store: RawStore, changes: Seq<Change>) -> RawStore
    decreases changes.len(),
{
    if changes.len() == 0 {
        store
    } else {
        after_write(after_writes(store, changes.drop_last()), changes.last().raw())
    }
}

/// The writes of a batch take a database from the records before the changes to the records after
/// them.
pub proof fn law_batch_makes_changes(store: RawStore, records: Records, changes: Seq<Change>)
    requires
        holds(store, records),
        forall|i: int|
            0 <= i <= changes.len() ==> storable(
                #[trigger] records.apply_all(changes.subrange(0, i)),
            ),
    ensures
        holds(after_writes(store, changes), records.apply_all(changes)),
    decreases changes.len(),
{
    if changes.len() > 0 {
        let some = changes.drop_last();
        assert forall|i: int| 0 <= i <= some.len() implies storable(
            #[trigger] records.apply_all(some.subrange(0, i)),
        ) by {
            assert(some.subrange(0, i) =~= changes.subrange(0, i));
        }
        law_batch_makes_changes(store, records, some);
        assert(changes.subrange(0, some.len() as int) =~= some);
        law_write_makes_change(after_writes(store, some), records.apply_all(some), changes.last());
    }
}

/// A `read` that hands out what a database holds answers from the records that it holds.
pub proof fn law_read_of_database_answers<R, E>(read: R, store: RawStore, records: Records) where
    R: Fn(Column, Vec<u8>) -> Result<Option<Vec<u8>>, E>,

    requires
        holds(store, records),
        forall|column: Column, key: Vec<u8>, reply: Result<Option<Vec<u8>>, E>| #[trigger]
            call_ensures(read, (column, key), reply) ==> replies(reply, at(store, (column, key@))),
    ensures
        answers(read, records),
{
    assert forall|column: Column, key: Vec<u8>, hash: H256, reply: Result<Option<Vec<u8>>, E>|
        #![trigger call_ensures(read, (column, key), reply), records.by_hash(column, hash)]
        !column.keyed_by_level() && key@ == enc_hash(hash) && call_ensures(
            read,
            (column, key),
            reply,
        ) implies replies(reply, records.by_hash(column, hash)) by {
        assert(at(store, (column, enc_hash(hash))) == records.by_hash(column, hash));
    }
    assert forall|column: Column, key: Vec<u8>, level: u64, reply: Result<Option<Vec<u8>>, E>|
        #![trigger call_ensures(read, (column, key), reply), records.by_level(column, level)]
        column.keyed_by_level() && key@ == enc_level(level) && call_ensures(
            read,
            (column, key),
            reply,
        ) implies replies(reply, records.by_level(column, level)) by {
        assert(at(store, (column, enc_level(level))) == records.by_level(column, level));
    }
}

/// Keys are equal only where the hashes or levels that they stand for are.
proof fn lemma_keys_differ(change: Change, column: Column, hash: H256, level: u64)
    ensures
        change.raw().column == column && !column.keyed_by_level() && change.raw().key == enc_hash(
            hash,
        ) ==> (match change {
            Change::ProposerLevel(h, _)
            | Change::VoterLevel(h, _)
            | Change::VoterChain(h, _)
            | Change::VotedLevel(h, _)
            | Change::NodeVote(h, _, _, _)
            | Change::Parent(h, _)
            | Change::VoterParent(h, _)
            | Change::Votes(h, _)
            | Change::OneMoreVote(h, _)
            | Change::TransactionRefs(h, _)
            | Change::ProposerRefs(h, _) => h == hash,
            _ => false,
        }),
        change.raw().column == column && column.keyed_by_level() && change.raw().key == enc_level(
            level,
        ) ==> (match change {
            Change::TreeBlock(l, _)
            | Change::Leader(l, _)
            | Change::NoLeader(l)
            | Change::Order(l, _)
            | Change::NoOrder(l) => l == level,
            _ => false,
        }),
{
    law_hash_round_trip(hash);
    law_level_round_trip(level);
    match change {
        Change::ProposerLevel(h, _)
        | Change::VoterLevel(h, _)
        | Change::VoterChain(h, _)
        | Change::VotedLevel(h, _)
        | Change::NodeVote(h, _, _, _)
        | Change::Parent(h, _)
        | Change::VoterParent(h, _)
        | Change::Votes(h, _)
        | Change::OneMoreVote(h, _)
        | Change::TransactionRefs(h, _)
        | Change::ProposerRefs(h, _) => {
            law_hash_round_trip(h);
        },
        Change::TreeBlock(l, _)
        | Change::Leader(l, _)
        | Change::NoLeader(l)
        | Change::Order(l, _)
        | Change::NoOrder(l) => {
            law_level_round_trip(l);
        },
    }
}

/// Merging one hash into the bytes of a list.
proof fn lemma_hash_merge(present: bool, list: Seq<H256>, hash: H256)
    requires
        list.len() <= u64::MAX,
        !present ==> list.len() == 0,
    ensures
        hash_merge(
            if present {
                Some(enc_hashes(list))
            } else {
                None
            },
            seq![enc_hash(hash)],
        ) == Some(enc_hashes(with_hash(list, hash))),
{
    law_hashes_round_trip(list);
    law_hash_round_trip(hash);
    if !present {
        assert(list =~= Seq::empty());
    }
    let operands = seq![enc_hash(hash)];
    assert(with_hashes(list, operands, 0) == Some(list));
    assert(with_hashes(list, operands, 1) == Some(with_hash(list, hash)));
}

/// Merging one change into the bytes of a list of votes.
proof fn lemma_vote_merge(present: bool, list: Seq<(u16, u64)>, change: (bool, u16, u64))
    requires
        list.len() <= u64::MAX,
        !present ==> list.len() == 0,
    ensures
        vote_merge(
            if present {
                Some(crate::codec::enc_votes(list))
            } else {
                None
            },
            seq![enc_vote_change(change)],
        ) == Some(crate::codec::enc_votes(with_vote_change(list, change))),
{
    law_votes_round_trip(list);
    law_vote_change_round_trip(change);
    if !present {
        assert(list =~= Seq::empty());
    }
    let operands = seq![enc_vote_change(change)];
    assert(with_vote_changes(list, operands, 0) == Some(list));
    assert(with_vote_changes(list, operands, 1) == Some(with_vote_change(list, change)));
}

} // verus!
