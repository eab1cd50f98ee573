//! The byte form of the values that the chain keeps in its columns: what `bincode` writes under
//! its default configuration, that is integers of fixed width with the least significant byte
//! first, tuples field by field, and lists behind their length as a `u64`.

use vstd::bytes::*;
use vstd::prelude::*;

use crate::block::H256;

verus! {

/// The bytes of a level, and of every other `u64`.
pub open spec fn enc_level(level: u64) -> Seq<u8> {
    spec_u64_to_le_bytes(level)
}

/// The bytes of a chain number.
pub open spec fn enc_chain(chain: u16) -> Seq<u8> {
    spec_u16_to_le_bytes(chain)
}

/// The bytes of a hash: its own thirty-two bytes.
pub open spec fn enc_hash(hash: H256) -> Seq<u8> {
    spec_u128_to_le_bytes(hash.0) + spec_u128_to_le_bytes(hash.1)
}

/// The bytes of a list of hashes.
pub open spec fn enc_hashes(list: Seq<H256>) -> Seq<u8> {
    enc_level(list.len() as u64) + Seq::new(
        32 * list.len(),
        |i: int| enc_hash(list[i / 32])[i % 32],
    )
}

/// The bytes of one vote: the chain that casts it and the level of the voter block.
pub open spec fn enc_vote(vote: (u16, u64)) -> Seq<u8> {
    enc_chain(vote.0) + enc_level(vote.1)
}

/// The bytes of a list of votes.
pub open spec fn enc_votes(list: Seq<(u16, u64)>) -> Seq<u8> {
    enc_level(list.len() as u64) + Seq::new(
        10 * list.len(),
        |i: int| enc_vote(list[i / 10])[i % 10],
    )
}

/// The bytes of a change to a list of votes: whether the vote is added, then the vote.
pub open spec fn enc_vote_change(change: (bool, u16, u64)) -> Seq<u8> {
    seq![if change.0 { 1u8 } else { 0u8 }] + enc_vote((change.1, change.2))
}

/// The level that `bytes` start with.
pub open spec fn dec_level(bytes: Seq<u8>) -> Option<u64> {
    if bytes.len() >= 8 {
        Some(spec_u64_from_le_bytes(bytes.subrange(0, 8)))
    } else {
        None
    }
}

/// The chain number that `bytes` start with.
pub open spec fn dec_chain(bytes: Seq<u8>) -> Option<u16> {
    if bytes.len() >= 2 {
        Some(spec_u16_from_le_bytes(bytes.subrange(0, 2)))
    } else {
        None
    }
}

/// The hash that `bytes` start with.
pub open spec fn dec_hash(bytes: Seq<u8>) -> Option<H256> {
    if bytes.len() >= 32 {
        Some(
            (
                spec_u128_from_le_bytes(bytes.subrange(0, 16)),
                spec_u128_from_le_bytes(bytes.subrange(16, 32)),
            ),
        )
    } else {
        None
    }
}

/// The list of hashes that `bytes` start with.
pub open spec fn dec_hashes(bytes: Seq<u8>) -> Option<Seq<H256>> {
    match dec_level(bytes) {
        Some(n) => if bytes.len() >= 8 + 32 * n {
            Some(
                Seq::new(
                    n as nat,
                    |i: int| dec_hash(bytes.subrange(8 + 32 * i, 40 + 32 * i)).unwrap(),
                ),
            )
        } else {
            None
        },
        None => None,
    }
}

/// The vote that `bytes` start with.
pub open spec fn dec_vote(bytes: Seq<u8>) -> Option<(u16, u64)> {
    if bytes.len() >= 10 {
        Some(
            (
                spec_u16_from_le_bytes(bytes.subrange(0, 2)),
                spec_u64_from_le_bytes(bytes.subrange(2, 10)),
            ),
        )
    } else {
        None
    }
}

/// The list of votes that `bytes` start with.
pub open spec fn dec_votes(bytes: Seq<u8>) -> Option<Seq<(u16, u64)>> {
    match dec_level(bytes) {
        Some(n) => if bytes.len() >= 8 + 10 * n {
            Some(
                Seq::new(
                    n as nat,
                    |i: int| dec_vote(bytes.subrange(8 + 10 * i, 18 + 10 * i)).unwrap(),
                ),
            )
        } else {
            None
        },
        None => None,
    }
}

/// The change to a list of votes that `bytes` start with.
pub open spec fn dec_vote_change(bytes: Seq<u8>) -> Option<(bool, u16, u64)> {
    if bytes.len() >= 11 && bytes[0] <= 1 {
        Some(
            (
                bytes[0] == 1,
                spec_u16_from_le_bytes(bytes.subrange(1, 3)),
                spec_u64_from_le_bytes(bytes.subrange(3, 11)),
            ),
        )
    } else {
        None
    }
}

/// Calls `bincode::serialize` on a `u64`: eight bytes, the least significant first.
#[verifier::external_body]
pub(crate) fn encode_level(level: u64) -> (bytes: Vec<u8>)
    ensures
        bytes@ == enc_level(level),
{
    bincode::serialize(&level).unwrap()
}

/// Calls `bincode::serialize` on a `u16`: two bytes, the least significant first.
#[verifier::external_body]
pub(crate) fn encode_chain(chain: u16) -> (bytes: Vec<u8>)
    ensures
        bytes@ == enc_chain(chain),
{
    bincode::serialize(&chain).unwrap()
}

/// Calls `bincode::serialize` on a pair of `u128`: sixteen bytes for each, the least significant
/// first.
#[verifier::external_body]
pub(crate) fn encode_hash(hash: H256) -> (bytes: Vec<u8>)
    ensures
        bytes@ == enc_hash(hash),
{
    bincode::serialize(&hash).unwrap()
}

/// Calls `bincode::serialize` on a list of hashes: the length in eight bytes, then each hash.
#[verifier::external_body]
pub(crate) fn encode_hashes(list: &Vec<H256>) -> (bytes: Vec<u8>)
    ensures
        bytes@ == enc_hashes(list@),
{
    bincode::serialize(list).unwrap()
}

/// Calls `bincode::serialize` on a list of votes: the length in eight bytes, then for each vote
/// two bytes of chain number and eight of level.
#[verifier::external_body]
pub(crate) fn encode_votes(list: &Vec<(u16, u64)>) -> (bytes: Vec<u8>)
    ensures
        bytes@ == enc_votes(list@),
{
    bincode::serialize(list).unwrap()
}

/// Calls `bincode::serialize` on a triple: one byte, 1 for `true` and 0 for `false`, then the
/// chain number and the level.
#[verifier::external_body]
pub(crate) fn encode_vote_change(change: (bool, u16, u64)) -> (bytes: Vec<u8>)
    ensures
        bytes@ == enc_vote_change(change),
{
    bincode::serialize(&change).unwrap()
}

/// Calls `bincode::deserialize` for a `u64`: it reads the first eight bytes, leaves the others
/// unread, and fails if there are fewer.
#[verifier::external_body]
pub(crate) fn decode_level(bytes: &[u8]) -> (level: Option<u64>)
    ensures
        level == dec_level(bytes@),
{
    bincode::deserialize(bytes).ok()
}

/// Calls `bincode::deserialize` for a `u16`: it reads the first two bytes, leaves the others
/// unread, and fails if there are fewer.
#[verifier::external_body]
pub(crate) fn decode_chain(bytes: &[u8]) -> (chain: Option<u16>)
    ensures
        chain == dec_chain(bytes@),
{
    bincode::deserialize(bytes).ok()
}

/// Calls `bincode::deserialize` for a pair of `u128`: it reads the first thirty-two bytes, leaves
/// the others unread, and fails if there are fewer.
#[verifier::external_body]
pub(crate) fn decode_hash(bytes: &[u8]) -> (hash: Option<H256>)
    ensures
        hash == dec_hash(bytes@),
{
    bincode::deserialize(bytes).ok()
}

/// Calls `bincode::deserialize` for a list of hashes: it reads the length and as many hashes,
/// leaves the other bytes unread, and fails if there are too few.
#[verifier::external_body]
pub(crate) fn decode_hashes(bytes: &[u8]) -> (list: Option<Vec<H256>>)
    ensures
        match list {
            Some(v) => dec_hashes(bytes@) == Some(v@),
            None => dec_hashes(bytes@) is None,
        },
{
    bincode::deserialize(bytes).ok()
}

/// Calls `bincode::deserialize` for a list of votes: it reads the length and as many votes,
/// leaves the other bytes unread, and fails if there are too few.
#[verifier::external_body]
pub(crate) fn decode_votes(bytes: &[u8]) -> (list: Option<Vec<(u16, u64)>>)
    ensures
        match list {
            Some(v) => dec_votes(bytes@) == Some(v@),
            None => dec_votes(bytes@) is None,
        },
{
    bincode::deserialize(bytes).ok()
}

/// Calls `bincode::deserialize` for a triple: it reads the first eleven bytes, leaves the others
/// unread, and fails if there are fewer or if the first is neither 0 nor 1.
#[verifier::external_body]
pub(crate) fn decode_vote_change(bytes: &[u8]) -> (change: Option<(bool, u16, u64)>)
    ensures
        change == dec_vote_change(bytes@),
{
    bincode::deserialize(bytes).ok()
}

/// Reading back a level gives the level that was written.
pub proof fn law_level_round_trip(level: u64)
    ensures
        enc_level(level).len() == 8,
        dec_level(enc_level(level)) == Some(level),
{
    lemma_auto_spec_u64_to_from_le_bytes();
    assert(enc_level(level).subrange(0, 8) =~= enc_level(level));
}

/// Reading back a chain number gives the number that was written.
pub proof fn law_chain_round_trip(chain: u16)
    ensures
        enc_chain(chain).len() == 2,
        dec_chain(enc_chain(chain)) == Some(chain),
{
    lemma_auto_spec_u16_to_from_le_bytes();
    assert(enc_chain(chain).subrange(0, 2) =~= enc_chain(chain));
}

/// Reading back a hash gives the hash that was written.
pub proof fn law_hash_round_trip(hash: H256)
    ensures
        enc_hash(hash).len() == 32,
        dec_hash(enc_hash(hash)) == Some(hash),
{
    lemma_auto_spec_u128_to_from_le_bytes();
    assert(enc_hash(hash).subrange(0, 16) =~= spec_u128_to_le_bytes(hash.0));
    assert(enc_hash(hash).subrange(16, 32) =~= spec_u128_to_le_bytes(hash.1));
}

/// How many bytes lists take.
pub proof fn lemma_list_lengths(hashes: Seq<H256>, votes: Seq<(u16, u64)>)
    ensures
        enc_hashes(hashes).len() == 8 + 32 * hashes.len(),
        enc_votes(votes).len() == 8 + 10 * votes.len(),
{
    law_level_round_trip(hashes.len() as u64);
    law_level_round_trip(votes.len() as u64);
}

/// Reading back a list of hashes gives the list that was written.
pub proof fn law_hashes_round_trip(list: Seq<H256>)
    requires
        list.len() <= u64::MAX,
    ensures
        dec_hashes(enc_hashes(list)) == Some(list),
{
    let bytes = enc_hashes(list);
    let n = list.len() as u64;
    law_level_round_trip(n);
    assert(bytes.subrange(0, 8) =~= enc_level(n));
    assert(enc_level(n).subrange(0, 8) =~= enc_level(n));
    assert forall|i: int| 0 <= i < list.len() implies #[trigger] bytes.subrange(
        8 + 32 * i,
        40 + 32 * i,
    ) == enc_hash(list[i]) by {
        law_hash_round_trip(list[i]);
        assert forall|j: int| 0 <= j < 32 implies bytes.subrange(8 + 32 * i, 40 + 32 * i)[j]
            == enc_hash(list[i])[j] by {
            assert((32 * i + j) / 32 == i);
            assert((32 * i + j) % 32 == j);
        }
        assert(bytes.subrange(8 + 32 * i, 40 + 32 * i) =~= enc_hash(list[i]));
    }
    assert forall|i: int| 0 <= i < list.len() implies dec_hashes(bytes).unwrap()[i]
        == list[i] by {
        law_hash_round_trip(list[i]);
        assert(bytes.subrange(8 + 32 * i, 40 + 32 * i) == enc_hash(list[i]));
    }
    assert(dec_hashes(bytes).unwrap() =~= list);
}

/// Reading back a vote gives the vote that was written.
pub proof fn law_vote_round_trip(vote: (u16, u64))
    ensures
        enc_vote(vote).len() == 10,
        dec_vote(enc_vote(vote)) == Some(vote),
{
    lemma_auto_spec_u16_to_from_le_bytes();
    lemma_auto_spec_u64_to_from_le_bytes();
    assert(enc_vote(vote).subrange(0, 2) =~= enc_chain(vote.0));
    assert(enc_vote(vote).subrange(2, 10) =~= enc_level(vote.1));
}

/// Reading back a list of votes gives the list that was written.
pub proof fn law_votes_round_trip(list: Seq<(u16, u64)>)
    requires
        list.len() <= u64::MAX,
    ensures
        dec_votes(enc_votes(list)) == Some(list),
{
    let bytes = enc_votes(list);
    let n = list.len() as u64;
    law_level_round_trip(n);
    assert(bytes.subrange(0, 8) =~= enc_level(n));
    assert(enc_level(n).subrange(0, 8) =~= enc_level(n));
    assert forall|i: int| 0 <= i < list.len() implies #[trigger] bytes.subrange(
        8 + 10 * i,
        18 + 10 * i,
    ) == enc_vote(list[i]) by {
        law_vote_round_trip(list[i]);
        assert forall|j: int| 0 <= j < 10 implies bytes.subrange(8 + 10 * i, 18 + 10 * i)[j]
            == enc_vote(list[i])[j] by {
            assert((10 * i + j) / 10 == i);
            assert((10 * i + j) % 10 == j);
        }
        assert(bytes.subrange(8 + 10 * i, 18 + 10 * i) =~= enc_vote(list[i]));
    }
    assert forall|i: int| 0 <= i < list.len() implies dec_votes(bytes).unwrap()[i]
        == list[i] by {
        law_vote_round_trip(list[i]);
        assert(bytes.subrange(8 + 10 * i, 18 + 10 * i) == enc_vote(list[i]));
    }
    assert(dec_votes(bytes).unwrap() =~= list);
}

/// Reading back a change to a list of votes gives the change that was written.
pub proof fn law_vote_change_round_trip(change: (bool, u16, u64))
    ensures
        dec_vote_change(enc_vote_change(change)) == Some(change),
{
    lemma_auto_spec_u16_to_from_le_bytes();
    lemma_auto_spec_u64_to_from_le_bytes();
    assert(enc_vote_change(change).subrange(1, 3) =~= enc_chain(change.1));
    assert(enc_vote_change(change).subrange(3, 11) =~= enc_level(change.2));
}

} // verus!
