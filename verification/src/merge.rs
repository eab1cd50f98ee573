//! How a column combines merged values with what it holds.

use vstd::prelude::*;

use crate::block::{same_hash, H256};
use crate::codec::{
    dec_hash, dec_hashes, dec_vote_change, dec_votes, decode_hash, decode_hashes,
    decode_vote_change, decode_votes, enc_hash, enc_hashes, enc_vote_change, enc_votes,
    encode_hashes, encode_votes, law_hash_round_trip, law_hashes_round_trip,
    law_vote_change_round_trip, law_votes_round_trip,
};

verus! {

/// A way of combining merged values with what a column holds.
#[derive(Clone, Copy, Debug, PartialEq, Eq, Structural)]
pub enum MergeOperator {
    /// The column holds lists of hashes, and a merged hash is added at the end.
    AppendHash,
    /// The column holds lists of votes, and a merged value adds or removes one.
    ChangeVotes,
}

impl MergeOperator {
    /// The name under which a database knows the operator.
    pub open spec fn spec_name(self) -> Seq<char> {
        match self {
            MergeOperator::AppendHash => "append H256 vec"@,
            MergeOperator::ChangeVotes => "insert or remove vote"@,
        }
    }

    /// The name under which a database knows the operator.
    pub fn name(self) -> (name: &'static str)
        ensures
            name@ == self.spec_name(),
    {
        match self {
            MergeOperator::AppendHash => "append H256 vec",
            MergeOperator::ChangeVotes => "insert or remove vote",
        }
    }
}

/// A list of hashes with one more, unless it is in the list already.
pub open spec fn with_hash(list: Seq<H256>, hash: H256) -> Seq<H256> {
    if list.contains(hash) {
        list
    } else {
        list.push(hash)
    }
}

/// The index, from `start` on, of the first vote that chain `chain` has in `list`; the length of
/// the list if it has none.
pub open spec fn first_vote_of(list: Seq<(u16, u64)>, chain: u16, start: int) -> int
    decreases list.len() - start,
{
    if start >= list.len() {
        list.len() as int
    } else if list[start].0 == chain {
        start
    } else {
        first_vote_of(list, chain, start + 1)
    }
}

/// A list of votes after a change `(add, chain, level)`. A vote is added at the end, unless it is
/// in the list already. Where one is removed, it is the first of its chain, and the last vote of
/// the list takes its place.
pub open spec fn with_vote_change(list: Seq<(u16, u64)>, change: (bool, u16, u64)) -> Seq<
    (u16, u64),
> {
    if change.0 {
        if list.contains((change.1, change.2)) {
            list
        } else {
            list.push((change.1, change.2))
        }
    } else {
        let i = first_vote_of(list, change.1, 0);
        if i < list.len() {
            list.update(i, list.last()).drop_last()
        } else {
            list
        }
    }
}

/// A list of hashes after the first `n` of the merged values; none if one of them is unreadable.
pub open spec fn with_hashes(list: Seq<H256>, operands: Seq<Seq<u8>>, n: nat) -> Option<Seq<H256>>
    decreases n,
{
    if n == 0 {
        Some(list)
    } else {
        match (with_hashes(list, operands, (n - 1) as nat), dec_hash(operands[n - 1])) {
            (Some(before), Some(hash)) => Some(with_hash(before, hash)),
            _ => None,
        }
    }
}

/// A list of votes after the first `n` of the merged values; none if one of them is unreadable.
pub open spec fn with_vote_changes(list: Seq<(u16, u64)>, operands: Seq<Seq<u8>>, n: nat) -> Option<
    Seq<(u16, u64)>,
>
    decreases n,
{
    if n == 0 {
        Some(list)
    } else {
        match (
            with_vote_changes(list, operands, (n - 1) as nat),
            dec_vote_change(operands[n - 1]),
        ) {
            (Some(before), Some(change)) => Some(with_vote_change(before, change)),
            _ => None,
        }
    }
}

/// The bytes of a list of hashes after merged values; none if something is unreadable.
pub open spec fn hash_merge(existing: Option<Seq<u8>>, operands: Seq<Seq<u8>>) -> Option<Seq<u8>> {
    let start = match existing {
        Some(bytes) => dec_hashes(bytes),
        None => Some(Seq::empty()),
    };
    match start {
        Some(list) => match with_hashes(list, operands, operands.len()) {
            Some(merged) => Some(enc_hashes(merged)),
            None => None,
        },
        None => None,
    }
}

/// The bytes of a list of votes after merged values; none if something is unreadable.
pub open spec fn vote_merge(existing: Option<Seq<u8>>, operands: Seq<Seq<u8>>) -> Option<Seq<u8>> {
    let start = match existing {
        Some(bytes) => dec_votes(bytes),
        None => Some(Seq::empty()),
    };
    match start {
        Some(list) => match with_vote_changes(list, operands, operands.len()) {
            Some(merged) => Some(enc_votes(merged)),
            None => None,
        },
        None => None,
    }
}

/// The optional bytes that a merge starts from.
pub open spec fn existing_bytes(existing: Option<&[u8]>) -> Option<Seq<u8>> {
    match existing {
        Some(bytes) => Some(bytes@),
        None => None,
    }
}

/// The bytes of each operand.
pub open spec fn operand_bytes(operands: Seq<Vec<u8>>) -> Seq<Seq<u8>> {
    operands.map_values(|operand: Vec<u8>| operand@)
}

/// Whether `list` holds `hash`.
pub fn holds_hash(list: &Vec<H256>, hash: H256) -> (found: bool)
    ensures
        found == list@.contains(hash),
{
    for i in 0..list.len()
        invariant
            forall|j: int| 0 <= j < i ==> list@[j] != hash,
    {
        if same_hash(list[i], hash) {
            assert(list@[i as int] == hash);
            return true;
        }
    }
    false
}

/// Makes one change to a list of votes.
pub fn change_votes(list: &mut Vec<(u16, u64)>, change: (bool, u16, u64))
    ensures
        final(list)@ == with_vote_change(old(list)@, change),
{
    if change.0 {
        let vote = (change.1, change.2);
        let n: usize = list.len();
        for i in 0..n
            invariant
                n == list@.len(),
                list@ == old(list)@,
                vote == (change.1, change.2),
                change.0,
                forall|j: int| 0 <= j < i ==> list@[j] != vote,
        {
            if list[i].0 == vote.0 && list[i].1 == vote.1 {
                assert(list@[i as int] == vote);
                return ;
            }
        }
        list.push(vote);
    } else {
        let n: usize = list.len();
        for i in 0..n
            invariant
                n == list@.len(),
                list@ == old(list)@,
                !change.0,
                first_vote_of(list@, change.1, 0) == first_vote_of(list@, change.1, i as int),
        {
            if list[i].0 == change.1 {
                list.swap_remove(i);
                return ;
            }
        }
    }
}

/// Combines a stored list of votes with merged changes. The result is none, which the database
/// takes as a failure, if the list or a change is unreadable.
pub fn vote_vec_merge(existing_val: Option<&[u8]>, operands: &Vec<Vec<u8>>) -> (merged: Option<
    Vec<u8>,
>)
    ensures
        match merged {
            Some(bytes) => vote_merge(existing_bytes(existing_val), operand_bytes(operands@))
                == Some(bytes@),
            None => vote_merge(existing_bytes(existing_val), operand_bytes(operands@)) is None,
        },
{
    let mut existing: Vec<(u16, u64)> = match existing_val {
        Some(bytes) => match decode_votes(bytes) {
            Some(list) => list,
            None => {
                return None;
            },
        },
        None => Vec::new(),
    };
    let ghost start = existing@;
    let ghost ops = operand_bytes(operands@);
    for i in 0..operands.len()
        invariant
            ops == operand_bytes(operands@),
            with_vote_changes(start, ops, i as nat) == Some(existing@),
            match existing_bytes(existing_val) {
                Some(bytes) => dec_votes(bytes) == Some(start),
                None => start == Seq::<(u16, u64)>::empty(),
            },
    {
        match decode_vote_change(operands[i].as_slice()) {
            Some(change) => change_votes(&mut existing, change),
            None => {
                proof {
                    lemma_vote_changes_none(start, ops, (i + 1) as nat, ops.len());
                }
                return None;
            },
        }
    }
    Some(encode_votes(&existing))
}

/// Combines a stored list of hashes with merged hashes. The result is none, which the database
/// takes as a failure, if the list or a hash is unreadable.
pub fn h256_vec_append_merge(existing_val: Option<&[u8]>, operands: &Vec<Vec<u8>>) -> (merged:
    Option<Vec<u8>>)
    ensures
        match merged {
            Some(bytes) => hash_merge(existing_bytes(existing_val), operand_bytes(operands@))
                == Some(bytes@),
            None => hash_merge(existing_bytes(existing_val), operand_bytes(operands@)) is None,
        },
{
    let mut existing: Vec<H256> = match existing_val {
        Some(bytes) => match decode_hashes(bytes) {
            Some(list) => list,
            None => {
                return None;
            },
        },
        None => Vec::new(),
    };
    let ghost start = existing@;
    let ghost ops = operand_bytes(operands@);
    for i in 0..operands.len()
        invariant
            ops == operand_bytes(operands@),
            with_hashes(start, ops, i as nat) == Some(existing@),
            match existing_bytes(existing_val) {
                Some(bytes) => dec_hashes(bytes) == Some(start),
                None => start == Seq::<H256>::empty(),
            },
    {
        match decode_hash(operands[i].as_slice()) {
            Some(hash) => {
                if !holds_hash(&existing, hash) {
                    existing.push(hash);
                }
            },
            None => {
                proof {
                    lemma_hashes_none(start, ops, (i + 1) as nat, ops.len());
                }
                return None;
            },
        }
    }
    Some(encode_hashes(&existing))
}

proof fn lemma_vote_changes_none(list: Seq<(u16, u64)>, operands: Seq<Seq<u8>>, n: nat, m: nat)
    requires
        n <= m,
        with_vote_changes(list, operands, n) is None,
    ensures
        with_vote_changes(list, operands, m) is None,
    decreases m,
{
    if n < m {
        lemma_vote_changes_none(list, operands, n, (m - 1) as nat);
    }
}

proof fn lemma_hashes_none(list: Seq<H256>, operands: Seq<Seq<u8>>, n: nat, m: nat)
    requires
        n <= m,
        with_hashes(list, operands, n) is None,
    ensures
        with_hashes(list, operands, m) is None,
    decreases m,
{
    if n < m {
        lemma_hashes_none(list, operands, n, (m - 1) as nat);
    }
}

pub(crate) proof fn lemma_first_vote(list: Seq<(u16, u64)>, chain: u16, start: int)
    requires
        0 <= start <= list.len(),
    ensures
        ({
            let i = first_vote_of(list, chain, start);
            &&& start <= i <= list.len()
            &&& i < list.len() ==> list[i].0 == chain
            &&& forall|j: int| start <= j < i ==> (#[trigger] list[j]).0 != chain
        }),
    decreases list.len() - start,
{
    if start < list.len() && list[start].0 != chain {
        lemma_first_vote(list, chain, start + 1);
    }
}

proof fn lemma_vote_change_length(list: Seq<(u16, u64)>, operands: Seq<Seq<u8>>, n: nat)
    ensures
        with_vote_changes(list, operands, n) matches Some(merged) ==> merged.len() <= list.len()
            + n,
    decreases n,
{
    if n > 0 {
        lemma_vote_change_length(list, operands, (n - 1) as nat);
        if let (Some(before), Some(change)) = (
            with_vote_changes(list, operands, (n - 1) as nat),
            dec_vote_change(operands[n - 1]),
        ) {
            lemma_first_vote(before, change.1, 0);
        }
    }
}

proof fn lemma_hashes_length(list: Seq<H256>, operands: Seq<Seq<u8>>, n: nat)
    ensures
        with_hashes(list, operands, n) matches Some(merged) ==> merged.len() <= list.len() + n,
    decreases n,
{
    if n > 0 {
        lemma_hashes_length(list, operands, (n - 1) as nat);
    }
}

proof fn lemma_vote_changes_concat(
    list: Seq<(u16, u64)>,
    first: Seq<Seq<u8>>,
    second: Seq<Seq<u8>>,
    n: nat,
)
    requires
        n <= first.len() + second.len(),
    ensures
        with_vote_changes(list, first + second, n) == if n <= first.len() {
            with_vote_changes(list, first, n)
        } else {
            match with_vote_changes(list, first, first.len()) {
                Some(middle) => with_vote_changes(middle, second, (n - first.len()) as nat),
                None => None,
            }
        },
    decreases n,
{
    if n > 0 {
        lemma_vote_changes_concat(list, first, second, (n - 1) as nat);
        if n <= first.len() {
            assert((first + second)[n - 1] == first[n - 1]);
        } else {
            assert((first + second)[n - 1] == second[n - 1 - first.len()]);
        }
    }
}

proof fn lemma_hashes_concat(
    list: Seq<H256>,
    first: Seq<Seq<u8>>,
    second: Seq<Seq<u8>>,
    n: nat,
)
    requires
        n <= first.len() + second.len(),
    ensures
        with_hashes(list, first + second, n) == if n <= first.len() {
            with_hashes(list, first, n)
        } else {
            match with_hashes(list, first, first.len()) {
                Some(middle) => with_hashes(middle, second, (n - first.len()) as nat),
                None => None,
            }
        },
    decreases n,
{
    if n > 0 {
        lemma_hashes_concat(list, first, second, (n - 1) as nat);
        if n <= first.len() {
            assert((first + second)[n - 1] == first[n - 1]);
        } else {
            assert((first + second)[n - 1] == second[n - 1 - first.len()]);
        }
    }
}

/// How many bytes there are.
pub open spec fn size_of(bytes: Option<Seq<u8>>) -> nat {
    match bytes {
        Some(bytes) => bytes.len(),
        None => 0,
    }
}

/// Changes of votes may be merged all at once, or some first and the others into what comes of
/// these.
pub proof fn law_vote_merge_in_steps(
    existing: Option<Seq<u8>>,
    first: Seq<Seq<u8>>,
    second: Seq<Seq<u8>>,
)
    requires
        vote_merge(existing, first) is Some,
        size_of(existing) + first.len() <= u64::MAX,
    ensures
        vote_merge(existing, first + second) == vote_merge(vote_merge(existing, first), second),
{
    let list = match existing {
        Some(bytes) => dec_votes(bytes).unwrap(),
        None => Seq::empty(),
    };
    let middle = with_vote_changes(list, first, first.len()).unwrap();
    lemma_vote_change_length(list, first, first.len());
    law_votes_round_trip(middle);
    lemma_vote_changes_concat(list, first, second, first.len() + second.len());
    if second.len() == 0 {
        assert(with_vote_changes(middle, second, 0) == Some(middle));
    }
}

/// Hashes may be merged all at once, or some first and the others into what comes of these.
pub proof fn law_hash_merge_in_steps(
    existing: Option<Seq<u8>>,
    first: Seq<Seq<u8>>,
    second: Seq<Seq<u8>>,
)
    requires
        hash_merge(existing, first) is Some,
        size_of(existing) + first.len() <= u64::MAX,
    ensures
        hash_merge(existing, first + second) == hash_merge(hash_merge(existing, first), second),
{
    let list = match existing {
        Some(bytes) => dec_hashes(bytes).unwrap(),
        None => Seq::empty(),
    };
    let middle = with_hashes(list, first, first.len()).unwrap();
    lemma_hashes_length(list, first, first.len());
    law_hashes_round_trip(middle);
    lemma_hashes_concat(list, first, second, first.len() + second.len());
    if second.len() == 0 {
        assert(with_hashes(middle, second, 0) == Some(middle));
    }
}

/// Adding a vote, or a hash, a second time changes nothing.
pub proof fn law_second_addition_changes_nothing(
    votes: Seq<(u16, u64)>,
    chain: u16,
    level: u64,
    hashes: Seq<H256>,
    hash: H256,
)
    ensures
        ({
            let once = with_vote_change(votes, (true, chain, level));
            with_vote_change(once, (true, chain, level)) == once
        }),
        with_hash(with_hash(hashes, hash), hash) == with_hash(hashes, hash),
{
    if !votes.contains((chain, level)) {
        assert(votes.push((chain, level))[votes.len() as int] == (chain, level));
    }
    if !hashes.contains(hash) {
        assert(hashes.push(hash)[hashes.len() as int] == hash);
    }
}

proof fn lemma_first_vote_is_last(list: Seq<(u16, u64)>, chain: u16, start: int)
    requires
        0 <= start < list.len(),
        forall|i: int| 0 <= i < list.len() - 1 ==> (#[trigger] list[i]).0 != chain,
        list.last().0 == chain,
    ensures
        first_vote_of(list, chain, start) == list.len() - 1,
    decreases list.len() - start,
{
    if start < list.len() - 1 {
        assert(list[start].0 != chain);
        lemma_first_vote_is_last(list, chain, start + 1);
    }
}

/// Removing a vote takes back its addition, where the chain had no vote before.
pub proof fn law_removal_undoes_addition(
    list: Seq<(u16, u64)>,
    chain: u16,
    added: u64,
    removed: u64,
)
    requires
        forall|i: int| 0 <= i < list.len() ==> (#[trigger] list[i]).0 != chain,
    ensures
        with_vote_change(
            with_vote_change(list, (true, chain, added)),
            (false, chain, removed),
        ) == list,
{
    if list.contains((chain, added)) {
        let i = choose|i: int| 0 <= i < list.len() && list[i] == (chain, added);
        assert(list[i].0 != chain);
    }
    let more = list.push((chain, added));
    assert forall|i: int| 0 <= i < more.len() - 1 implies (#[trigger] more[i]).0 != chain by {
        assert(more[i] == list[i]);
    }
    lemma_first_vote_is_last(more, chain, 0);
    assert(more.update(more.len() - 1, more.last()).drop_last() =~= list);
}

/// Merging no value gives the list back as it is; without a list, the empty one.
pub proof fn law_merge_of_nothing(
    existing: Option<Seq<u8>>,
    hashes: Seq<H256>,
    votes: Seq<(u16, u64)>,
)
    requires
        existing matches Some(bytes) ==> dec_hashes(bytes) == Some(hashes) && dec_votes(bytes)
            == Some(votes),
        existing is None ==> hashes.len() == 0 && votes.len() == 0,
    ensures
        hash_merge(existing, Seq::empty()) == Some(enc_hashes(hashes)),
        vote_merge(existing, Seq::empty()) == Some(enc_votes(votes)),
{
    if existing is None {
        assert(hashes =~= Seq::empty());
        assert(votes =~= Seq::empty());
    }
}

/// Merging one hash into a list of hashes adds it at the end; a hash that the list has already
/// changes nothing.
pub proof fn law_hash_merge_of_one(existing: Option<Seq<u8>>, list: Seq<H256>, hash: H256)
    requires
        existing matches Some(bytes) ==> dec_hashes(bytes) == Some(list),
        existing is None ==> list.len() == 0,
    ensures
        hash_merge(existing, seq![enc_hash(hash)]) == Some(
            enc_hashes(
                if exists|i: int| 0 <= i < list.len() && #[trigger] list[i] == hash {
                    list
                } else {
                    list + seq![hash]
                },
            ),
        ),
{
    let operands = seq![enc_hash(hash)];
    law_hash_round_trip(hash);
    if existing is None {
        assert(list =~= Seq::empty());
    }
    assert(operands[0] == enc_hash(hash));
    assert(with_hashes(list, operands, 0) == Some(list));
    assert(with_hashes(list, operands, 1) == Some(with_hash(list, hash)));
    assert(list + seq![hash] =~= list.push(hash));
}

/// Merging the addition of one vote into a list of votes adds it at the end; a vote that the list
/// has already changes nothing.
pub proof fn law_vote_merge_of_addition(
    existing: Option<Seq<u8>>,
    list: Seq<(u16, u64)>,
    chain: u16,
    level: u64,
)
    requires
        existing matches Some(bytes) ==> dec_votes(bytes) == Some(list),
        existing is None ==> list.len() == 0,
    ensures
        vote_merge(existing, seq![enc_vote_change((true, chain, level))]) == Some(
            enc_votes(
                if exists|i: int| 0 <= i < list.len() && #[trigger] list[i] == (chain, level) {
                    list
                } else {
                    list + seq![(chain, level)]
                },
            ),
        ),
{
    let change = (true, chain, level);
    let operands = seq![enc_vote_change(change)];
    law_vote_change_round_trip(change);
    if existing is None {
        assert(list =~= Seq::empty());
    }
    assert(operands[0] == enc_vote_change(change));
    assert(with_vote_changes(list, operands, 0) == Some(list));
    assert(with_vote_changes(list, operands, 1) == Some(with_vote_change(list, change)));
    assert(list + seq![(chain, level)] =~= list.push((chain, level)));
}

/// Merging the removal of a vote of a chain takes the first vote of that chain out, whatever its
/// level, and puts the last vote of the list in its place; where the chain has no vote, nothing
/// changes.
pub proof fn law_vote_merge_of_removal(
    existing: Option<Seq<u8>>,
    list: Seq<(u16, u64)>,
    chain: u16,
    level: u64,
    index: int,
)
    requires
        existing matches Some(bytes) ==> dec_votes(bytes) == Some(list),
        existing is None ==> list.len() == 0,
        0 <= index <= list.len(),
        index < list.len() ==> list[index].0 == chain,
        forall|i: int| 0 <= i < index ==> (#[trigger] list[i]).0 != chain,
    ensures
        vote_merge(existing, seq![enc_vote_change((false, chain, level))]) == Some(
            enc_votes(
                if index < list.len() {
                    list.update(index, list.last()).drop_last()
                } else {
                    list
                },
            ),
        ),
{
    let change = (false, chain, level);
    let operands = seq![enc_vote_change(change)];
    law_vote_change_round_trip(change);
    if existing is None {
        assert(list =~= Seq::empty());
    }
    assert(operands[0] == enc_vote_change(change));
    lemma_first_vote(list, chain, 0);
    let first = first_vote_of(list, chain, 0);
    if first < index {
        assert(list[first].0 != chain);
    }
    assert(with_vote_changes(list, operands, 0) == Some(list));
    assert(with_vote_changes(list, operands, 1) == Some(with_vote_change(list, change)));
}

/// Hashes can be merged if and only if the list that there is can be read, and every hash.
pub proof fn law_hash_merge_reads_everything(existing: Option<Seq<u8>>, operands: Seq<Seq<u8>>)
    ensures
        hash_merge(existing, operands) is Some <==> (existing matches Some(bytes) ==> dec_hashes(
            bytes,
        ) is Some) && forall|i: int|
            0 <= i < operands.len() ==> dec_hash(#[trigger] operands[i]) is Some,
{
    let list = match existing {
        Some(bytes) => dec_hashes(bytes).unwrap(),
        None => Seq::empty(),
    };
    lemma_hashes_read(list, operands, operands.len());
}

proof fn lemma_hashes_read(list: Seq<H256>, operands: Seq<Seq<u8>>, n: nat)
    requires
        n <= operands.len(),
    ensures
        with_hashes(list, operands, n) is Some <==> forall|i: int|
            0 <= i < n ==> dec_hash(#[trigger] operands[i]) is Some,
    decreases n,
{
    if n > 0 {
        lemma_hashes_read(list, operands, (n - 1) as nat);
        if with_hashes(list, operands, n) is Some {
            assert forall|i: int| 0 <= i < n implies dec_hash(#[trigger] operands[i]) is Some by {}
        } else if dec_hash(operands[n - 1]) is Some {
            let i = choose|i: int| 0 <= i < n - 1 && !(dec_hash(#[trigger] operands[i]) is Some);
            assert(!(dec_hash(operands[i]) is Some));
        }
    }
}

/// Changes of votes can be merged if and only if the list that there is can be read, and every
/// change.
pub proof fn law_vote_merge_reads_everything(existing: Option<Seq<u8>>, operands: Seq<Seq<u8>>)
    ensures
        vote_merge(existing, operands) is Some <==> (existing matches Some(bytes) ==> dec_votes(
            bytes,
        ) is Some) && forall|i: int|
            0 <= i < operands.len() ==> dec_vote_change(#[trigger] operands[i]) is Some,
{
    let list = match existing {
        Some(bytes) => dec_votes(bytes).unwrap(),
        None => Seq::empty(),
    };
    lemma_vote_changes_read(list, operands, operands.len());
}

proof fn lemma_vote_changes_read(list: Seq<(u16, u64)>, operands: Seq<Seq<u8>>, n: nat)
    requires
        n <= operands.len(),
    ensures
        with_vote_changes(list, operands, n) is Some <==> forall|i: int|
            0 <= i < n ==> dec_vote_change(#[trigger] operands[i]) is Some,
    decreases n,
{
    if n > 0 {
        lemma_vote_changes_read(list, operands, (n - 1) as nat);
        if with_vote_changes(list, operands, n) is Some {
            assert forall|i: int| 0 <= i < n implies dec_vote_change(#[trigger] operands[i])
                is Some by {}
        } else if dec_vote_change(operands[n - 1]) is Some {
            let i = choose|i: int|
                0 <= i < n - 1 && !(dec_vote_change(#[trigger] operands[i]) is Some);
            assert(!(dec_vote_change(operands[i]) is Some));
        }
    }
}

} // verus!
