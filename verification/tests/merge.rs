use prism_chain::block::{same_hash, H256, NO_HASH};
use prism_chain::change::{Op, Write};
use prism_chain::merge::{change_votes, h256_vec_append_merge, vote_vec_merge, MergeOperator};
use prism_chain::store::Column;

fn vote(add: bool, chain: u16, level: u64) -> Vec<u8> {
    bincode::serialize(&(add, chain, level)).unwrap()
}

fn votes(bytes: &Option<Vec<u8>>) -> Vec<(u16, u64)> {
    bincode::deserialize(bytes.as_ref().unwrap()).unwrap()
}

fn hashes(bytes: &Option<Vec<u8>>) -> Vec<H256> {
    bincode::deserialize(bytes.as_ref().unwrap()).unwrap()
}

#[test]
fn merge_operator_btreemap() {
    // merge with an nonexistent entry
    let mut stored = vote_vec_merge(None, &vec![vote(true, 0, 0)]);
    let result: Vec<(u16, u64)> = votes(&stored);
    assert_eq!(result, vec![(0, 0)]);

    // insert
    stored = vote_vec_merge(stored.as_deref(), &vec![vote(true, 10, 0)]);
    stored = vote_vec_merge(stored.as_deref(), &vec![vote(true, 5, 0)]);
    let result: Vec<(u16, u64)> = votes(&stored);
    assert_eq!(result, vec![(0, 0), (10, 0), (5, 0)]);

    // remove
    stored = vote_vec_merge(stored.as_deref(), &vec![vote(false, 5, 0)]);
    let result: Vec<(u16, u64)> = votes(&stored);
    assert_eq!(result, vec![(0, 0), (10, 0)]);
}

#[test]
fn votes_merge_in_steps_or_at_once() {
    let first = vec![vote(true, 1, 4), vote(true, 2, 5), vote(true, 3, 6)];
    let second = vec![vote(false, 1, 4), vote(true, 2, 5), vote(true, 2, 7)];
    let mut all = first.clone();
    all.extend(second.clone());
    let at_once = vote_vec_merge(None, &all);
    let middle = vote_vec_merge(None, &first);
    let in_steps = vote_vec_merge(middle.as_deref(), &second);
    assert_eq!(at_once, in_steps);
    assert_eq!(votes(&at_once), vec![(3, 6), (2, 5), (2, 7)]);
}

#[test]
fn removal_takes_the_first_vote_of_the_chain() {
    let mut list: Vec<(u16, u64)> = vec![(1, 1), (2, 2), (1, 3), (4, 4)];
    change_votes(&mut list, (false, 1, 3));
    assert_eq!(list, vec![(4, 4), (2, 2), (1, 3)]);
    change_votes(&mut list, (false, 9, 0));
    assert_eq!(list, vec![(4, 4), (2, 2), (1, 3)]);
}

#[test]
fn removal_undoes_addition() {
    let mut list: Vec<(u16, u64)> = vec![(1, 1), (2, 2)];
    change_votes(&mut list, (true, 3, 9));
    change_votes(&mut list, (true, 3, 9));
    assert_eq!(list, vec![(1, 1), (2, 2), (3, 9)]);
    change_votes(&mut list, (false, 3, 9));
    assert_eq!(list, vec![(1, 1), (2, 2)]);
}

#[test]
fn hashes_are_appended_once() {
    let a: H256 = (1, 2);
    let b: H256 = (3, u128::MAX);
    let operand = |hash: H256| bincode::serialize(&hash).unwrap();
    let mut stored = h256_vec_append_merge(None, &vec![operand(a)]);
    assert_eq!(hashes(&stored), vec![a]);
    stored = h256_vec_append_merge(stored.as_deref(), &vec![operand(b), operand(a)]);
    assert_eq!(hashes(&stored), vec![a, b]);
    assert_eq!(
        h256_vec_append_merge(None, &vec![operand(a), operand(b)]),
        stored
    );
    assert_eq!(hashes(&h256_vec_append_merge(None, &vec![])), vec![]);
}

#[test]
fn unreadable_values_are_not_merged() {
    assert_eq!(vote_vec_merge(Some(&[1, 2]), &vec![]), None);
    assert_eq!(vote_vec_merge(None, &vec![vec![2; 11]]), None);
    assert_eq!(h256_vec_append_merge(None, &vec![vec![0; 31]]), None);
    assert_eq!(h256_vec_append_merge(Some(&[9; 8]), &vec![]), None);
}

#[test]
fn values_are_written_with_the_least_significant_byte_first() {
    let hash: H256 = (0x0102, 0x0304);
    let mut key = vec![0u8; 32];
    key[0] = 2;
    key[1] = 1;
    key[16] = 4;
    key[17] = 3;

    let write = Op::ProposerLevel(hash, 0x0506).encode();
    assert_eq!(write.column, Column::ProposerNodeLevel);
    assert_eq!(write.key, key);
    assert!(
        matches!(write.write, Write::Put(value) if value == vec![6u8, 5, 0, 0, 0, 0, 0, 0])
    );

    let write = Op::VoterChain(hash, 0x0708).encode();
    assert_eq!(write.column, Column::VoterNodeChain);
    assert!(matches!(write.write, Write::Put(value) if value == vec![8u8, 7]));

    let write = Op::NodeVote(hash, true, 3, 4).encode();
    assert_eq!(write.column, Column::ProposerNodeVote);
    let value = vec![1u8, 3, 0, 4, 0, 0, 0, 0, 0, 0, 0];
    assert!(matches!(write.write, Write::Merge(bytes) if bytes == value));

    let write = Op::Order(1, vec![hash]).encode();
    assert_eq!(write.column, Column::ProposerLedgerOrder);
    assert_eq!(write.key, vec![1u8, 0, 0, 0, 0, 0, 0, 0]);
    let mut value = vec![1u8, 0, 0, 0, 0, 0, 0, 0];
    value.extend(key.clone());
    assert!(matches!(write.write, Write::Put(bytes) if bytes == value));

    let write = Op::NoLeader(2).encode();
    assert_eq!(write.column, Column::ProposerLeaderSequence);
    assert!(matches!(write.write, Write::Delete));

    let write = Op::TreeBlock(3, hash).encode();
    assert_eq!(write.column, Column::ProposerTreeLevel);
    assert!(matches!(write.write, Write::Merge(bytes) if bytes == key));
}

#[test]
fn columns_have_names_and_operators() {
    let columns = Column::all();
    assert_eq!(columns.len(), 13);
    assert_eq!(Column::VoteNeighbor.name(), "GRAPH_VOTE_NEIGHBOR");
    assert_eq!(Column::ProposerTreeLevel.name(), "PROPOSER_TREE_LEVEL");
    let operators: Vec<&str> = columns
        .iter()
        .filter_map(|column| column.merge_operator())
        .map(|operator| operator.name())
        .collect();
    assert_eq!(operators.len(), 7);
    assert_eq!(
        Column::ProposerNodeVote.merge_operator(),
        Some(MergeOperator::ChangeVotes)
    );
    assert_eq!(MergeOperator::ChangeVotes.name(), "insert or remove vote");
    assert_eq!(MergeOperator::AppendHash.name(), "append H256 vec");
    assert_eq!(Column::VoterNodeLevel.merge_operator(), None);
}

#[test]
fn hashes_are_compared_by_both_halves() {
    assert!(same_hash(NO_HASH, (0, 0)));
    assert!(!same_hash((1, 2), (1, 3)));
    assert!(!same_hash((1, 2), (0, 2)));
}
