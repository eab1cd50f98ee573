use std::collections::{BTreeSet, HashMap};

use prism_chain::block::{Block, Content, Genesis, ProposerContent, VoterContent, H256, NO_HASH};
use prism_chain::chain::BlockChain;
use prism_chain::change::{Op, Write};
use prism_chain::dump::{Edge, EdgeType, ProposerStatus, VoterStatus};
use prism_chain::merge::{h256_vec_append_merge, vote_vec_merge, MergeOperator};
use prism_chain::store::{Column, Error};

const NUM_VOTER_CHAINS: u16 = 10;
const PROPOSER_GENESIS: H256 = (1, 0);

/// A database in memory.
struct Store {
    records: HashMap<(&'static str, Vec<u8>), Vec<u8>>,
}

impl Store {
    fn commit(&mut self, ops: &Vec<Op>) {
        for op in ops {
            let write = op.encode();
            let place = (write.column.name(), write.key);
            match write.write {
                Write::Put(value) => {
                    self.records.insert(place, value);
                }
                Write::Merge(value) => {
                    let existing = self.records.get(&place).map(|bytes| bytes.as_slice());
                    let operands = vec![value];
                    let merged = match write.column.merge_operator() {
                        Some(MergeOperator::AppendHash) => {
                            h256_vec_append_merge(existing, &operands)
                        }
                        Some(MergeOperator::ChangeVotes) => vote_vec_merge(existing, &operands),
                        None => panic!("the column takes no merged values"),
                    };
                    self.records.insert(place, merged.unwrap());
                }
                Write::Delete => {
                    self.records.remove(&place);
                }
            }
        }
    }

    fn read(&self) -> impl Fn(Column, Vec<u8>) -> Result<Option<Vec<u8>>, String> + '_ {
        move |column: Column, key: Vec<u8>| Ok(self.records.get(&(column.name(), key)).cloned())
    }

    fn voters(&self) -> Vec<(Vec<u8>, Vec<u8>)> {
        let mut list: Vec<(Vec<u8>, Vec<u8>)> = self
            .records
            .iter()
            .filter(|(place, _)| place.0 == Column::VoterNodeChain.name())
            .map(|(place, value)| (place.1.clone(), value.clone()))
            .collect();
        list.sort();
        list
    }

    fn raw(&self, column: Column, key: Vec<u8>) -> Option<Vec<u8>> {
        self.records.get(&(column.name(), key)).cloned()
    }

    fn level(&self, column: Column, hash: H256) -> Option<u64> {
        self.raw(column, bincode::serialize(&hash).unwrap())
            .map(|bytes| bincode::deserialize(&bytes).unwrap())
    }

    fn chain(&self, hash: H256) -> Option<u16> {
        self.raw(Column::VoterNodeChain, bincode::serialize(&hash).unwrap())
            .map(|bytes| bincode::deserialize(&bytes).unwrap())
    }

    fn link(&self, column: Column, hash: H256) -> Option<H256> {
        self.raw(column, bincode::serialize(&hash).unwrap())
            .map(|bytes| bincode::deserialize(&bytes).unwrap())
    }

    fn list(&self, column: Column, hash: H256) -> Option<Vec<H256>> {
        self.raw(column, bincode::serialize(&hash).unwrap())
            .map(|bytes| bincode::deserialize(&bytes).unwrap())
    }

    fn votes(&self, hash: H256) -> Option<Vec<(u16, u64)>> {
        self.raw(Column::ProposerNodeVote, bincode::serialize(&hash).unwrap())
            .map(|bytes| bincode::deserialize(&bytes).unwrap())
    }

    fn level_list(&self, column: Column, level: u64) -> Option<Vec<H256>> {
        self.raw(column, bincode::serialize(&level).unwrap())
            .map(|bytes| bincode::deserialize(&bytes).unwrap())
    }

    fn leader(&self, level: u64) -> Option<H256> {
        self.raw(
            Column::ProposerLeaderSequence,
            bincode::serialize(&level).unwrap(),
        )
        .map(|bytes| bincode::deserialize(&bytes).unwrap())
    }
}

fn voter_genesis(chain: u16) -> H256 {
    (100 + chain as u128, 0)
}

/// A block hash that differs for each number.
fn hash(number: u128) -> H256 {
    (number, number + 7)
}

fn start_with(chains: u16) -> (BlockChain, Store) {
    let genesis = Genesis {
        proposer: PROPOSER_GENESIS,
        voters: (0..chains).map(voter_genesis).collect(),
    };
    let (chain, ops) = BlockChain::new(&genesis);
    let mut store = Store {
        records: HashMap::new(),
    };
    store.commit(&ops);
    (chain, store)
}

fn start() -> (BlockChain, Store) {
    start_with(NUM_VOTER_CHAINS)
}

fn proposer(number: u128, parent: H256, transactions: Vec<H256>, refs: Vec<H256>) -> Block {
    Block {
        hash: hash(number),
        parent,
        content: Content::Proposer(ProposerContent {
            transaction_refs: transactions,
            proposer_refs: refs,
        }),
    }
}

fn voter(number: u128, parent: H256, voter_parent: H256, votes: Vec<H256>) -> Block {
    Block {
        hash: hash(number),
        parent,
        content: Content::Voter(VoterContent {
            voter_parent,
            votes,
        }),
    }
}

fn transaction(number: u128, parent: H256) -> Block {
    Block {
        hash: hash(number),
        parent,
        content: Content::Transaction,
    }
}

fn insert(chain: &mut BlockChain, store: &mut Store, block: &Block) {
    let done = chain.insert_block(&store.read(), block).unwrap();
    assert_eq!(done.added, vec![]);
    assert_eq!(done.removed, vec![]);
    store.commit(&done.ops);
}

/// Updates the ledger, and gives back the transaction blocks that enter and leave it.
fn update(chain: &mut BlockChain, store: &mut Store) -> (Vec<H256>, Vec<H256>) {
    let done = chain.update_ledger(&store.read()).unwrap();
    for batch in &done.batches {
        store.commit(batch);
    }
    (done.added, done.removed)
}

/// The blocks of the ledger, in order.
fn ledger(chain: &BlockChain, store: &Store) -> Vec<H256> {
    chain
        .proposer_transaction_in_ledger(&store.read(), u64::MAX)
        .unwrap()
        .into_iter()
        .map(|(block, _)| block)
        .collect()
}

/// The transaction blocks of the ledger, in order.
fn ledger_transactions(chain: &BlockChain, store: &Store) -> Vec<H256> {
    chain
        .proposer_transaction_in_ledger(&store.read(), u64::MAX)
        .unwrap()
        .into_iter()
        .flat_map(|(_, transactions)| transactions)
        .collect()
}

fn sorted(mut list: Vec<H256>) -> Vec<H256> {
    list.sort();
    list
}

#[test]
fn initialize_new() {
    let (chain, store) = start();
    // validate proposer genesis
    let genesis_level = store.level(Column::ProposerNodeLevel, PROPOSER_GENESIS);
    assert_eq!(genesis_level, Some(0));
    let level_0_blocks = store.level_list(Column::ProposerTreeLevel, 0);
    assert_eq!(level_0_blocks, Some(vec![PROPOSER_GENESIS]));
    let genesis_votes = store.votes(PROPOSER_GENESIS);
    let mut true_genesis_votes: Vec<(u16, u64)> = vec![];
    for chain_num in 0..NUM_VOTER_CHAINS {
        true_genesis_votes.push((chain_num as u16, 0));
    }
    assert_eq!(genesis_votes, Some(true_genesis_votes));
    assert_eq!(chain.proposer_best(), (PROPOSER_GENESIS, 0));
    assert_eq!(chain.unconfirmed_proposers(), vec![]);
    assert_eq!(chain.unreferred_proposers().len(), 1);
    assert_eq!(
        chain.unreferred_proposers().contains(&PROPOSER_GENESIS),
        true
    );
    assert_eq!(store.leader(0), Some(PROPOSER_GENESIS));
    let level_0_confirms = store.level_list(Column::ProposerLedgerOrder, 0);
    assert_eq!(level_0_confirms, Some(vec![PROPOSER_GENESIS]));

    // validate voter genesis
    for chain_num in 0..NUM_VOTER_CHAINS {
        let voter = voter_genesis(chain_num);
        assert_eq!(store.level(Column::VoterNodeLevel, voter), Some(0));
        assert_eq!(store.level(Column::VoterNodeVotedLevel, voter), Some(0));
        assert_eq!(store.chain(voter), Some(chain_num as u16));
        let parent = store.link(Column::ParentNeighbor, voter);
        assert_eq!(parent, Some(PROPOSER_GENESIS));
        let voted_proposer = store.list(Column::VoteNeighbor, voter);
        assert_eq!(voted_proposer, Some(vec![PROPOSER_GENESIS]));
        assert_eq!(chain.voter_best(chain_num as usize), (voter, 0));
    }
}

#[test]
fn insert_block() {
    let (mut chain, mut store) = start();

    // a transaction block on the proposer genesis
    let tx = transaction(20, PROPOSER_GENESIS);
    insert(&mut chain, &mut store, &tx);
    let parent = store.link(Column::ParentNeighbor, tx.hash);
    assert_eq!(parent, Some(PROPOSER_GENESIS));
    assert_eq!(chain.unreferred_transactions(), vec![tx.hash]);

    // two proposer blocks on the genesis; the second refers to the first and to the transaction
    let proposer_1 = proposer(21, PROPOSER_GENESIS, vec![], vec![]);
    insert(&mut chain, &mut store, &proposer_1);
    let proposer_2 = proposer(22, PROPOSER_GENESIS, vec![tx.hash], vec![proposer_1.hash]);
    insert(&mut chain, &mut store, &proposer_2);
    let parent = store.link(Column::ParentNeighbor, proposer_2.hash);
    assert_eq!(parent, Some(PROPOSER_GENESIS));
    assert_eq!(
        store.level(Column::ProposerNodeLevel, proposer_2.hash),
        Some(1)
    );
    assert_eq!(
        store.level_list(Column::ProposerTreeLevel, 1),
        Some(vec![proposer_1.hash, proposer_2.hash])
    );
    assert_eq!(
        store.list(Column::ProposerRefNeighbor, proposer_2.hash),
        Some(vec![PROPOSER_GENESIS, proposer_1.hash])
    );
    assert_eq!(
        store.list(Column::TransactionRefNeighbor, proposer_2.hash),
        Some(vec![tx.hash])
    );
    assert_eq!(chain.proposer_best(), (proposer_1.hash, 1));
    assert_eq!(chain.unreferred_proposers(), vec![proposer_2.hash]);
    assert_eq!(
        sorted(chain.unconfirmed_proposers()),
        sorted(vec![proposer_1.hash, proposer_2.hash])
    );
    assert_eq!(chain.unreferred_transactions(), vec![]);

    // a voter block on the first chain that votes for proposer block 1
    let voter_1 = voter(23, proposer_2.hash, voter_genesis(0), vec![proposer_1.hash]);
    insert(&mut chain, &mut store, &voter_1);
    assert_eq!(
        store.link(Column::ParentNeighbor, voter_1.hash),
        Some(proposer_2.hash)
    );
    assert_eq!(
        store.link(Column::VoterParentNeighbor, voter_1.hash),
        Some(voter_genesis(0))
    );
    assert_eq!(store.level(Column::VoterNodeLevel, voter_1.hash), Some(1));
    assert_eq!(store.chain(voter_1.hash), Some(0));
    assert_eq!(
        store.level(Column::VoterNodeVotedLevel, voter_1.hash),
        Some(1)
    );
    assert_eq!(
        store.list(Column::VoteNeighbor, voter_1.hash),
        Some(vec![proposer_1.hash])
    );
    assert_eq!(chain.voter_best(0), (voter_1.hash, 1));
    update(&mut chain, &mut store);
    assert_eq!(store.votes(proposer_1.hash), Some(vec![(0, 1)]));

    // a fork of the voter chain votes for proposer block 2, and is not longer
    let voter_2 = voter(24, proposer_2.hash, voter_genesis(0), vec![proposer_2.hash]);
    insert(&mut chain, &mut store, &voter_2);
    update(&mut chain, &mut store);
    assert_eq!(store.votes(proposer_1.hash), Some(vec![(0, 1)]));

    // the fork grows and becomes the longest chain
    let voter_3 = voter(25, proposer_2.hash, voter_2.hash, vec![]);
    insert(&mut chain, &mut store, &voter_3);
    update(&mut chain, &mut store);
    assert_eq!(store.votes(proposer_1.hash), Some(vec![]));
    assert_eq!(store.votes(proposer_2.hash), Some(vec![(0, 1)]));
    assert_eq!(store.leader(1), Some(proposer_2.hash));
}

#[test]
fn best_proposer_and_voter() {
    let (mut chain, mut store) = start();
    assert_eq!(chain.best_proposer(), PROPOSER_GENESIS);
    assert_eq!(chain.best_voter(0), voter_genesis(0));

    let new_proposer_block = proposer(20, PROPOSER_GENESIS, vec![], vec![]);
    insert(&mut chain, &mut store, &new_proposer_block);
    let new_voter_block = voter(
        21,
        new_proposer_block.hash,
        voter_genesis(0),
        vec![new_proposer_block.hash],
    );
    insert(&mut chain, &mut store, &new_voter_block);
    assert_eq!(chain.best_proposer(), new_proposer_block.hash);
    assert_eq!(chain.best_voter(0), new_voter_block.hash);
}

#[test]
fn unreferred_transactions_and_proposer() {
    let (mut chain, mut store) = start();

    let new_transaction_block = transaction(20, PROPOSER_GENESIS);
    insert(&mut chain, &mut store, &new_transaction_block);
    assert_eq!(
        chain.unreferred_transactions(),
        vec![new_transaction_block.hash]
    );
    assert_eq!(chain.unreferred_proposers(), vec![PROPOSER_GENESIS]);

    let new_proposer_block_1 = proposer(21, PROPOSER_GENESIS, vec![], vec![]);
    insert(&mut chain, &mut store, &new_proposer_block_1);
    assert_eq!(
        chain.unreferred_transactions(),
        vec![new_transaction_block.hash]
    );
    assert_eq!(
        chain.unreferred_proposers(),
        vec![new_proposer_block_1.hash]
    );

    let new_proposer_block_2 = proposer(
        22,
        PROPOSER_GENESIS,
        vec![new_transaction_block.hash],
        vec![new_proposer_block_1.hash],
    );
    insert(&mut chain, &mut store, &new_proposer_block_2);
    assert_eq!(chain.unreferred_transactions(), vec![]);
    assert_eq!(
        chain.unreferred_proposers(),
        vec![new_proposer_block_2.hash]
    );
}

#[test]
fn unvoted_proposer() {
    let (mut chain, mut store) = start();
    assert_eq!(
        chain
            .unvoted_proposer(&store.read(), &voter_genesis(0), &chain.best_proposer())
            .unwrap(),
        vec![]
    );

    let new_proposer_block_1 = proposer(20, PROPOSER_GENESIS, vec![], vec![]);
    insert(&mut chain, &mut store, &new_proposer_block_1);

    let new_proposer_block_2 = proposer(21, PROPOSER_GENESIS, vec![], vec![]);
    insert(&mut chain, &mut store, &new_proposer_block_2);
    assert_eq!(
        chain
            .unvoted_proposer(&store.read(), &voter_genesis(0), &chain.best_proposer())
            .unwrap(),
        vec![new_proposer_block_1.hash]
    );

    let new_voter_block = voter(
        22,
        new_proposer_block_2.hash,
        voter_genesis(0),
        vec![new_proposer_block_1.hash],
    );
    insert(&mut chain, &mut store, &new_voter_block);

    assert_eq!(
        chain
            .unvoted_proposer(&store.read(), &voter_genesis(0), &chain.best_proposer())
            .unwrap(),
        vec![new_proposer_block_1.hash]
    );
    assert_eq!(
        chain
            .unvoted_proposer(&store.read(), &new_voter_block.hash, &chain.best_proposer())
            .unwrap(),
        vec![]
    );
}

#[test]
fn unvoted_proposer_takes_the_first_block_of_each_level() {
    let (mut chain, mut store) = start();
    let a = proposer(20, PROPOSER_GENESIS, vec![], vec![]);
    let b = proposer(21, PROPOSER_GENESIS, vec![], vec![]);
    let c = proposer(22, b.hash, vec![], vec![]);
    let d = proposer(23, a.hash, vec![], vec![]);
    let e = proposer(24, d.hash, vec![], vec![]);
    for block in [&a, &b, &c, &d, &e] {
        insert(&mut chain, &mut store, block);
    }
    let due = chain
        .unvoted_proposer(&store.read(), &voter_genesis(3), &e.hash)
        .unwrap();
    assert_eq!(due, vec![a.hash, c.hash, e.hash]);
    // a voter block that casts these votes leaves nothing to vote on
    let v = voter(25, e.hash, voter_genesis(3), due);
    insert(&mut chain, &mut store, &v);
    assert_eq!(
        chain
            .unvoted_proposer(&store.read(), &v.hash, &e.hash)
            .unwrap(),
        vec![]
    );
    // nor does one with a lower proposer parent
    assert_eq!(
        chain
            .unvoted_proposer(&store.read(), &v.hash, &a.hash)
            .unwrap(),
        vec![]
    );
}

#[test]
fn ledger_follows_the_votes() {
    let (mut chain, mut store) = start();
    let tx = transaction(20, PROPOSER_GENESIS);
    let proposer_1 = proposer(21, PROPOSER_GENESIS, vec![], vec![]);
    let proposer_2 = proposer(22, PROPOSER_GENESIS, vec![tx.hash], vec![proposer_1.hash]);
    for block in [&tx, &proposer_1, &proposer_2] {
        insert(&mut chain, &mut store, block);
    }
    assert_eq!(update(&mut chain, &mut store), (vec![], vec![]));
    assert_eq!(chain.proposer_ledger_tip(), 0);

    // the first votes confirm proposer block 2, and with it the block that it refers to
    for chain_num in 0..NUM_VOTER_CHAINS {
        let v = voter(
            30 + chain_num as u128,
            proposer_2.hash,
            voter_genesis(chain_num),
            vec![proposer_2.hash],
        );
        insert(&mut chain, &mut store, &v);
        let reported = update(&mut chain, &mut store);
        if chain_num == 0 {
            assert_eq!(reported, (vec![tx.hash], vec![]));
        } else {
            assert_eq!(reported, (vec![], vec![]));
        }
        assert_eq!(store.leader(1), Some(proposer_2.hash));
        assert_eq!(
            store.level_list(Column::ProposerLedgerOrder, 1),
            Some(vec![proposer_1.hash, proposer_2.hash])
        );
        assert_eq!(chain.unconfirmed_proposers(), vec![]);
        assert_eq!(
            store.votes(proposer_2.hash).unwrap().len(),
            chain_num as usize + 1
        );
    }
    assert_eq!(
        ledger(&chain, &store),
        vec![PROPOSER_GENESIS, proposer_1.hash, proposer_2.hash]
    );
    assert_eq!(ledger_transactions(&chain, &store), vec![tx.hash]);

    // forks without votes take the votes back, one chain after the other
    for chain_num in 0..NUM_VOTER_CHAINS {
        let fork = voter(
            50 + 2 * chain_num as u128,
            PROPOSER_GENESIS,
            voter_genesis(chain_num),
            vec![],
        );
        let longer = voter(
            51 + 2 * chain_num as u128,
            PROPOSER_GENESIS,
            fork.hash,
            vec![],
        );
        insert(&mut chain, &mut store, &fork);
        insert(&mut chain, &mut store, &longer);
        let reported = update(&mut chain, &mut store);
        if chain_num + 1 == NUM_VOTER_CHAINS {
            assert_eq!(reported, (vec![], vec![tx.hash]));
            assert_eq!(store.leader(1), None);
            assert_eq!(store.level_list(Column::ProposerLedgerOrder, 1), None);
            assert_eq!(
                sorted(chain.unconfirmed_proposers()),
                sorted(vec![proposer_1.hash, proposer_2.hash])
            );
        } else {
            assert_eq!(reported, (vec![], vec![]));
            assert_eq!(store.leader(1), Some(proposer_2.hash));
        }
    }
    assert_eq!(chain.proposer_ledger_tip(), 0);
    assert_eq!(ledger(&chain, &store), vec![PROPOSER_GENESIS]);
}

#[test]
fn leader_is_the_first_block_with_the_most_votes() {
    let (mut chain, mut store) = start();
    let a = proposer(20, PROPOSER_GENESIS, vec![], vec![]);
    let b = proposer(21, PROPOSER_GENESIS, vec![], vec![]);
    insert(&mut chain, &mut store, &a);
    insert(&mut chain, &mut store, &b);
    let for_b = voter(22, b.hash, voter_genesis(0), vec![b.hash]);
    insert(&mut chain, &mut store, &for_b);
    update(&mut chain, &mut store);
    assert_eq!(store.leader(1), Some(b.hash));
    // at a draw the block that was heard first leads
    let for_a = voter(23, b.hash, voter_genesis(1), vec![a.hash]);
    insert(&mut chain, &mut store, &for_a);
    update(&mut chain, &mut store);
    assert_eq!(store.leader(1), Some(a.hash));
    let more_for_b = voter(24, b.hash, voter_genesis(2), vec![b.hash]);
    insert(&mut chain, &mut store, &more_for_b);
    update(&mut chain, &mut store);
    assert_eq!(store.leader(1), Some(b.hash));
    assert_eq!(store.votes(b.hash), Some(vec![(0, 1), (2, 1)]));
}

#[test]
fn ledger_is_rebuilt_from_the_changed_level() {
    let (mut chain, mut store) = start();
    let tx: Vec<Block> = (0..4)
        .map(|i| transaction(60 + i, PROPOSER_GENESIS))
        .collect();
    for block in &tx {
        insert(&mut chain, &mut store, block);
    }
    let a1 = proposer(20, PROPOSER_GENESIS, vec![tx[0].hash], vec![]);
    let b1 = proposer(21, PROPOSER_GENESIS, vec![tx[1].hash], vec![]);
    let a2 = proposer(22, a1.hash, vec![tx[2].hash], vec![]);
    let b2 = proposer(23, b1.hash, vec![tx[3].hash], vec![]);
    for block in [&a1, &b1, &a2, &b2] {
        insert(&mut chain, &mut store, block);
    }
    // two chains for one pair of blocks, three for the other
    for chain_num in 0..2u16 {
        let v = voter(
            30 + chain_num as u128,
            a2.hash,
            voter_genesis(chain_num),
            vec![a1.hash, a2.hash],
        );
        insert(&mut chain, &mut store, &v);
    }
    let before = update(&mut chain, &mut store);
    assert_eq!(before, (vec![tx[0].hash, tx[2].hash], vec![]));
    assert_eq!(
        ledger(&chain, &store),
        vec![PROPOSER_GENESIS, a1.hash, a2.hash]
    );
    for chain_num in 2..5u16 {
        let v = voter(
            30 + chain_num as u128,
            a2.hash,
            voter_genesis(chain_num),
            vec![b1.hash, b2.hash],
        );
        insert(&mut chain, &mut store, &v);
    }
    let old_transactions = ledger_transactions(&chain, &store);
    let (added, removed) = update(&mut chain, &mut store);
    assert_eq!(removed, vec![tx[0].hash, tx[2].hash]);
    assert_eq!(added, vec![tx[1].hash, tx[3].hash]);
    assert_eq!(
        ledger(&chain, &store),
        vec![PROPOSER_GENESIS, b1.hash, b2.hash]
    );
    assert_eq!(
        sorted(chain.unconfirmed_proposers()),
        sorted(vec![a1.hash, a2.hash])
    );
    // before and after have a common start, followed by what left and by what entered
    let new_transactions = ledger_transactions(&chain, &store);
    let kept = old_transactions.len() - removed.len();
    assert_eq!(old_transactions[..kept], new_transactions[..kept]);
    assert_eq!(old_transactions[kept..], removed[..]);
    assert_eq!(new_transactions[kept..], added[..]);
}

#[test]
fn ledger_has_no_gap() {
    let (mut chain, mut store) = start();
    let a = proposer(20, PROPOSER_GENESIS, vec![], vec![]);
    let b = proposer(21, a.hash, vec![], vec![]);
    let c = proposer(22, b.hash, vec![], vec![]);
    for block in [&a, &b, &c] {
        insert(&mut chain, &mut store, block);
    }
    // level 3 has a leader, levels 1 and 2 have none
    let v = voter(23, c.hash, voter_genesis(0), vec![c.hash]);
    insert(&mut chain, &mut store, &v);
    update(&mut chain, &mut store);
    assert_eq!(store.leader(3), Some(c.hash));
    assert_eq!(chain.proposer_ledger_tip(), 0);
    assert_eq!(store.level_list(Column::ProposerLedgerOrder, 3), None);
    // level 1 gets one: the ledger goes up to it
    let w = voter(24, c.hash, voter_genesis(1), vec![a.hash]);
    insert(&mut chain, &mut store, &w);
    update(&mut chain, &mut store);
    assert_eq!(chain.proposer_ledger_tip(), 1);
    // with level 2 the gap closes
    let x = voter(25, c.hash, voter_genesis(2), vec![b.hash]);
    insert(&mut chain, &mut store, &x);
    update(&mut chain, &mut store);
    assert_eq!(chain.proposer_ledger_tip(), 3);
    assert_eq!(
        ledger(&chain, &store),
        vec![PROPOSER_GENESIS, a.hash, b.hash, c.hash]
    );
}

#[test]
fn level_may_be_empty_where_a_lower_level_confirms_its_leader() {
    let (mut chain, mut store) = start();
    let a = proposer(20, PROPOSER_GENESIS, vec![], vec![]);
    let b = proposer(21, a.hash, vec![], vec![]);
    insert(&mut chain, &mut store, &a);
    insert(&mut chain, &mut store, &b);
    // a block of level 1 that refers to one of level 2
    let c = proposer(22, PROPOSER_GENESIS, vec![], vec![b.hash]);
    insert(&mut chain, &mut store, &c);
    let v = voter(23, b.hash, voter_genesis(0), vec![c.hash, b.hash]);
    insert(&mut chain, &mut store, &v);
    update(&mut chain, &mut store);
    assert_eq!(chain.proposer_ledger_tip(), 2);
    assert_eq!(
        store.level_list(Column::ProposerLedgerOrder, 1),
        Some(vec![a.hash, b.hash, c.hash])
    );
    assert_eq!(
        store.level_list(Column::ProposerLedgerOrder, 2),
        Some(vec![])
    );
    assert_eq!(chain.unconfirmed_proposers(), vec![]);
}

#[test]
fn references_are_followed_from_the_last_one_on() {
    let (mut chain, mut store) = start();
    let a = proposer(20, PROPOSER_GENESIS, vec![], vec![]);
    let b = proposer(21, PROPOSER_GENESIS, vec![], vec![a.hash]);
    let c = proposer(22, PROPOSER_GENESIS, vec![], vec![b.hash, a.hash]);
    for block in [&a, &b, &c] {
        insert(&mut chain, &mut store, block);
    }
    let v = voter(23, c.hash, voter_genesis(0), vec![c.hash]);
    insert(&mut chain, &mut store, &v);
    update(&mut chain, &mut store);
    assert_eq!(
        store.level_list(Column::ProposerLedgerOrder, 1),
        Some(vec![b.hash, a.hash, c.hash])
    );
}

#[test]
fn second_update_changes_nothing() {
    let (mut chain, mut store) = start();
    let a = proposer(20, PROPOSER_GENESIS, vec![], vec![]);
    insert(&mut chain, &mut store, &a);
    let v = voter(21, a.hash, voter_genesis(0), vec![a.hash]);
    insert(&mut chain, &mut store, &v);
    update(&mut chain, &mut store);
    let done = chain.update_ledger(&store.read()).unwrap();
    assert_eq!(done.batches.len(), 2);
    assert!(done.batches.iter().all(|batch| batch.is_empty()));
    assert_eq!(done.added, vec![]);
    assert_eq!(done.removed, vec![]);
}

#[test]
fn batches_are_votes_then_leaders_then_ledger() {
    let (mut chain, mut store) = start();
    let a = proposer(20, PROPOSER_GENESIS, vec![], vec![]);
    insert(&mut chain, &mut store, &a);
    let v = voter(21, a.hash, voter_genesis(4), vec![a.hash]);
    insert(&mut chain, &mut store, &v);
    let done = chain.update_ledger(&store.read()).unwrap();
    assert_eq!(done.batches.len(), 3);
    assert!(matches!(&done.batches[0][0], Op::NodeVote(block, true, 4, 1) if *block == a.hash));
    assert!(matches!(&done.batches[1][0], Op::Leader(1, block) if *block == a.hash));
    assert!(matches!(&done.batches[2][0], Op::Order(1, list) if *list == vec![a.hash]));
}

#[test]
fn votes_that_change_no_leader_leave_the_ledger() {
    let (mut chain, mut store) = start();
    let a = proposer(20, PROPOSER_GENESIS, vec![], vec![]);
    insert(&mut chain, &mut store, &a);
    for chain_num in 0..2u16 {
        let v = voter(
            21 + chain_num as u128,
            a.hash,
            voter_genesis(chain_num),
            vec![a.hash],
        );
        insert(&mut chain, &mut store, &v);
        let done = chain.update_ledger(&store.read()).unwrap();
        assert_eq!(done.batches.len(), if chain_num == 0 { 3 } else { 2 });
        for batch in &done.batches {
            store.commit(batch);
        }
    }
    assert_eq!(store.votes(a.hash), Some(vec![(0, 1), (1, 1)]));
}

#[test]
fn vote_diff_of_a_fork() {
    let (mut chain, mut store) = start();
    let p: Vec<Block> = (0..3)
        .map(|i| proposer(20 + i, PROPOSER_GENESIS, vec![], vec![]))
        .collect();
    for block in &p {
        insert(&mut chain, &mut store, block);
    }
    let common = voter(30, p[0].hash, voter_genesis(0), vec![p[0].hash]);
    let left_1 = voter(31, p[0].hash, common.hash, vec![p[1].hash]);
    let left_2 = voter(32, p[0].hash, left_1.hash, vec![p[2].hash]);
    let right_1 = voter(33, p[0].hash, common.hash, vec![p[2].hash, p[1].hash]);
    for block in [&common, &left_1, &left_2, &right_1] {
        insert(&mut chain, &mut store, block);
    }
    let (added, removed) = chain
        .vote_diff(&store.read(), right_1.hash, left_2.hash)
        .unwrap();
    assert_eq!(added, vec![(p[2].hash, 3), (p[1].hash, 2)]);
    assert_eq!(removed, vec![(p[2].hash, 2), (p[1].hash, 2)]);
    // the switch back
    let (added_back, removed_back) = chain
        .vote_diff(&store.read(), left_2.hash, right_1.hash)
        .unwrap();
    assert_eq!(added_back, removed);
    assert_eq!(removed_back, added);
    // no switch
    assert_eq!(
        chain
            .vote_diff(&store.read(), left_2.hash, left_2.hash)
            .unwrap(),
        (vec![], vec![])
    );
    // growth
    assert_eq!(
        chain
            .vote_diff(&store.read(), voter_genesis(0), left_1.hash)
            .unwrap(),
        (vec![(p[1].hash, 2), (p[0].hash, 1)], vec![])
    );
}

#[test]
fn levels_chains_and_known_blocks() {
    let (mut chain, mut store) = start();
    let a = proposer(20, PROPOSER_GENESIS, vec![], vec![]);
    let b = proposer(21, a.hash, vec![], vec![]);
    let v = voter(22, b.hash, voter_genesis(7), vec![]);
    for block in [&a, &b, &v] {
        insert(&mut chain, &mut store, block);
    }
    let read = store.read();
    assert_eq!(chain.proposer_level(&read, &PROPOSER_GENESIS), Ok(0));
    assert_eq!(chain.proposer_level(&read, &b.hash), Ok(2));
    assert_eq!(chain.voter_chain_number(&read, &v.hash), Ok(7));
    assert_eq!(chain.contains_proposer(&read, &b.hash), Ok(true));
    assert_eq!(chain.contains_proposer(&read, &v.hash), Ok(false));
    assert_eq!(chain.contains_voter(&read, &v.hash), Ok(true));
    assert_eq!(chain.contains_voter(&read, &b.hash), Ok(false));
    assert_eq!(chain.voter_chains(), NUM_VOTER_CHAINS as usize);
}

#[test]
fn votes_for_unknown_blocks_stop_the_update() {
    let (mut chain, mut store) = start_with(2);
    let a = proposer(19, PROPOSER_GENESIS, vec![], vec![]);
    let v = voter(20, a.hash, voter_genesis(0), vec![hash(98)]);
    let w = voter(21, a.hash, voter_genesis(1), vec![a.hash]);
    for block in [&a, &v, &w] {
        insert(&mut chain, &mut store, block);
    }
    let stopped = chain.update_ledger(&store.read()).unwrap_err();
    assert_eq!(stopped.error, Error::Inconsistent);
    assert!(stopped.batches.is_empty());
    assert_eq!(chain.proposer_ledger_tip(), 0);
    // the chain at which it stopped counts as counted, the others do not
    update(&mut chain, &mut store);
    assert_eq!(store.votes(a.hash), Some(vec![(1, 1)]));
    assert_eq!(chain.proposer_ledger_tip(), 1);
}

/// Reads that fail after a number of them.
fn failing_after<'a>(
    store: &'a Store,
    limit: usize,
) -> impl Fn(Column, Vec<u8>) -> Result<Option<Vec<u8>>, String> + 'a {
    let done = std::cell::Cell::new(0);
    move |column: Column, key: Vec<u8>| {
        done.set(done.get() + 1);
        if done.get() > limit {
            Err(String::from("the disk is gone"))
        } else {
            Ok(store.raw(column, key))
        }
    }
}

#[test]
fn stopped_updates_keep_what_was_done() {
    let (mut chain, mut store) = start_with(2);
    let tx = transaction(60, PROPOSER_GENESIS);
    let a = proposer(20, PROPOSER_GENESIS, vec![], vec![]);
    let b = proposer(21, PROPOSER_GENESIS, vec![tx.hash], vec![]);
    let v = voter(30, a.hash, voter_genesis(0), vec![a.hash]);
    for block in [&tx, &a, &b, &v] {
        insert(&mut chain, &mut store, block);
    }
    update(&mut chain, &mut store);
    assert_eq!(ledger(&chain, &store), vec![PROPOSER_GENESIS, a.hash]);
    // chain 0 switches to a longer fork, which votes for the other block
    let w1 = voter(31, b.hash, voter_genesis(0), vec![]);
    let w2 = voter(32, b.hash, w1.hash, vec![b.hash]);
    for block in [&w1, &w2] {
        insert(&mut chain, &mut store, block);
    }
    assert_eq!(chain.unconfirmed_proposers(), vec![b.hash]);
    let mut seen: Vec<usize> = vec![];
    let mut between: Vec<Vec<H256>> = vec![];
    let mut limit = 0;
    loop {
        let mut next = chain.clone();
        let result = next.update_ledger(&failing_after(&store, limit));
        limit += 1;
        let stopped = match result {
            Ok(done) => {
                assert_eq!(done.added, vec![tx.hash]);
                assert_eq!(done.removed, vec![]);
                break;
            }
            Err(stopped) => stopped,
        };
        assert_eq!(stopped.error, Error::Read(String::from("the disk is gone")));
        seen.push(stopped.batches.len());
        match stopped.batches.len() {
            0 | 1 => assert_eq!(next.unconfirmed_proposers(), vec![b.hash]),
            2 => between.push(sorted(next.unconfirmed_proposers())),
            _ => assert_eq!(next.unconfirmed_proposers(), vec![a.hash]),
        }
        assert_eq!(next.proposer_ledger_tip(), 1);
        // no block of the batches is lost
        let mut copy = Store {
            records: store.records.clone(),
        };
        for batch in &stopped.batches {
            copy.commit(batch);
        }
        assert_eq!(copy.leader(1), Some(if stopped.batches.len() < 2 { a.hash } else { b.hash }));
        // what comes later finds the votes counted already
        let done = next.update_ledger(&copy.read()).unwrap();
        assert!(done.batches[0].is_empty());
    }
    // it can stop at each of the parts, one after the other
    assert_eq!(sorted_numbers(&seen), seen);
    for batches in 0..4 {
        assert!(seen.contains(&batches));
    }
    // while the ledger is rebuilt, first all of the level is unconfirmed, then less of it
    assert_eq!(between.first(), Some(&vec![b.hash]));
    assert!(between.contains(&vec![a.hash, b.hash]));
    assert_eq!(between.last(), Some(&vec![a.hash]));
}

fn sorted_numbers(list: &[usize]) -> Vec<usize> {
    let mut list = list.to_vec();
    list.sort();
    list
}

#[test]
fn failed_reads_are_handed_on() {
    let (mut chain, _) = start();
    let broken = |_: Column, _: Vec<u8>| -> Result<Option<Vec<u8>>, String> {
        Err(String::from("the disk is gone"))
    };
    let expected: Error<String> = Error::Read(String::from("the disk is gone"));
    let block = proposer(20, PROPOSER_GENESIS, vec![], vec![]);
    assert_eq!(chain.insert_block(&broken, &block).unwrap_err(), expected);
    let before = format!("{:?}", chain);
    assert_eq!(chain.clone().update_ledger(&broken).unwrap_err().error, expected);
    assert_eq!(
        chain
            .vote_diff(&broken, voter_genesis(0), voter_genesis(0))
            .unwrap_err(),
        expected
    );
    assert_eq!(
        chain
            .unvoted_proposer(&broken, &voter_genesis(0), &PROPOSER_GENESIS)
            .unwrap_err(),
        expected
    );
    assert_eq!(
        chain
            .proposer_level(&broken, &PROPOSER_GENESIS)
            .unwrap_err(),
        expected
    );
    assert_eq!(
        chain.contains_voter(&broken, &voter_genesis(0)).unwrap_err(),
        expected
    );
    assert_eq!(
        chain
            .proposer_transaction_in_ledger(&broken, 100)
            .unwrap_err(),
        expected
    );
    assert_eq!(chain.proposer_bottom_tip(&broken).unwrap_err(), expected);
    assert_eq!(
        chain.dump(&broken, &vec![], 100, false).unwrap_err(),
        expected
    );
    assert_eq!(format!("{:?}", chain), before);
}

#[test]
fn unreadable_records_are_refused() {
    let (chain, mut store) = start();
    let key = bincode::serialize(&PROPOSER_GENESIS).unwrap();
    store
        .records
        .insert((Column::ProposerNodeLevel.name(), key), vec![1, 2, 3]);
    assert_eq!(
        chain.proposer_level(&store.read(), &PROPOSER_GENESIS),
        Err(Error::Inconsistent)
    );
}

#[test]
fn ledger_with_transactions_has_a_limit() {
    let (mut chain, mut store) = start();
    let mut parent = PROPOSER_GENESIS;
    let mut votes: Vec<H256> = vec![];
    for level in 0..5u128 {
        let tx = transaction(60 + level, PROPOSER_GENESIS);
        insert(&mut chain, &mut store, &tx);
        let block = proposer(20 + level, parent, vec![tx.hash], vec![]);
        insert(&mut chain, &mut store, &block);
        parent = block.hash;
        votes.push(block.hash);
    }
    let v = voter(40, parent, voter_genesis(0), votes);
    insert(&mut chain, &mut store, &v);
    update(&mut chain, &mut store);
    assert_eq!(chain.proposer_ledger_tip(), 5);
    let part = chain
        .proposer_transaction_in_ledger(&store.read(), 1)
        .unwrap();
    assert_eq!(
        part,
        vec![(hash(23), vec![hash(63)]), (hash(24), vec![hash(64)])]
    );
    let all = chain
        .proposer_transaction_in_ledger(&store.read(), 5)
        .unwrap();
    assert_eq!(all.len(), 6);
    assert_eq!(all[0], (PROPOSER_GENESIS, vec![]));
    assert_eq!(
        chain
            .proposer_transaction_in_ledger(&store.read(), 0)
            .unwrap(),
        vec![(hash(24), vec![hash(64)])]
    );
}

#[test]
fn bottoms_and_tips() {
    let (mut chain, mut store) = start_with(3);
    assert_eq!(
        chain.proposer_bottom_tip(&store.read()).unwrap(),
        (NO_HASH, NO_HASH, 0)
    );
    assert_eq!(
        chain
            .voter_bottom_tip(&store.read(), &store.voters())
            .unwrap(),
        vec![
            (NO_HASH, voter_genesis(0), 0),
            (NO_HASH, voter_genesis(1), 0),
            (NO_HASH, voter_genesis(2), 0)
        ]
    );
    let a = proposer(20, PROPOSER_GENESIS, vec![], vec![]);
    let b = proposer(21, PROPOSER_GENESIS, vec![], vec![]);
    let c = proposer(22, b.hash, vec![], vec![]);
    let v = voter(23, c.hash, voter_genesis(1), vec![]);
    let w = voter(24, c.hash, v.hash, vec![]);
    for block in [&a, &b, &c, &v, &w] {
        insert(&mut chain, &mut store, block);
    }
    assert_eq!(
        chain.proposer_bottom_tip(&store.read()).unwrap(),
        (a.hash, c.hash, 2)
    );
    assert_eq!(
        chain
            .voter_bottom_tip(&store.read(), &store.voters())
            .unwrap(),
        vec![
            (NO_HASH, voter_genesis(0), 0),
            (v.hash, w.hash, 2),
            (NO_HASH, voter_genesis(2), 0)
        ]
    );
    // an entry that cannot be decoded, or that has no level
    assert_eq!(
        chain.voter_bottom_tip(&store.read(), &vec![(vec![1], vec![0, 0])]),
        Err(Error::Inconsistent)
    );
    let unknown = bincode::serialize(&hash(99)).unwrap();
    assert_eq!(
        chain.voter_bottom_tip(&store.read(), &vec![(unknown, vec![0, 0])]),
        Err(Error::Inconsistent)
    );
}

#[test]
fn dump() {
    let (mut chain, mut store) = start();

    let new_proposer_block_1 = proposer(20, PROPOSER_GENESIS, vec![], vec![]);
    insert(&mut chain, &mut store, &new_proposer_block_1);

    let new_proposer_block_2 = proposer(21, PROPOSER_GENESIS, vec![], vec![]);
    insert(&mut chain, &mut store, &new_proposer_block_2);

    let new_voter_block = voter(
        22,
        new_proposer_block_2.hash,
        voter_genesis(0),
        vec![new_proposer_block_1.hash],
    );
    insert(&mut chain, &mut store, &new_voter_block);
    println!(
        "{:?}",
        chain
            .dump(&store.read(), &store.voters(), 100, true)
            .unwrap()
    );
}

fn edge(from: H256, to: H256, edgetype: EdgeType) -> Edge {
    Edge { from, to, edgetype }
}

#[test]
fn dump_shows_blocks_links_and_numbers() {
    let (mut chain, mut store) = start_with(2);
    let tx = transaction(60, PROPOSER_GENESIS);
    let late = transaction(61, PROPOSER_GENESIS);
    let a = proposer(20, PROPOSER_GENESIS, vec![tx.hash], vec![]);
    let b = proposer(21, PROPOSER_GENESIS, vec![], vec![]);
    let v = voter(22, a.hash, voter_genesis(0), vec![a.hash]);
    let w = voter(23, a.hash, v.hash, vec![]);
    let fork = voter(24, a.hash, voter_genesis(0), vec![b.hash]);
    for block in [&tx, &late, &a, &b, &v, &w, &fork] {
        insert(&mut chain, &mut store, block);
    }
    update(&mut chain, &mut store);
    let dump = chain
        .dump(&store.read(), &store.voters(), 100, true)
        .unwrap();
    assert_eq!(
        dump.proposer_levels,
        vec![vec![PROPOSER_GENESIS], vec![a.hash, b.hash]]
    );
    assert_eq!(dump.proposer_leaders.len(), 2);
    assert_eq!(dump.proposer_leaders.get(&1), Some(&a.hash));
    assert_eq!(dump.voter_longest, vec![w.hash, voter_genesis(1)]);
    assert_eq!(dump.proposer_in_ledger, vec![PROPOSER_GENESIS, a.hash]);
    assert_eq!(dump.transaction_in_ledger, vec![tx.hash]);
    assert_eq!(dump.transaction_unreferred, vec![late.hash]);
    assert_eq!(dump.proposer_tree_number, "(2/3) ");
    assert_eq!(dump.voter_chain_number, vec!["(3/4) ", "(1/1) "]);

    assert_eq!(dump.proposer_nodes.len(), 3);
    let node = dump.proposer_nodes[&a.hash];
    assert_eq!(node.level, 1);
    assert_eq!(node.status, ProposerStatus::Leader);
    assert_eq!(node.votes, 1);
    let node = dump.proposer_nodes[&b.hash];
    assert_eq!(node.status, ProposerStatus::Others);
    assert_eq!(node.votes, 0);
    assert_eq!(dump.proposer_nodes[&PROPOSER_GENESIS].votes, 2);

    assert_eq!(dump.voter_nodes.len(), 5);
    let node = dump.voter_nodes[&w.hash];
    assert_eq!(node.chain, 0);
    assert_eq!(node.level, 2);
    assert_eq!(node.status, VoterStatus::OnMainChain);
    assert_eq!(node.deepest_vote_level, 1);
    assert_eq!(dump.voter_nodes[&fork.hash].status, VoterStatus::Orphan);
    assert_eq!(dump.voter_nodes[&fork.hash].level, 1);

    assert_eq!(
        dump.edges,
        vec![
            edge(a.hash, PROPOSER_GENESIS, EdgeType::ProposerToProposerParent),
            edge(b.hash, PROPOSER_GENESIS, EdgeType::ProposerToProposerParent),
            edge(w.hash, v.hash, EdgeType::VoterToVoterParent),
            edge(v.hash, a.hash, EdgeType::VoterToProposerVote),
            edge(v.hash, voter_genesis(0), EdgeType::VoterToVoterParent),
            edge(
                voter_genesis(0),
                PROPOSER_GENESIS,
                EdgeType::VoterToProposerVote
            ),
            edge(
                voter_genesis(1),
                PROPOSER_GENESIS,
                EdgeType::VoterToProposerVote
            ),
            edge(fork.hash, b.hash, EdgeType::VoterToProposerVote),
            edge(fork.hash, voter_genesis(0), EdgeType::VoterToVoterParent),
        ]
    );

    // without the forks, nothing is counted on the voter chains
    let dump = chain.dump(&store.read(), &vec![], 100, false).unwrap();
    assert_eq!(dump.voter_nodes.len(), 4);
    assert_eq!(dump.voter_chain_number, vec!["", ""]);
    assert_eq!(dump.edges.len(), 7);
}

#[test]
fn dump_has_a_limit() {
    let (mut chain, mut store) = start_with(1);
    let mut parent = PROPOSER_GENESIS;
    let mut tip = voter_genesis(0);
    for level in 0..12u128 {
        let block = proposer(20 + level, parent, vec![], vec![]);
        insert(&mut chain, &mut store, &block);
        parent = block.hash;
        let v = voter(40 + level, parent, tip, vec![parent]);
        insert(&mut chain, &mut store, &v);
        tip = v.hash;
    }
    update(&mut chain, &mut store);
    assert_eq!(chain.proposer_ledger_tip(), 12);
    let dump = chain.dump(&store.read(), &store.voters(), 2, true).unwrap();
    assert_eq!(
        dump.proposer_levels,
        vec![vec![hash(29)], vec![hash(30)], vec![hash(31)]]
    );
    assert_eq!(dump.proposer_in_ledger, vec![hash(29), hash(30), hash(31)]);
    let shown: Vec<H256> = dump.voter_nodes.keys().cloned().collect();
    assert_eq!(shown, vec![hash(49), hash(50), hash(51)]);
    // edges to blocks that are not shown are left out
    assert!(dump
        .edges
        .iter()
        .all(|e| e.to != hash(28) && e.to != hash(48)));
    assert_eq!(dump.edges.len(), 2 + 2 + 3);
    assert_eq!(dump.proposer_tree_number, "(13/13) ");
    assert_eq!(dump.voter_chain_number, vec!["(13/13) "]);
}

#[test]
fn dump_refuses_votes_of_unknown_chains() {
    let (chain, mut store) = start_with(2);
    store.commit(&vec![Op::NodeVote(PROPOSER_GENESIS, true, 2, 0)]);
    assert!(matches!(
        chain.dump(&store.read(), &vec![], 100, false),
        Err(Error::Inconsistent)
    ));
    // nor of entries of unknown chains
    let (chain, store) = start_with(2);
    let entries = vec![(
        bincode::serialize(&voter_genesis(0)).unwrap(),
        bincode::serialize(&5u16).unwrap(),
    )];
    assert!(matches!(
        chain.dump(&store.read(), &entries, 100, true),
        Err(Error::Inconsistent)
    ));
}

#[test]
fn best_blocks_are_the_first_of_their_level() {
    let (mut chain, mut store) = start();
    let a = proposer(20, PROPOSER_GENESIS, vec![], vec![]);
    let b = proposer(21, PROPOSER_GENESIS, vec![], vec![]);
    let v = voter(22, a.hash, voter_genesis(0), vec![]);
    let w = voter(23, a.hash, voter_genesis(0), vec![]);
    for block in [&a, &b, &v, &w] {
        insert(&mut chain, &mut store, block);
    }
    assert_eq!(chain.proposer_best(), (a.hash, 1));
    assert_eq!(chain.voter_best(0), (v.hash, 1));
    assert_eq!(chain.voter_best(1), (voter_genesis(1), 0));
}

#[test]
fn copies_are_independent() {
    let (mut chain, mut store) = start();
    let copy = chain.clone();
    let a = proposer(20, PROPOSER_GENESIS, vec![], vec![]);
    insert(&mut chain, &mut store, &a);
    assert_eq!(chain.best_proposer(), a.hash);
    assert_eq!(copy.best_proposer(), PROPOSER_GENESIS);
    assert_eq!(copy.unconfirmed_proposers(), vec![]);
}

#[test]
fn ledger_changes_with_updates_only() {
    let (mut chain, mut store) = start();
    let a = proposer(20, PROPOSER_GENESIS, vec![], vec![]);
    insert(&mut chain, &mut store, &a);
    let v = voter(21, a.hash, voter_genesis(0), vec![a.hash]);
    insert(&mut chain, &mut store, &v);
    assert_eq!(store.votes(a.hash), None);
    assert_eq!(store.leader(1), None);
    assert_eq!(chain.proposer_ledger_tip(), 0);
    assert_eq!(ledger(&chain, &store), vec![PROPOSER_GENESIS]);
    update(&mut chain, &mut store);
    assert_eq!(store.votes(a.hash), Some(vec![(0, 1)]));
    assert_eq!(ledger(&chain, &store), vec![PROPOSER_GENESIS, a.hash]);
}

/// A sequence of numbers that looks random, and is the same in every run.
struct Numbers {
    state: u64,
}

impl Numbers {
    fn below(&mut self, limit: usize) -> usize {
        self.state = self
            .state
            .wrapping_mul(6364136223846793005)
            .wrapping_add(1442695040888963407);
        ((self.state >> 33) as usize) % limit
    }
}

/// The votes of the main chains, by the block that they are for.
fn main_chain_votes(chain: &BlockChain, store: &Store) -> HashMap<H256, BTreeSet<(u16, u64)>> {
    let mut votes: HashMap<H256, BTreeSet<(u16, u64)>> = HashMap::new();
    for chain_num in 0..chain.voter_chains() {
        let (mut block, mut level) = chain.voter_best(chain_num);
        loop {
            for vote in store.list(Column::VoteNeighbor, block).unwrap() {
                votes.entry(vote).or_default().insert((chain_num as u16, level));
            }
            match store.link(Column::VoterParentNeighbor, block) {
                Some(parent) => {
                    block = parent;
                    level -= 1;
                }
                None => break,
            }
        }
        assert_eq!(level, 0);
    }
    votes
}

/// The ledger, built from the leaders alone.
fn ledger_from_leaders(store: &Store, proposers: &[H256]) -> (Vec<H256>, u64) {
    let mut unconfirmed: BTreeSet<H256> = proposers.iter().cloned().collect();
    let mut ledger: Vec<H256> = vec![];
    let mut level: u64 = 0;
    while let Some(leader) = store.leader(level) {
        let mut found: Vec<H256> = vec![];
        let mut stack: Vec<H256> = vec![leader];
        while let Some(top) = stack.pop() {
            if unconfirmed.remove(&top) {
                found.push(top);
                stack.extend(store.list(Column::ProposerRefNeighbor, top).unwrap());
            }
        }
        found.reverse();
        ledger.extend(found);
        level += 1;
    }
    (ledger, level - 1)
}

#[test]
fn many_blocks_keep_the_chain_consistent() {
    let chains: u16 = 4;
    let (mut chain, mut store) = start_with(chains);
    let mut numbers = Numbers { state: 42 };
    let mut proposers: Vec<H256> = vec![PROPOSER_GENESIS];
    let mut voters: Vec<Vec<H256>> = (0..chains).map(|i| vec![voter_genesis(i)]).collect();
    let mut transactions: Vec<H256> = vec![];
    let mut next: u128 = 1000;
    let mut best_level: u64 = 0;
    for _ in 0..400 {
        next += 1;
        match numbers.below(8) {
            0 => {
                let block = transaction(next, PROPOSER_GENESIS);
                insert(&mut chain, &mut store, &block);
                transactions.push(block.hash);
            }
            1 | 2 => {
                // near the end, so that the tree grows
                let recent = proposers.len().min(4);
                let parent = proposers[proposers.len() - 1 - numbers.below(recent)];
                let refs: Vec<H256> = (0..numbers.below(3))
                    .map(|_| proposers[numbers.below(proposers.len())])
                    .collect();
                let block = proposer(next, parent, transactions.split_off(0), refs);
                insert(&mut chain, &mut store, &block);
                proposers.push(block.hash);
            }
            3 | 4 | 5 => {
                let chain_num = numbers.below(chains as usize);
                let known = &voters[chain_num];
                let recent = known.len().min(3);
                let tip = known[known.len() - 1 - numbers.below(recent)];
                let voted = store.level(Column::VoterNodeVotedLevel, tip).unwrap();
                let parent = proposers[numbers.below(proposers.len())];
                let level = store.level(Column::ProposerNodeLevel, parent).unwrap();
                if voted <= level {
                    let mut votes = chain
                        .unvoted_proposer(&store.read(), &tip, &parent)
                        .unwrap();
                    assert_eq!(votes.len() as u64, level - voted);
                    // sometimes for another block of the level
                    for vote in votes.iter_mut() {
                        let of_level = store
                            .level(Column::ProposerNodeLevel, *vote)
                            .and_then(|level| store.level_list(Column::ProposerTreeLevel, level))
                            .unwrap();
                        *vote = of_level[numbers.below(of_level.len())];
                    }
                    let block = voter(next, parent, tip, votes);
                    insert(&mut chain, &mut store, &block);
                    voters[chain_num].push(block.hash);
                }
            }
            _ => {
                let before = ledger_transactions(&chain, &store);
                let (added, removed) = update(&mut chain, &mut store);
                let after = ledger_transactions(&chain, &store);
                // what is reported
                let kept = before.len() - removed.len();
                assert_eq!(before[kept..], removed[..]);
                assert_eq!(after[kept..], added[..]);
                assert_eq!(before[..kept], after[..kept]);
                // votes
                let expected = main_chain_votes(&chain, &store);
                for block in &proposers {
                    let found = store.votes(*block).unwrap_or_default();
                    let set: BTreeSet<(u16, u64)> = found.iter().cloned().collect();
                    assert_eq!(set.len(), found.len());
                    assert_eq!(set, expected.get(block).cloned().unwrap_or_default());
                }
                // leaders
                let mut level: u64 = 0;
                while let Some(blocks) = store.level_list(Column::ProposerTreeLevel, level) {
                    let count = |block: &H256| store.votes(*block).map_or(0, |list| list.len());
                    let most = blocks.iter().map(count).max().unwrap();
                    let leader = blocks.iter().find(|block| count(block) == most);
                    let expected = if most == 0 { None } else { leader.cloned() };
                    assert_eq!(store.leader(level), expected);
                    level += 1;
                }
                // ledger
                let (expected, tip) = ledger_from_leaders(&store, &proposers);
                let found = ledger(&chain, &store);
                assert_eq!(found, expected);
                assert_eq!(chain.proposer_ledger_tip(), tip);
                let mut all = found;
                all.extend(chain.unconfirmed_proposers());
                assert_eq!(sorted(all), sorted(proposers.clone()));
            }
        }
        // best blocks and unreferred blocks
        assert!(chain.proposer_best().1 >= best_level);
        best_level = chain.proposer_best().1;
        let referred: BTreeSet<H256> = proposers
            .iter()
            .flat_map(|block| store.list(Column::ProposerRefNeighbor, *block).unwrap())
            .collect();
        let unreferred: Vec<H256> = proposers
            .iter()
            .filter(|block| !referred.contains(*block))
            .cloned()
            .collect();
        assert_eq!(sorted(chain.unreferred_proposers()), sorted(unreferred));
        assert!(chain
            .dump(&store.read(), &store.voters(), 5, true)
            .is_ok());
    }
    assert!(chain.proposer_ledger_tip() > 5);
}

#[test]
fn transaction_blocks_need_no_read() {
    let (mut chain, _) = start();
    let broken = |_: Column, _: Vec<u8>| -> Result<Option<Vec<u8>>, String> {
        Err(String::from("the disk is gone"))
    };
    let tx = transaction(60, PROPOSER_GENESIS);
    let done = chain.insert_block(&broken, &tx).unwrap();
    assert_eq!(done.ops.len(), 1);
    assert_eq!(chain.unreferred_transactions(), vec![tx.hash]);
}

#[test]
fn second_insertion_changes_nothing() {
    let (mut chain, mut store) = start_with(2);
    let tx = transaction(60, PROPOSER_GENESIS);
    let a = proposer(20, PROPOSER_GENESIS, vec![tx.hash], vec![]);
    let b = proposer(21, a.hash, vec![], vec![a.hash]);
    let v = voter(22, b.hash, voter_genesis(1), vec![a.hash, b.hash]);
    for block in [&tx, &a, &b, &v] {
        insert(&mut chain, &mut store, block);
        let before = format!("{:?}", chain);
        let records = store.records.clone();
        insert(&mut chain, &mut store, block);
        assert_eq!(format!("{:?}", chain), before);
        assert_eq!(store.records, records);
    }
}

#[test]
fn vote_diffs_along_a_chain_follow_each_other() {
    let (mut chain, mut store) = start_with(1);
    let p: Vec<Block> = (0..3)
        .map(|i| proposer(20 + i, PROPOSER_GENESIS, vec![], vec![]))
        .collect();
    for block in &p {
        insert(&mut chain, &mut store, block);
    }
    let a = voter_genesis(0);
    let b = voter(30, p[0].hash, a, vec![p[0].hash]);
    let c = voter(31, p[0].hash, b.hash, vec![p[2].hash, p[1].hash]);
    insert(&mut chain, &mut store, &b);
    insert(&mut chain, &mut store, &c);
    let read = store.read();
    let (first, none) = chain.vote_diff(&read, a, b.hash).unwrap();
    assert_eq!(none, vec![]);
    let (second, none) = chain.vote_diff(&read, b.hash, c.hash).unwrap();
    assert_eq!(none, vec![]);
    let (both, none) = chain.vote_diff(&read, a, c.hash).unwrap();
    assert_eq!(none, vec![]);
    assert_eq!(both, [second, first].concat());
    assert_eq!(both, vec![(p[2].hash, 2), (p[1].hash, 2), (p[0].hash, 1)]);
}

#[test]
fn smaller_limits_give_the_end_of_the_ledger() {
    let (mut chain, mut store) = start_with(1);
    let mut parent = PROPOSER_GENESIS;
    let mut votes: Vec<H256> = vec![];
    for level in 0..4u128 {
        let block = proposer(20 + level, parent, vec![hash(60 + level)], vec![]);
        insert(&mut chain, &mut store, &block);
        parent = block.hash;
        votes.push(block.hash);
    }
    let v = voter(40, parent, voter_genesis(0), votes);
    insert(&mut chain, &mut store, &v);
    update(&mut chain, &mut store);
    let whole = chain
        .proposer_transaction_in_ledger(&store.read(), u64::MAX)
        .unwrap();
    assert_eq!(whole[0], (PROPOSER_GENESIS, vec![]));
    assert_eq!(whole.len(), 5);
    for limit in 0..6usize {
        let part = chain
            .proposer_transaction_in_ledger(&store.read(), limit as u64)
            .unwrap();
        let length = std::cmp::min(limit + 1, 5);
        assert_eq!(part.as_slice(), &whole[5 - length..]);
    }
}

#[test]
fn levels_count_the_links_to_the_genesis_block() {
    let (mut chain, mut store) = start_with(1);
    let a = proposer(20, PROPOSER_GENESIS, vec![], vec![]);
    let b = proposer(21, a.hash, vec![], vec![]);
    let c = proposer(22, PROPOSER_GENESIS, vec![], vec![b.hash]);
    let d = proposer(23, b.hash, vec![], vec![c.hash]);
    for block in [&a, &b, &c, &d] {
        insert(&mut chain, &mut store, block);
    }
    for (block, level) in [(&a, 1), (&b, 2), (&c, 1), (&d, 3)] {
        assert_eq!(chain.proposer_level(&store.read(), &block.hash), Ok(level));
        let mut links = 0;
        let mut current = block.hash;
        while current != PROPOSER_GENESIS {
            current = store.link(Column::ParentNeighbor, current).unwrap();
            links += 1;
        }
        assert_eq!(links, level);
    }
}

#[test]
fn forks_are_shown_in_addition() {
    let (mut chain, mut store) = start_with(2);
    let a = proposer(20, PROPOSER_GENESIS, vec![hash(60)], vec![]);
    let b = proposer(21, PROPOSER_GENESIS, vec![], vec![]);
    let v = voter(22, a.hash, voter_genesis(0), vec![a.hash]);
    let w = voter(23, a.hash, v.hash, vec![]);
    let fork = voter(24, a.hash, voter_genesis(0), vec![b.hash]);
    for block in [&a, &b, &v, &w, &fork] {
        insert(&mut chain, &mut store, block);
    }
    update(&mut chain, &mut store);
    let read = store.read();
    let without = chain.dump(&read, &vec![], 100, false).unwrap();
    let with = chain.dump(&read, &store.voters(), 100, true).unwrap();
    assert!(without
        .voter_nodes
        .values()
        .all(|node| node.status == VoterStatus::OnMainChain));
    assert_eq!(without.voter_chain_number, vec!["", ""]);
    assert_eq!(with.voter_chain_number, vec!["(3/4) ", "(1/1) "]);
    for (block, node) in &with.voter_nodes {
        if *block == fork.hash {
            assert_eq!(node.status, VoterStatus::Orphan);
            assert!(!without.voter_nodes.contains_key(block));
        } else {
            assert_eq!(without.voter_nodes.get(block), Some(node));
        }
    }
    assert_eq!(with.voter_nodes.len(), without.voter_nodes.len() + 1);
    for edge in &without.edges {
        assert!(with.edges.contains(edge));
    }
    for edge in &with.edges {
        assert!(without.edges.contains(edge) || edge.from == fork.hash || edge.to == fork.hash);
    }
    assert_eq!(with.edges.len(), without.edges.len() + 2);
    assert_eq!(with.proposer_levels, without.proposer_levels);
    assert_eq!(with.proposer_leaders, without.proposer_leaders);
    assert_eq!(with.proposer_nodes, without.proposer_nodes);
    assert_eq!(with.proposer_in_ledger, without.proposer_in_ledger);
    assert_eq!(with.transaction_in_ledger, without.transaction_in_ledger);
}

#[test]
fn tree_number_is_that_of_the_whole_tree() {
    let (mut chain, mut store) = start_with(1);
    let mut parent = PROPOSER_GENESIS;
    let mut votes: Vec<H256> = vec![];
    for level in 0..6u128 {
        let block = proposer(20 + level, parent, vec![], vec![]);
        let sibling = proposer(50 + level, parent, vec![], vec![]);
        insert(&mut chain, &mut store, &block);
        insert(&mut chain, &mut store, &sibling);
        parent = block.hash;
        votes.push(block.hash);
    }
    let v = voter(40, parent, voter_genesis(0), votes);
    insert(&mut chain, &mut store, &v);
    update(&mut chain, &mut store);
    for limit in [0, 2, 100] {
        let dump = chain.dump(&store.read(), &vec![], limit, false).unwrap();
        assert_eq!(dump.proposer_tree_number, "(7/13) ");
        let dump = chain
            .dump(&store.read(), &store.voters(), limit, true)
            .unwrap();
        assert_eq!(dump.proposer_tree_number, "(7/13) ");
    }
}

#[test]
fn numbers_are_shown_in_decimal() {
    let (mut chain, mut store) = start_with(1);
    let mut parent = PROPOSER_GENESIS;
    for level in 0..1030u128 {
        let block = proposer(2000 + level, parent, vec![], vec![]);
        insert(&mut chain, &mut store, &block);
        parent = block.hash;
    }
    let dump = chain.dump(&store.read(), &vec![], 0, false).unwrap();
    assert_eq!(dump.proposer_tree_number, "(1031/1031) ");
}

#[test]
fn ledger_does_not_depend_on_when_it_is_updated() {
    let chains: u16 = 3;
    let mut numbers = Numbers { state: 7 };
    let (mut often, mut often_store) = start_with(chains);
    let (mut once, mut once_store) = start_with(chains);
    let mut proposers: Vec<H256> = vec![PROPOSER_GENESIS];
    let mut voters: Vec<Vec<H256>> = (0..chains).map(|i| vec![voter_genesis(i)]).collect();
    for number in 0..150u128 {
        let block = if numbers.below(2) == 0 {
            let parent = proposers[numbers.below(proposers.len())];
            let other = proposers[numbers.below(proposers.len())];
            let tx = hash(5000 + number);
            proposer(1000 + number, parent, vec![tx], vec![other])
        } else {
            let chain_num = numbers.below(chains as usize);
            let known = &voters[chain_num];
            let start = known.len().saturating_sub(3);
            let tip = known[start + numbers.below(known.len() - start)];
            let parent = often.best_proposer();
            let votes = often
                .unvoted_proposer(&often_store.read(), &tip, &parent)
                .unwrap();
            voter(1000 + number, parent, tip, votes)
        };
        match &block.content {
            Content::Voter(content) => {
                let chain_num = often
                    .voter_chain_number(&often_store.read(), &content.voter_parent)
                    .unwrap();
                voters[chain_num as usize].push(block.hash);
            }
            _ => proposers.push(block.hash),
        }
        insert(&mut often, &mut often_store, &block);
        update(&mut often, &mut often_store);
        insert(&mut once, &mut once_store, &block);
    }
    update(&mut once, &mut once_store);
    assert_eq!(often.proposer_ledger_tip(), once.proposer_ledger_tip());
    assert!(often.proposer_ledger_tip() > 3);
    assert_eq!(
        sorted(often.unconfirmed_proposers()),
        sorted(once.unconfirmed_proposers())
    );
    for level in 0..=often.proposer_ledger_tip() + 1 {
        assert_eq!(often_store.leader(level), once_store.leader(level));
    }
    for limit in [0, 2, u64::MAX] {
        assert_eq!(
            often
                .proposer_transaction_in_ledger(&often_store.read(), limit)
                .unwrap(),
            once.proposer_transaction_in_ledger(&once_store.read(), limit)
                .unwrap()
        );
    }
}

#[test]
fn ledger_of_unknown_references_and_double_votes() {
    let (mut chain, mut store) = start_with(2);
    // a reference to a block that is not known is passed over
    let a = proposer(20, PROPOSER_GENESIS, vec![hash(60)], vec![hash(98)]);
    let b = proposer(21, PROPOSER_GENESIS, vec![hash(61)], vec![]);
    let v = voter(30, a.hash, voter_genesis(0), vec![a.hash]);
    // the chain votes once more for the same block
    let w = voter(31, a.hash, v.hash, vec![a.hash]);
    let x = voter(32, a.hash, voter_genesis(1), vec![b.hash]);
    for block in [&a, &b, &v, &w, &x] {
        insert(&mut chain, &mut store, block);
    }
    let before = ledger_transactions(&chain, &store);
    let (added, removed) = update(&mut chain, &mut store);
    assert_eq!(removed, vec![]);
    assert_eq!(ledger_transactions(&chain, &store), [before, added].concat());
    assert_eq!(store.votes(a.hash), Some(vec![(0, 2), (0, 1)]));
    assert_eq!(store.leader(1), Some(a.hash));
    assert_eq!(chain.proposer_ledger_tip(), 1);
    assert_eq!(store.level_list(Column::ProposerLedgerOrder, 2), None);
    assert_eq!(ledger(&chain, &store), vec![PROPOSER_GENESIS, a.hash]);
}

#[test]
fn ledger_starts_with_the_genesis_block_whatever_blocks_refer_to() {
    let (mut chain, mut store) = start_with(2);
    let check = |chain: &BlockChain, store: &Store| {
        assert_eq!(
            store.level_list(Column::ProposerLedgerOrder, 0),
            Some(vec![PROPOSER_GENESIS])
        );
        assert_eq!(
            store.list(Column::TransactionRefNeighbor, PROPOSER_GENESIS),
            Some(vec![])
        );
        let read = store.read();
        let tip = chain.proposer_ledger_tip();
        let whole = chain
            .proposer_transaction_in_ledger(&read, u64::MAX)
            .unwrap();
        assert_eq!(whole[0], (PROPOSER_GENESIS, vec![]));
        for limit in 0..tip + 3 {
            let part = chain.proposer_transaction_in_ledger(&read, limit).unwrap();
            assert_eq!(part == whole, limit >= tip);
        }
    };
    check(&chain, &store);
    // an unknown reference, a block that enters twice, and a chain that votes twice for a block
    let a = proposer(20, PROPOSER_GENESIS, vec![hash(60)], vec![hash(98)]);
    let b = proposer(21, a.hash, vec![hash(61)], vec![PROPOSER_GENESIS]);
    let v = voter(30, b.hash, voter_genesis(0), vec![a.hash, b.hash]);
    let w = voter(31, b.hash, v.hash, vec![a.hash]);
    for block in [&a, &a, &b, &v, &w] {
        insert(&mut chain, &mut store, block);
        update(&mut chain, &mut store);
        check(&chain, &store);
    }
    assert_eq!(chain.proposer_ledger_tip(), 2);
}
