//! Ordered sets of blocks and of levels.

use std::collections::BTreeSet;

use vstd::laws_cmp::*;
use vstd::laws_eq::*;
use vstd::prelude::*;
use vstd::std_specs::btree::{increasing_seq, spec_btree_keys_iter};
use vstd::std_specs::cmp::OrdSpec;
use vstd::std_specs::iter::IteratorSpec;

use crate::block::H256;

verus! {

broadcast use {vstd::laws_cmp::group_laws_cmp, vstd::std_specs::btree::group_btree_axioms};

/// A set of blocks.
#[derive(Debug)]
pub struct BlockSet {
    blocks: BTreeSet<H256>,
}

impl View for BlockSet {
    type V = Set<H256>;

    closed spec fn view(&self) -> Set<H256> {
        self.blocks@
    }
}

impl BlockSet {
    /// The set with no block in it.
    pub fn new() -> (set: BlockSet)
        ensures
            set@ == Set::<H256>::empty(),
    {
        BlockSet { blocks: BTreeSet::new() }
    }

    /// Whether a block is in the set.
    pub fn contains(&self, block: H256) -> (found: bool)
        ensures
            found == self@.contains(block),
    {
        self.blocks.contains(&block)
    }

    /// Adds a block; the result says whether it is new.
    pub fn insert(&mut self, block: H256) -> (new: bool)
        ensures
            final(self)@ == old(self)@.insert(block),
            new == !old(self)@.contains(block),
    {
        self.blocks.insert(block)
    }

    /// Removes a block; the result says whether it was there.
    pub fn remove(&mut self, block: H256) -> (found: bool)
        ensures
            final(self)@ == old(self)@.remove(block),
            found == old(self)@.contains(block),
    {
        self.blocks.remove(&block)
    }

    /// Removes every block of a list.
    pub fn remove_all(&mut self, list: &Vec<H256>)
        ensures
            final(self)@ == old(self)@.difference(list@.to_set()),
    {
        assert(self@ =~= old(self)@.difference(list@.subrange(0, 0).to_set()));
        for i in 0..list.len()
            invariant
                self@ == old(self)@.difference(list@.subrange(0, i as int).to_set()),
        {
            self.remove(list[i]);
            proof {
                let next = list@.subrange(0, i + 1);
                assert(next =~= list@.subrange(0, i as int).push(list@[i as int]));
                assert(next[i as int] == list@[i as int]);
                assert(self@ =~= old(self)@.difference(next.to_set()));
            }
        }
        assert(list@.subrange(0, list@.len() as int) =~= list@);
    }

    /// Adds every block of a list.
    pub fn insert_all(&mut self, list: &Vec<H256>)
        ensures
            final(self)@ == old(self)@.union(list@.to_set()),
    {
        assert(self@ =~= old(self)@.union(list@.subrange(0, 0).to_set()));
        for i in 0..list.len()
            invariant
                self@ == old(self)@.union(list@.subrange(0, i as int).to_set()),
        {
            self.insert(list[i]);
            proof {
                let next = list@.subrange(0, i + 1);
                assert(next =~= list@.subrange(0, i as int).push(list@[i as int]));
                assert(next[i as int] == list@[i as int]);
                assert(self@ =~= old(self)@.union(next.to_set()));
            }
        }
        assert(list@.subrange(0, list@.len() as int) =~= list@);
    }

    /// The blocks of the set, each once.
    pub fn list(&self) -> (list: Vec<H256>)
        ensures
            list@.no_duplicates(),
            list@.to_set() == self@,
    {
        let mut list: Vec<H256> = Vec::new();
        for block in iter: self.blocks.iter()
            invariant
                list@.len() == iter.index(),
                iter.seq() == spec_btree_keys_iter(&self.blocks).remaining(),
                forall|i: int| 0 <= i < list@.len() ==> list@[i] == *iter.seq()[i],
        {
            list.push(*block);
        }
        let ghost all = spec_btree_keys_iter(&self.blocks).remaining();
        assert(list@ =~= all.unref());
        assert forall|i: int, j: int| 0 <= i < j < list@.len() implies list@[i] != list@[j] by {
            assert(all[i] != all[j]);
        }
        list
    }

    /// A copy of the set.
    pub fn copy(&self) -> (set: BlockSet)
        ensures
            set@ == self@,
    {
        BlockSet { blocks: self.blocks.clone() }
    }
}

/// References to levels are ordered as the levels are.
proof fn lemma_references_are_ordered()
    ensures
        obeys_cmp::<&u64>(),
{
    assert(obeys_cmp::<u64>());
    reveal(obeys_eq_spec_properties);
    reveal(obeys_partial_cmp_spec_properties);
    reveal(obeys_cmp_partial_ord);
    reveal(obeys_cmp_ord);
}

/// A set of levels.
#[derive(Debug)]
pub struct LevelSet {
    levels: BTreeSet<u64>,
}

impl View for LevelSet {
    type V = Set<u64>;

    closed spec fn view(&self) -> Set<u64> {
        self.levels@
    }
}

impl LevelSet {
    /// The set with no level in it.
    pub fn new() -> (set: LevelSet)
        ensures
            set@ == Set::<u64>::empty(),
    {
        LevelSet { levels: BTreeSet::new() }
    }

    /// Adds a level.
    pub fn insert(&mut self, level: u64)
        ensures
            final(self)@ == old(self)@.insert(level),
    {
        self.levels.insert(level);
    }

    /// The levels of the set, from the lowest to the highest.
    pub fn list(&self) -> (list: Vec<u64>)
        ensures
            list@.to_set() == self@,
            forall|i: int, j: int| 0 <= i < j < list@.len() ==> list@[i] < list@[j],
    {
        let mut list: Vec<u64> = Vec::new();
        for level in iter: self.levels.iter()
            invariant
                list@.len() == iter.index(),
                iter.seq() == spec_btree_keys_iter(&self.levels).remaining(),
                forall|i: int| 0 <= i < list@.len() ==> list@[i] == *iter.seq()[i],
        {
            list.push(*level);
        }
        let ghost all = spec_btree_keys_iter(&self.levels).remaining();
        assert(list@ =~= all.unref());
        proof {
            lemma_references_are_ordered();
        }
        assert forall|i: int, j: int| 0 <= i < j < list@.len() implies list@[i] < list@[j] by {
            assert(increasing_seq(all));
            assert(OrdSpec::cmp_spec(&all[i], &all[j]) is Less);
        }
        list
    }
}

} // verus!
