//! The votes of voter chains, and how they change when a chain switches to another tip.

use vstd::prelude::*;

use crate::block::{same_hash, H256};
use crate::chain::BlockChain;
use crate::store::{
    answers, at, callable, level_under, link_under, list_at, list_under, required, settles, Column,
    Error, Records,
};

verus! {

/// Votes, each with the level of the voter block that casts it.
pub open spec fn stamped(votes: Seq<H256>, level: u64) -> Seq<(H256, u64)> {
    votes.map_values(|vote: H256| (vote, level))
}

/// Votes added and removed, with more of both before them.
pub open spec fn prepended(
    added: Seq<(H256, u64)>,
    removed: Seq<(H256, u64)>,
    rest: Option<(Seq<(H256, u64)>, Seq<(H256, u64)>)>,
) -> Option<(Seq<(H256, u64)>, Seq<(H256, u64)>)> {
    match rest {
        Some((a, r)) => Some((added + a, removed + r)),
        None => None,
    }
}

/// The votes of a voter block, with its level, and its parent, if both are known.
pub open spec fn step(t: Records, block: H256, level: u64) -> Option<(Seq<(H256, u64)>, H256)> {
    if t.votes.contains_key(block) && t.voter_parent.contains_key(block) {
        Some((stamped(t.votes[block], level), t.voter_parent[block]))
    } else {
        None
    }
}

/// The votes that are added and those that are removed when a voter chain switches from one tip
/// to another: both chains are followed down, the one that is at the higher level first, until
/// they meet.
pub open spec fn diff_at(
    t: Records,
    from: H256,
    from_level: u64,
    to: H256,
    to_level: u64,
) -> Option<(Seq<(H256, u64)>, Seq<(H256, u64)>)>
    decreases from_level + to_level,
{
    if to_level > from_level {
        match step(t, to, to_level) {
            Some((votes, parent)) => prepended(
                votes,
                Seq::empty(),
                diff_at(t, from, from_level, parent, (to_level - 1) as u64),
            ),
            None => None,
        }
    } else if from_level > to_level {
        match step(t, from, from_level) {
            Some((votes, parent)) => prepended(
                Seq::empty(),
                votes,
                diff_at(t, parent, (from_level - 1) as u64, to, to_level),
            ),
            None => None,
        }
    } else if to == from {
        Some((Seq::empty(), Seq::empty()))
    } else if to_level == 0 {
        None
    } else {
        match (step(t, to, to_level), step(t, from, from_level)) {
            (Some((added, to_parent)), Some((removed, from_parent))) => prepended(
                added,
                removed,
                diff_at(t, from_parent, (from_level - 1) as u64, to_parent, (to_level - 1) as u64),
            ),
            _ => None,
        }
    }
}

/// The votes added and removed by a switch between two voter blocks.
pub open spec fn diff(t: Records, from: H256, to: H256) -> Option<
    (Seq<(H256, u64)>, Seq<(H256, u64)>),
> {
    if t.voter_level.contains_key(from) && t.voter_level.contains_key(to) {
        diff_at(t, from, t.voter_level[from], to, t.voter_level[to])
    } else {
        None
    }
}

/// A result with both lists as sequences.
pub open spec fn as_seqs<T, U, E>(result: Result<(Vec<T>, Vec<U>), Error<E>>) -> Result<
    (Seq<T>, Seq<U>),
    Error<E>,
> {
    match result {
        Ok((first, second)) => Ok((first@, second@)),
        Err(error) => Err(error),
    }
}

/// Adds votes to a list, each with the given level.
fn push_stamped(list: &mut Vec<(H256, u64)>, votes: &Vec<H256>, level: u64)
    ensures
        final(list)@ == old(list)@ + stamped(votes@, level),
{
    for i in 0..votes.len()
        invariant
            list@ =~= old(list)@ + stamped(votes@.subrange(0, i as int), level),
    {
        list.push((votes[i], level));
    }
    assert(votes@.subrange(0, votes@.len() as int) =~= votes@);
}

/// Reads the votes of a voter block, adds them to a list, and reads the block's parent.
fn step_down<R, E>(read: &R, block: H256, level: u64, list: &mut Vec<(H256, u64)>) -> (result:
    Result<H256, Error<E>>) where R: Fn(Column, Vec<u8>) -> Result<Option<Vec<u8>>, E>
    requires
        callable(*read),
    ensures
        forall|t: Records| #[trigger]
            answers(*read, t) ==> match result {
                Ok(parent) => step(t, block, level) matches Some((votes, p)) && p == parent
                    && final(list)@ == old(list)@ + votes,
                Err(error) => settles(*read, Err::<(), Error<E>>(error), match step(
                    t,
                    block,
                    level,
                ) {
                    Some(_) => Some(()),
                    None => None,
                }),
            },
{
    let votes = match required(list_under(read, Column::VoteNeighbor, block)) {
        Ok(votes) => votes,
        Err(error) => {
            return Err(error);
        },
    };
    push_stamped(list, &votes, level);
    required(link_under(read, Column::VoterParentNeighbor, block))
}

/// The votes that are added and those that are removed when a voter chain switches from one tip
/// to another.
pub(crate) fn votes_between<R, E>(read: &R, from: H256, to: H256) -> (result: Result<
    (Vec<(H256, u64)>, Vec<(H256, u64)>),
    Error<E>,
>) where R: Fn(Column, Vec<u8>) -> Result<Option<Vec<u8>>, E>
    requires
        callable(*read),
    ensures
        forall|t: Records| #[trigger]
            answers(*read, t) ==> settles(*read, as_seqs(result), diff(t, from, to)),
{
    let mut to_block: H256 = to;
    let mut from_block: H256 = from;
    let mut to_level: u64 = match required(level_under(read, Column::VoterNodeLevel, to)) {
        Ok(level) => level,
        Err(error) => {
            return Err(error);
        },
    };
    let mut from_level: u64 = match required(
        level_under(read, Column::VoterNodeLevel, from),
    ) {
        Ok(level) => level,
        Err(error) => {
            return Err(error);
        },
    };
    let mut added: Vec<(H256, u64)> = Vec::new();
    let mut removed: Vec<(H256, u64)> = Vec::new();

    assert forall|t: Records| #[trigger] answers(*read, t) implies diff(t, from, to)
        == prepended(
        added@,
        removed@,
        diff_at(t, from_block, from_level, to_block, to_level),
    ) by {
        lemma_prepend_nothing(diff_at(t, from_block, from_level, to_block, to_level));
    }
    // follow the longer chain down until both are at the same level
    while to_level != from_level
        invariant
            callable(*read),
            forall|t: Records| #[trigger]
                answers(*read, t) ==> diff(t, from, to) == prepended(
                    added@,
                    removed@,
                    diff_at(t, from_block, from_level, to_block, to_level),
                ),
        decreases from_level + to_level,
    {
        let ghost a = added@;
        let ghost r = removed@;
        if to_level > from_level {
            let parent = match step_down(read, to_block, to_level, &mut added) {
                Ok(parent) => parent,
                Err(error) => {
                    return Err(error);
                },
            };
            assert forall|t: Records| #[trigger] answers(*read, t) implies diff(
                t,
                from,
                to,
            ) == prepended(
                added@,
                removed@,
                diff_at(t, from_block, from_level, parent, (to_level - 1) as u64),
            ) by {
                let rest = diff_at(t, from_block, from_level, parent, (to_level - 1) as u64);
                lemma_prepend_twice(
                    a,
                    r,
                    stamped(t.votes[to_block], to_level),
                    Seq::empty(),
                    rest,
                );
            }
            to_block = parent;
            to_level -= 1;
        } else {
            let parent = match step_down(read, from_block, from_level, &mut removed) {
                Ok(parent) => parent,
                Err(error) => {
                    return Err(error);
                },
            };
            assert forall|t: Records| #[trigger] answers(*read, t) implies diff(
                t,
                from,
                to,
            ) == prepended(
                added@,
                removed@,
                diff_at(t, parent, (from_level - 1) as u64, to_block, to_level),
            ) by {
                let rest = diff_at(t, parent, (from_level - 1) as u64, to_block, to_level);
                lemma_prepend_twice(
                    a,
                    r,
                    Seq::empty(),
                    stamped(t.votes[from_block], from_level),
                    rest,
                );
            }
            from_block = parent;
            from_level -= 1;
        }
    }
    // follow both chains down until they meet
    while !same_hash(to_block, from_block)
        invariant
            callable(*read),
            to_level == from_level,
            forall|t: Records| #[trigger]
                answers(*read, t) ==> diff(t, from, to) == prepended(
                    added@,
                    removed@,
                    diff_at(t, from_block, from_level, to_block, to_level),
                ),
        decreases to_level,
    {
        let ghost a = added@;
        let ghost r = removed@;
        if to_level == 0 {
            return Err(Error::Inconsistent);
        }
        let to_parent = match step_down(read, to_block, to_level, &mut added) {
            Ok(parent) => parent,
            Err(error) => {
                return Err(error);
            },
        };
        let from_parent = match step_down(read, from_block, from_level, &mut removed) {
            Ok(parent) => parent,
            Err(error) => {
                return Err(error);
            },
        };
        assert forall|t: Records| #[trigger] answers(*read, t) implies diff(
            t,
            from,
            to,
        ) == prepended(
            added@,
            removed@,
            diff_at(t, from_parent, (from_level - 1) as u64, to_parent, (to_level - 1) as u64),
        ) by {
            let rest = diff_at(
                t,
                from_parent,
                (from_level - 1) as u64,
                to_parent,
                (to_level - 1) as u64,
            );
            lemma_prepend_twice(
                a,
                r,
                stamped(t.votes[to_block], to_level),
                stamped(t.votes[from_block], from_level),
                rest,
            );
        }
        to_block = to_parent;
        to_level -= 1;
        from_block = from_parent;
        from_level -= 1;
    }
    assert(added@ + Seq::<(H256, u64)>::empty() =~= added@);
    assert(removed@ + Seq::<(H256, u64)>::empty() =~= removed@);
    Ok((added, removed))
}
impl BlockChain {
    /// Given two voter blocks on the same chain, calculates the votes that are added and those
    /// that are removed when the main chain switches from the first to the second.
    pub fn vote_diff<R, E>(&self, read: &R, from: H256, to: H256) -> (result: Result<
        (Vec<(H256, u64)>, Vec<(H256, u64)>),
        Error<E>,
    >) where R: Fn(Column, Vec<u8>) -> Result<Option<Vec<u8>>, E>
        requires
            callable(*read),
            forall|t: Records| #[trigger]
                answers(*read, t) ==> t.voter_level.contains_key(from)
                    && t.voter_level.contains_key(to) && at(t.voter_chain, from) == at(
                    t.voter_chain,
                    to,
                ),
        ensures
            forall|t: Records| #[trigger]
                answers(*read, t) ==> settles(*read, as_seqs(result), diff(t, from, to)),
            forall|t: Records| #[trigger]
                answers(*read, t) ==> (result matches Ok((added, removed)) ==> diff(t, from, to)
                    == Some((added@, removed@))),
    {
        votes_between(read, from, to)
    }
}


proof fn lemma_prepend_nothing(rest: Option<(Seq<(H256, u64)>, Seq<(H256, u64)>)>)
    ensures
        prepended(Seq::empty(), Seq::empty(), rest) == rest,
{
    if rest is Some {
        assert(Seq::<(H256, u64)>::empty() + rest.unwrap().0 =~= rest.unwrap().0);
        assert(Seq::<(H256, u64)>::empty() + rest.unwrap().1 =~= rest.unwrap().1);
    }
}

proof fn lemma_prepend_twice(
    a1: Seq<(H256, u64)>,
    r1: Seq<(H256, u64)>,
    a2: Seq<(H256, u64)>,
    r2: Seq<(H256, u64)>,
    rest: Option<(Seq<(H256, u64)>, Seq<(H256, u64)>)>,
)
    ensures
        prepended(a1, r1, prepended(a2, r2, rest)) == prepended(a1 + a2, r1 + r2, rest),
        a1 + Seq::<(H256, u64)>::empty() == a1,
        r1 + Seq::<(H256, u64)>::empty() == r1,
{
    assert(a1 + Seq::<(H256, u64)>::empty() =~= a1);
    assert(r1 + Seq::<(H256, u64)>::empty() =~= r1);
    if rest is Some {
        let (a, r) = rest.unwrap();
        assert(a1 + (a2 + a) =~= (a1 + a2) + a);
        assert(r1 + (r2 + r) =~= (r1 + r2) + r);
    }
}

/// All votes on the chain that ends in a voter block, from the block down.
pub open spec fn chain_votes(t: Records, block: H256, level: u64) -> Seq<(H256, u64)>
    decreases level,
{
    let votes = stamped(list_at(t.votes, block), level);
    if level == 0 {
        votes
    } else {
        votes + chain_votes(t, t.voter_parent[block], (level - 1) as u64)
    }
}

/// Where two voter chains meet: the block and its level.
pub open spec fn meeting(
    t: Records,
    from: H256,
    from_level: u64,
    to: H256,
    to_level: u64,
) -> (H256, u64)
    decreases from_level + to_level,
{
    if to_level > from_level {
        meeting(t, from, from_level, t.voter_parent[to], (to_level - 1) as u64)
    } else if from_level > to_level {
        meeting(t, t.voter_parent[from], (from_level - 1) as u64, to, to_level)
    } else if to == from || to_level == 0 {
        (to, to_level)
    } else {
        meeting(
            t,
            t.voter_parent[from],
            (from_level - 1) as u64,
            t.voter_parent[to],
            (to_level - 1) as u64,
        )
    }
}

/// A switch from a block to itself changes no vote.
pub proof fn law_diff_of_same(t: Records, block: H256)
    requires
        t.voter_level.contains_key(block),
    ensures
        diff(t, block, block) == Some((Seq::<(H256, u64)>::empty(), Seq::<(H256, u64)>::empty())),
{
}

/// The switch back removes what the switch adds, and adds what it removes.
pub proof fn law_diff_of_swap(t: Records, from: H256, to: H256)
    ensures
        match diff(t, from, to) {
            Some((added, removed)) => diff(t, to, from) == Some((removed, added)),
            None => diff(t, to, from) is None,
        },
{
    if t.voter_level.contains_key(from) && t.voter_level.contains_key(to) {
        lemma_diff_at_swap(t, from, t.voter_level[from], to, t.voter_level[to]);
    }
}

proof fn lemma_diff_at_swap(t: Records, from: H256, from_level: u64, to: H256, to_level: u64)
    ensures
        match diff_at(t, from, from_level, to, to_level) {
            Some((added, removed)) => diff_at(t, to, to_level, from, from_level) == Some(
                (removed, added),
            ),
            None => diff_at(t, to, to_level, from, from_level) is None,
        },
    decreases from_level + to_level,
{
    if to_level > from_level {
        if let Some((votes, parent)) = step(t, to, to_level) {
            lemma_diff_at_swap(t, from, from_level, parent, (to_level - 1) as u64);
        }
    } else if from_level > to_level {
        if let Some((votes, parent)) = step(t, from, from_level) {
            lemma_diff_at_swap(t, parent, (from_level - 1) as u64, to, to_level);
        }
    } else if to != from && to_level > 0 {
        if t.voter_parent.contains_key(to) && t.voter_parent.contains_key(from) {
            lemma_diff_at_swap(
                t,
                t.voter_parent[from],
                (from_level - 1) as u64,
                t.voter_parent[to],
                (to_level - 1) as u64,
            );
        }
    }
}

/// What a switch adds is what the new chain has above the block where the two chains meet, and
/// what it removes is what the old chain has above that block.
pub proof fn law_diff_splits_chains(t: Records, from: H256, to: H256)
    requires
        diff(t, from, to) is Some,
    ensures
        ({
            let (added, removed) = diff(t, from, to).unwrap();
            let (from_level, to_level) = (t.voter_level[from], t.voter_level[to]);
            let (block, level) = meeting(t, from, from_level, to, to_level);
            &&& chain_votes(t, to, to_level) == added + chain_votes(t, block, level)
            &&& chain_votes(t, from, from_level) == removed + chain_votes(t, block, level)
        }),
{
    lemma_diff_at_splits(t, from, t.voter_level[from], to, t.voter_level[to]);
}

pub(crate) proof fn lemma_diff_at_splits(
    t: Records,
    from: H256,
    from_level: u64,
    to: H256,
    to_level: u64,
)
    requires
        diff_at(t, from, from_level, to, to_level) is Some,
    ensures
        ({
            let (added, removed) = diff_at(t, from, from_level, to, to_level).unwrap();
            let (block, level) = meeting(t, from, from_level, to, to_level);
            &&& chain_votes(t, to, to_level) == added + chain_votes(t, block, level)
            &&& chain_votes(t, from, from_level) == removed + chain_votes(t, block, level)
        }),
    decreases from_level + to_level,
{
    let (block, level) = meeting(t, from, from_level, to, to_level);
    let common = chain_votes(t, block, level);
    let none = Seq::<(H256, u64)>::empty();
    if to_level > from_level {
        let (votes, parent) = step(t, to, to_level).unwrap();
        lemma_diff_at_splits(t, from, from_level, parent, (to_level - 1) as u64);
        let (a, r) = diff_at(t, from, from_level, parent, (to_level - 1) as u64).unwrap();
        assert(votes + (a + common) =~= (votes + a) + common);
        assert(none + r =~= r);
    } else if from_level > to_level {
        let (votes, parent) = step(t, from, from_level).unwrap();
        lemma_diff_at_splits(t, parent, (from_level - 1) as u64, to, to_level);
        let (a, r) = diff_at(t, parent, (from_level - 1) as u64, to, to_level).unwrap();
        assert(votes + (r + common) =~= (votes + r) + common);
        assert(none + a =~= a);
    } else if to == from {
        assert(none + common =~= common);
    } else {
        let (added, to_parent) = step(t, to, to_level).unwrap();
        let (removed, from_parent) = step(t, from, from_level).unwrap();
        let next = diff_at(
            t,
            from_parent,
            (from_level - 1) as u64,
            to_parent,
            (to_level - 1) as u64,
        );
        lemma_diff_at_splits(
            t,
            from_parent,
            (from_level - 1) as u64,
            to_parent,
            (to_level - 1) as u64,
        );
        let (a, r) = next.unwrap();
        assert(added + (a + common) =~= (added + a) + common);
        assert(removed + (r + common) =~= (removed + r) + common);
    }
}

/// The votes on a chain depend on the votes and the parents of voter blocks alone.
pub proof fn lemma_chain_votes_alone(t: Records, u: Records, block: H256, level: u64)
    requires
        t.votes == u.votes,
        t.voter_parent == u.voter_parent,
    ensures
        chain_votes(t, block, level) == chain_votes(u, block, level),
    decreases level,
{
    if level > 0 {
        lemma_chain_votes_alone(t, u, t.voter_parent[block], (level - 1) as u64);
    }
}

/// Whether a voter block descends from another one, or is that block: following the parents down
/// from it leads to the other one, at its level.
pub open spec fn descends(t: Records, block: H256, level: u64, from: H256, from_level: u64) -> bool
    decreases level,
{
    if level < from_level {
        false
    } else if level == from_level {
        block == from
    } else {
        step(t, block, level) is Some && descends(
            t,
            t.voter_parent[block],
            (level - 1) as u64,
            from,
            from_level,
        )
    }
}

/// Whether a known voter block is an ancestor of another one, or that block.
pub open spec fn ancestor(t: Records, block: H256, of: H256) -> bool {
    &&& t.voter_level.contains_key(block)
    &&& t.voter_level.contains_key(of)
    &&& descends(t, of, t.voter_level[of], block, t.voter_level[block])
}

proof fn lemma_growth(t: Records, from: H256, from_level: u64, to: H256, to_level: u64)
    requires
        descends(t, to, to_level, from, from_level),
    ensures
        diff_at(t, from, from_level, to, to_level) matches Some((_, removed)) && removed
            == Seq::<(H256, u64)>::empty(),
    decreases to_level,
{
    if to_level > from_level {
        let parent = t.voter_parent[to];
        lemma_growth(t, from, from_level, parent, (to_level - 1) as u64);
        let none = Seq::<(H256, u64)>::empty();
        assert(none + none =~= none);
    }
}

proof fn lemma_growth_in_steps(
    t: Records,
    a: H256,
    a_level: u64,
    b: H256,
    b_level: u64,
    c: H256,
    c_level: u64,
)
    requires
        descends(t, b, b_level, a, a_level),
        descends(t, c, c_level, b, b_level),
    ensures
        descends(t, c, c_level, a, a_level),
        diff_at(t, a, a_level, c, c_level).unwrap().0 == diff_at(
            t,
            b,
            b_level,
            c,
            c_level,
        ).unwrap().0 + diff_at(t, a, a_level, b, b_level).unwrap().0,
    decreases c_level,
{
    lemma_growth(t, a, a_level, b, b_level);
    lemma_growth(t, b, b_level, c, c_level);
    let first = diff_at(t, a, a_level, b, b_level).unwrap().0;
    if c_level == b_level {
        assert(diff_at(t, b, b_level, c, c_level).unwrap().0 + first =~= first);
    } else {
        assert(b_level >= a_level);
        let parent = t.voter_parent[c];
        let below = (c_level - 1) as u64;
        lemma_growth_in_steps(t, a, a_level, b, b_level, parent, below);
        lemma_growth(t, a, a_level, parent, below);
        lemma_growth(t, b, b_level, parent, below);
        let votes = stamped(t.votes[c], c_level);
        let second = diff_at(t, b, b_level, parent, below).unwrap().0;
        assert(votes + (second + first) =~= (votes + second) + first);
    }
}

/// A chain that grows from a block over a second one to a third one gains the votes of the second
/// part followed by those of the first part, and loses none.
pub proof fn law_diff_along_ancestors(t: Records, a: H256, b: H256, c: H256)
    requires
        ancestor(t, a, b),
        ancestor(t, b, c),
    ensures
        ancestor(t, a, c),
        ({
            let none = Seq::<(H256, u64)>::empty();
            &&& diff(t, a, b) matches Some((first, removed)) && removed == none
            &&& diff(t, b, c) matches Some((second, removed)) && removed == none
            &&& diff(t, a, c) == Some(
                (diff(t, b, c).unwrap().0 + diff(t, a, b).unwrap().0, none),
            )
        }),
{
    let (la, lb, lc) = (t.voter_level[a], t.voter_level[b], t.voter_level[c]);
    lemma_growth(t, a, la, b, lb);
    lemma_growth(t, b, lb, c, lc);
    lemma_growth_in_steps(t, a, la, b, lb, c, lc);
    lemma_growth(t, a, la, c, lc);
}

} // verus!
