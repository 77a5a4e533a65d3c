//! The chromosome order table.

use vstd::hash_map::StringHashMap;
use vstd::prelude::*;

verus! {

/// Assigns each chromosome name a rank. Names are ranked in the order in
/// which they were added, densely from zero, and this ranking alone
/// decides how chromosomes are ordered: names are never compared as text.
pub struct ChromOrder {
    ranks: StringHashMap<usize>,
    count: usize,
}

impl View for ChromOrder {
    type V = Map<Seq<char>, usize>;

    closed spec fn view(&self) -> Map<Seq<char>, usize> {
        self.ranks@
    }
}

impl ChromOrder {
    /// The number of names in the table.
    pub closed spec fn count(&self) -> nat {
        self.count as nat
    }

    /// Every rank is below the count, and no two names share a rank.
    pub open spec fn wf(&self) -> bool {
        &&& forall|name: Seq<char>| #[trigger]
            self@.contains_key(name) ==> self@[name] < self.count()
        &&& forall|a: Seq<char>, b: Seq<char>|
            #![trigger self@[a], self@[b]]
            self@.contains_key(a) && self@.contains_key(b) && self@[a] == self@[b] ==> a == b
    }

    /// The rank of a name, if the table has it.
    pub open spec fn rank_of(&self, name: Seq<char>) -> Option<usize> {
        if self@.contains_key(name) {
            Some(self@[name])
        } else {
            None
        }
    }

    /// An empty table.
    pub fn new() -> (order: Self)
        ensures
            order.wf(),
            order@ == Map::<Seq<char>, usize>::empty(),
            order.count() == 0,
    {
        ChromOrder { ranks: StringHashMap::new(), count: 0 }
    }

    /// Adds a name with the next free rank and returns that rank. A name
    /// that the table already has keeps its rank, and `None` is returned.
    pub fn push(&mut self, name: String) -> (rank: Option<usize>)
        requires
            old(self).wf(),
            old(self).count() < usize::MAX,
        ensures
            final(self).wf(),
            old(self)@.contains_key(name@) ==> rank is None && *final(self) == *old(self),
            !old(self)@.contains_key(name@) ==> rank == Some(old(self).count() as usize)
                && final(self)@ == old(self)@.insert(name@, old(self).count() as usize)
                && final(self).count() == old(self).count() + 1,
    {
        if self.ranks.contains_key(name.as_str()) {
            None
        } else {
            let rank = self.count;
            let ghost key = name@;
            self.ranks.insert(name, rank);
            self.count = rank + 1;
            proof {
                assert forall|n: Seq<char>| #[trigger] self@.contains_key(n) implies self@[n]
                    < self.count() by {
                    if n != key {
                        assert(old(self)@.contains_key(n));
                    }
                }
                assert forall|a: Seq<char>, b: Seq<char>|
                    #![trigger self@[a], self@[b]]
                    self@.contains_key(a) && self@.contains_key(b) && self@[a]
                        == self@[b] implies a == b by {
                    if a != key {
                        assert(old(self)@.contains_key(a));
                    }
                    if b != key {
                        assert(old(self)@.contains_key(b));
                    }
                    if a != key && b != key {
                        assert(old(self)@[a] == old(self)@[b]);
                    }
                }
            }
            Some(rank)
        }
    }

    /// Looks a name up.
    pub fn rank(&self, name: &str) -> (rank: Option<usize>)
        ensures
            rank == self.rank_of(name@),
    {
        match self.ranks.get(name) {
            Some(r) => Some(*r),
            None => None,
        }
    }

    /// The number of names in the table.
    pub fn len(&self) -> (n: usize)
        ensures
            n == self.count(),
    {
        self.count
    }
}

/// In a well-formed table, equal ranks mean equal names.
pub proof fn lemma_rank_names(order: &ChromOrder, a: Seq<char>, b: Seq<char>)
    requires
        order.wf(),
        order.rank_of(a) is Some,
        order.rank_of(a) == order.rank_of(b),
    ensures
        a == b,
{
    assert(order@[a] == order@[b]);
}

} // verus!
