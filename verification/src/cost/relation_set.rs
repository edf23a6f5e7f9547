//! Sets of join relations.

use vstd::prelude::*;

use crate::index_list::{increasing, sorted_distinct};

verus! {

/// A set of relations, listed in increasing order.
#[derive(Debug)]
pub struct JoinRelationSet {
    relations: Vec<usize>,
}

impl View for JoinRelationSet {
    type V = Set<usize>;

    closed spec fn view(&self) -> Set<usize> {
        self.relations@.to_set()
    }
}

impl JoinRelationSet {
    #[verifier::type_invariant]
    spec fn sorted(self) -> bool {
        increasing(self.relations@)
    }

    /// The relations in increasing order.
    pub closed spec fn listing(self) -> Seq<usize> {
        self.relations@
    }

    pub fn empty() -> (r: JoinRelationSet)
        ensures
            r@ == Set::<usize>::empty(),
            r.listing() == Seq::<usize>::empty(),
    {
        let r = JoinRelationSet { relations: Vec::new() };
        assert(r@ =~= Set::<usize>::empty());
        r
    }

    /// The set of the given relations.
    pub fn new(relations: Vec<usize>) -> (r: JoinRelationSet)
        ensures
            r@ == relations@.to_set(),
    {
        JoinRelationSet { relations: sorted_distinct(&relations) }
    }

    /// The relations in increasing order.
    pub fn relations(&self) -> (r: &Vec<usize>)
        ensures
            r@ == self.listing(),
            r@.to_set() == self@,
            increasing(r@),
    {
        proof {
            use_type_invariant(self);
        }
        &self.relations
    }

    pub fn count(&self) -> (r: usize)
        ensures
            r == self@.len(),
            r == self.listing().len(),
    {
        proof {
            use_type_invariant(self);
            self.relations@.unique_seq_to_set();
        }
        self.relations.len()
    }

    pub fn contains(&self, relation: usize) -> (r: bool)
        ensures
            r == self@.contains(relation),
    {
        let mut i: usize = 0;
        while i < self.relations.len()
            invariant
                i <= self.relations@.len(),
                forall|k: int| 0 <= k < i ==> #[trigger] self.relations@[k] != relation,
            decreases self.relations@.len() - i,
        {
            if self.relations[i] == relation {
                assert(self.relations@.contains(relation));
                return true;
            }
            i = i + 1;
        }
        false
    }

    /// Whether every relation of the other set is in this one.
    pub fn contains_all(&self, other: &JoinRelationSet) -> (r: bool)
        ensures
            r == other@.subset_of(self@),
    {
        let mut i: usize = 0;
        while i < other.relations.len()
            invariant
                i <= other.relations@.len(),
                forall|k: int| 0 <= k < i ==> self@.contains(#[trigger] other.relations@[k]),
            decreases other.relations@.len() - i,
        {
            if !self.contains(other.relations[i]) {
                assert(other@.contains(other.relations@[i as int]));
                return false;
            }
            i = i + 1;
        }
        assert(other@.subset_of(self@));
        true
    }

    pub fn union(&self, other: &JoinRelationSet) -> (r: JoinRelationSet)
        ensures
            r@ == self@.union(other@),
    {
        let mut all: Vec<usize> = Vec::new();
        let mut i: usize = 0;
        while i < self.relations.len()
            invariant
                i <= self.relations@.len(),
                all@ == self.relations@.take(i as int),
            decreases self.relations@.len() - i,
        {
            all.push(self.relations[i]);
            assert(all@ =~= self.relations@.take(i + 1));
            i = i + 1;
        }
        let mut j: usize = 0;
        assert(all@ =~= self.relations@ + other.relations@.take(0));
        while j < other.relations.len()
            invariant
                j <= other.relations@.len(),
                all@ == self.relations@ + other.relations@.take(j as int),
            decreases other.relations@.len() - j,
        {
            all.push(other.relations[j]);
            assert(all@ =~= self.relations@ + other.relations@.take(j + 1));
            j = j + 1;
        }
        proof {
            assert(other.relations@.take(j as int) =~= other.relations@);
            assert forall|x: usize|
                (self.relations@ + other.relations@).to_set().contains(x) <==> self@.union(
                    other@,
                ).contains(x) by {
                if self.relations@.contains(x) {
                    let k = choose|k: int|
                        0 <= k < self.relations@.len() && self.relations@[k] == x;
                    assert(all@[k] == x);
                }
                if other.relations@.contains(x) {
                    let k = choose|k: int|
                        0 <= k < other.relations@.len() && other.relations@[k] == x;
                    assert(all@[self.relations@.len() + k] == x);
                }
                if all@.contains(x) {
                    let k = choose|k: int| 0 <= k < all@.len() && all@[k] == x;
                    if k < self.relations@.len() {
                        assert(self.relations@[k] == x);
                    } else {
                        assert(other.relations@[k - self.relations@.len()] == x);
                    }
                }
            }
            assert(all@.to_set() =~= self@.union(other@));
        }
        JoinRelationSet::new(all)
    }
}

} // verus!
