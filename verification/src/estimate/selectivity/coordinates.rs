//! Sets of coordinates of one integral domain.

use std::collections::HashSet;
use vstd::prelude::*;

verus! {

/// Coordinates that an equality admits, each once.
#[derive(Debug)]
pub struct CoordinateSet {
    items: Vec<u128>,
    index: HashSet<u128>,
}

impl View for CoordinateSet {
    type V = Set<u128>;

    closed spec fn view(&self) -> Set<u128> {
        self.items@.to_set()
    }
}

impl CoordinateSet {
    #[verifier::type_invariant]
    spec fn each_once(self) -> bool {
        &&& self.items@.no_duplicates()
        &&& self.index@ == self.items@.to_set()
    }

    pub fn new() -> (r: CoordinateSet)
        ensures
            r@ == Set::<u128>::empty(),
    {
        broadcast use vstd::std_specs::hash::group_hash_axioms;

        let items: Vec<u128> = Vec::new();
        let index: HashSet<u128> = HashSet::new();
        assert(items@.to_set() =~= Set::<u128>::empty());
        CoordinateSet { items, index }
    }

    pub fn len(&self) -> (r: usize)
        ensures
            r == self@.len(),
            self@.finite(),
    {
        proof {
            use_type_invariant(self);
            self.items@.unique_seq_to_set();
            vstd::seq_lib::seq_to_set_is_finite(self.items@);
        }
        self.items.len()
    }

    pub fn contains(&self, coordinate: u128) -> (r: bool)
        ensures
            r == self@.contains(coordinate),
    {
        broadcast use vstd::std_specs::hash::group_hash_axioms;

        proof {
            use_type_invariant(self);
        }
        self.index.contains(&coordinate)
    }

    pub fn insert(&mut self, coordinate: u128)
        ensures
            final(self)@ == old(self)@.insert(coordinate),
    {
        broadcast use vstd::std_specs::hash::group_hash_axioms;

        proof {
            use_type_invariant(&*self);
        }
        if self.contains(coordinate) {
            assert(self@.insert(coordinate) =~= self@);
            return;
        }
        let mut taken = CoordinateSet::new();
        std::mem::swap(self, &mut taken);
        proof {
            use_type_invariant(&taken);
        }
        let CoordinateSet { mut items, mut index } = taken;
        let ghost before = items@;
        items.push(coordinate);
        index.insert(coordinate);
        proof {
            assert(items@.to_set() =~= before.to_set().insert(coordinate)) by {
                assert forall|x: u128| #[trigger]
                    items@.to_set().contains(x) <==> before.to_set().insert(coordinate).contains(
                        x,
                    ) by {
                    if before.to_set().contains(x) {
                        let i = choose|i: int| 0 <= i < before.len() && before[i] == x;
                        assert(items@[i] == x);
                    }
                    if x == coordinate {
                        assert(items@[before.len() as int] == x);
                    }
                }
            }
        }
        *self = CoordinateSet { items, index };
    }

    /// The coordinates that are in both sets.
    pub fn intersection(&self, other: &CoordinateSet) -> (r: CoordinateSet)
        ensures
            r@ == self@.intersect(other@),
    {
        proof {
            use_type_invariant(self);
        }
        let mut r = CoordinateSet::new();
        let mut i: usize = 0;
        while i < self.items.len()
            invariant
                i <= self.items@.len(),
                r@ =~= self.items@.take(i as int).to_set().intersect(other@),
            decreases self.items@.len() - i,
        {
            let ghost before = self.items@.take(i as int);
            let item: u128 = self.items[i];
            if other.contains(item) {
                r.insert(item);
            }
            proof {
                assert(self.items@.take(i + 1) =~= before.push(item));
                assert(before.push(item).to_set() =~= before.to_set().insert(item)) by {
                    assert forall|x: u128| #[trigger]
                        before.push(item).to_set().contains(x) <==> before.to_set().insert(
                            item,
                        ).contains(x) by {
                        if before.to_set().contains(x) {
                            let k = choose|k: int| 0 <= k < before.len() && before[k] == x;
                            assert(before.push(item)[k] == x);
                        }
                        if x == item {
                            assert(before.push(item)[before.len() as int] == x);
                        }
                    }
                }
            }
            i = i + 1;
        }
        assert(self.items@.take(i as int) =~= self.items@);
        r
    }
}

} // verus!
