//! Map from column bindings to values, walked in binding order.

use vstd::prelude::*;

use crate::types::ColumnBinding;

verus! {

#[derive(Debug)]
pub struct BindingMap<V> {
    entries: Vec<(ColumnBinding, V)>,
}

/// Entries in strictly increasing binding order.
pub open spec fn ordered<V>(entries: Seq<(ColumnBinding, V)>) -> bool {
    forall|i: int, j: int|
        #![trigger entries[i], entries[j]]
        0 <= i < j < entries.len() ==> entries[i].0.spec_before(entries[j].0)
}

/// The association that a sequence of entries with distinct bindings denotes.
pub open spec fn association<V>(entries: Seq<(ColumnBinding, V)>) -> Map<ColumnBinding, V> {
    Map::new(
        |b: ColumnBinding| exists|i: int| 0 <= i < entries.len() && (#[trigger] entries[i]).0 == b,
        |b: ColumnBinding|
            entries[choose|i: int| 0 <= i < entries.len() && (#[trigger] entries[i]).0 == b].1,
    )
}

proof fn lemma_entry<V>(entries: Seq<(ColumnBinding, V)>, i: int)
    requires
        ordered(entries),
        0 <= i < entries.len(),
    ensures
        association(entries).contains_key(entries[i].0),
        association(entries)[entries[i].0] == entries[i].1,
{
    let b = entries[i].0;
    let k = choose|k: int| 0 <= k < entries.len() && (#[trigger] entries[k]).0 == b;
    assert(0 <= k < entries.len() && entries[k].0 == b);
    if k < i {
        assert(entries[k].0.spec_before(entries[i].0));
    } else if i < k {
        assert(entries[i].0.spec_before(entries[k].0));
    }
}

impl<V> View for BindingMap<V> {
    type V = Map<ColumnBinding, V>;

    closed spec fn view(&self) -> Map<ColumnBinding, V> {
        association(self.entries@)
    }
}

impl<V> BindingMap<V> {
    #[verifier::type_invariant]
    spec fn inv(self) -> bool {
        ordered(self.entries@)
    }

    /// The entries in binding order.
    pub closed spec fn sequence(self) -> Seq<(ColumnBinding, V)> {
        self.entries@
    }

    /// Position of a binding that the map holds.
    pub proof fn lemma_position(&self, binding: ColumnBinding) -> (i: int)
        requires
            self@.contains_key(binding),
        ensures
            0 <= i < self.sequence().len(),
            self.sequence()[i].0 == binding,
    {
        choose|i: int| 0 <= i < self.entries@.len() && (#[trigger] self.entries@[i]).0 == binding
    }

    pub fn new() -> (r: BindingMap<V>)
        ensures
            r@ == Map::<ColumnBinding, V>::empty(),
            r.sequence() == Seq::<(ColumnBinding, V)>::empty(),
    {
        let r = BindingMap { entries: Vec::new() };
        assert(r@ =~= Map::<ColumnBinding, V>::empty());
        r
    }

    /// Number of entries. They are in binding order and associate what the map
    /// does.
    pub fn len(&self) -> (r: usize)
        ensures
            r == self.sequence().len(),
            ordered(self.sequence()),
            forall|i: int|
                0 <= i < self.sequence().len() ==> self@.contains_key(
                    (#[trigger] self.sequence()[i]).0,
                ) && self@[self.sequence()[i].0] == self.sequence()[i].1,
    {
        proof {
            use_type_invariant(self);
            assert forall|i: int| 0 <= i < self.sequence().len() implies self@.contains_key(
                (#[trigger] self.sequence()[i]).0,
            ) && self@[self.sequence()[i].0] == self.sequence()[i].1 by {
                lemma_entry(self.entries@, i);
            }
        }
        self.entries.len()
    }

    pub fn is_empty(&self) -> (r: bool)
        ensures
            r == (self@.dom() =~= Set::<ColumnBinding>::empty()),
    {
        let r = self.entries.len() == 0;
        proof {
            if r {
                assert(self@.dom() =~= Set::<ColumnBinding>::empty());
            } else {
                assert(self@.dom().contains(self.entries@[0].0));
            }
        }
        r
    }

    /// The entry at a position of the binding order.
    pub fn entry(&self, position: usize) -> (r: (ColumnBinding, &V))
        requires
            position < self.sequence().len(),
        ensures
            r.0 == self.sequence()[position as int].0,
            *r.1 == self.sequence()[position as int].1,
            self@.contains_key(r.0),
            self@[r.0] == *r.1,
    {
        proof {
            use_type_invariant(self);
            lemma_entry(self.entries@, position as int);
        }
        (self.entries[position].0, &self.entries[position].1)
    }

    /// Number of entries whose binding comes before `binding`.
    fn rank(&self, binding: &ColumnBinding) -> (r: usize)
        ensures
            r <= self.entries@.len(),
            forall|i: int|
                0 <= i < r ==> (#[trigger] self.entries@[i]).0.spec_before(*binding),
            forall|i: int|
                r <= i < self.entries@.len() ==> !(#[trigger] self.entries@[i]).0.spec_before(
                    *binding,
                ),
    {
        proof {
            use_type_invariant(self);
        }
        let mut low: usize = 0;
        let mut high: usize = self.entries.len();
        while low < high
            invariant
                ordered(self.entries@),
                low <= high <= self.entries@.len(),
                forall|i: int|
                    0 <= i < low ==> (#[trigger] self.entries@[i]).0.spec_before(*binding),
                forall|i: int|
                    high <= i < self.entries@.len() ==> !(
                    #[trigger] self.entries@[i]).0.spec_before(*binding),
            decreases high - low,
        {
            let middle: usize = low + (high - low) / 2;
            let ghost at = self.entries@[middle as int].0;
            if self.entries[middle].0.before(binding) {
                assert forall|i: int| 0 <= i < middle + 1 implies (
                #[trigger] self.entries@[i]).0.spec_before(*binding) by {
                    if i < middle {
                        assert(self.entries@[i].0.spec_before(at));
                    }
                }
                low = middle + 1;
            } else {
                assert forall|i: int| middle <= i < self.entries@.len() implies !(
                #[trigger] self.entries@[i]).0.spec_before(*binding) by {
                    if i > middle {
                        assert(at.spec_before(self.entries@[i].0));
                    }
                }
                high = middle;
            }
        }
        low
    }

    pub fn get(&self, binding: &ColumnBinding) -> (r: Option<&V>)
        ensures
            match r {
                Some(v) => self@.contains_key(*binding) && self@[*binding] == *v,
                None => !self@.contains_key(*binding),
            },
    {
        proof {
            use_type_invariant(self);
        }
        let at: usize = self.rank(binding);
        if at < self.entries.len() && self.entries[at].0 == *binding {
            proof {
                lemma_entry(self.entries@, at as int);
            }
            Some(&self.entries[at].1)
        } else {
            proof {
                if self@.contains_key(*binding) {
                    let i = choose|i: int|
                        0 <= i < self.entries@.len() && (#[trigger] self.entries@[i]).0 == *binding;
                    assert(0 <= i < self.entries@.len() && self.entries@[i].0 == *binding);
                    assert(i >= at);
                    if i > at {
                        assert(self.entries@[at as int].0.spec_before(self.entries@[i].0));
                    }
                }
            }
            None
        }
    }

    /// Associates `value` with `binding`, replacing what was there.
    pub fn insert(&mut self, binding: ColumnBinding, value: V)
        ensures
            final(self)@ == old(self)@.insert(binding, value),
    {
        proof {
            use_type_invariant(&*self);
        }
        let at: usize = self.rank(&binding);
        let ghost before = self.entries@;
        let mut entries: Vec<(ColumnBinding, V)> = Vec::new();
        std::mem::swap(&mut entries, &mut self.entries);
        if at < entries.len() && entries[at].0 == binding {
            entries.remove(at);
            entries.insert(at, (binding, value));
            assert(entries@ =~= before.update(at as int, (binding, value)));
        } else {
            entries.insert(at, (binding, value));
            assert forall|i: int| at <= i < before.len() implies binding.spec_before(
                (#[trigger] before[i]).0,
            ) by {
                if i > at {
                    assert(before[at as int].0.spec_before(before[i].0));
                }
            }
        }
        proof {
            assert(ordered(entries@));
            let after = association(entries@);
            let expected = association(before).insert(binding, value);
            assert forall|b: ColumnBinding| after.contains_key(b) == expected.contains_key(b) by {
                if after.contains_key(b) {
                    let i = choose|i: int|
                        0 <= i < entries@.len() && (#[trigger] entries@[i]).0 == b;
                    assert(0 <= i < entries@.len() && entries@[i].0 == b);
                    if b != binding {
                        let k = if i < at {
                            i
                        } else if entries@.len() == before.len() {
                            i
                        } else {
                            i - 1
                        };
                        assert(before[k].0 == b);
                    }
                }
                if association(before).contains_key(b) {
                    let i = choose|i: int|
                        0 <= i < before.len() && (#[trigger] before[i]).0 == b;
                    assert(0 <= i < before.len() && before[i].0 == b);
                    if b != binding {
                        let k = if i < at {
                            i
                        } else if entries@.len() == before.len() {
                            i
                        } else {
                            i + 1
                        };
                        assert(entries@[k].0 == b);
                    }
                }
                assert(entries@[at as int].0 == binding);
            }
            assert forall|b: ColumnBinding| after.contains_key(b) implies after[b] == expected[b] by {
                let i = choose|i: int| 0 <= i < entries@.len() && (#[trigger] entries@[i]).0 == b;
                assert(0 <= i < entries@.len() && entries@[i].0 == b);
                lemma_entry(entries@, i);
                if b != binding {
                    let k = if i < at {
                        i
                    } else if entries@.len() == before.len() {
                        i
                    } else {
                        i - 1
                    };
                    assert(before[k].0 == b);
                    lemma_entry(before, k);
                } else {
                    lemma_entry(entries@, at as int);
                }
            }
            assert(after =~= expected);
        }
        self.entries = entries;
    }
}

} // verus!
