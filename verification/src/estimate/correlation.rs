//! Combining the selectivities of join conditions.

use vstd::prelude::*;

verus! {

/// A selectivity as the bit pattern of a non-negative double. Such patterns
/// are ordered as the numbers they stand for.
#[derive(Clone, Copy, Debug, PartialEq, Eq, Structural)]
pub struct SelectivityBits(pub u64);

/// Factors of a join's selectivity: one for every condition that is
/// independent of the others, and the strongest for every pair of relations
/// that equalities connect, in pair order.
#[derive(Debug)]
pub struct CorrelatedSelectivities {
    pub independent: Vec<SelectivityBits>,
    pub strongest: Vec<((usize, usize), SelectivityBits)>,
}

/// Whether pair `a` comes before pair `b`.
pub open spec fn pair_before(a: (usize, usize), b: (usize, usize)) -> bool {
    a.0 < b.0 || (a.0 == b.0 && a.1 < b.1)
}

/// The selectivities of the first `n` conditions that connect no two
/// relations by equality, in order.
pub open spec fn independent_factors(
    conditions: Seq<(Option<(usize, usize)>, SelectivityBits)>,
    n: nat,
) -> Seq<SelectivityBits>
    decreases n,
{
    if n == 0 || n > conditions.len() {
        Seq::empty()
    } else {
        let prefix = independent_factors(conditions, (n - 1) as nat);
        if conditions[n - 1].0 is None {
            prefix.push(conditions[n - 1].1)
        } else {
            prefix
        }
    }
}

/// Whether `least` is the smallest selectivity that the first `n` conditions
/// give `pair`.
pub open spec fn is_strongest(
    conditions: Seq<(Option<(usize, usize)>, SelectivityBits)>,
    n: nat,
    pair: (usize, usize),
    least: SelectivityBits,
) -> bool {
    &&& exists|i: int| 0 <= i < n && #[trigger] conditions[i] == (Some(pair), least)
    &&& forall|i: int|
        0 <= i < n && (#[trigger] conditions[i]).0 == Some(pair) ==> least.0 <= conditions[i].1.0
}

pub open spec fn pairs_ordered(strongest: Seq<((usize, usize), SelectivityBits)>) -> bool {
    forall|i: int, j: int|
        #![trigger strongest[i], strongest[j]]
        0 <= i < j < strongest.len() ==> pair_before(strongest[i].0, strongest[j].0)
}

pub open spec fn lists_pair(
    strongest: Seq<((usize, usize), SelectivityBits)>,
    pair: (usize, usize),
) -> bool {
    exists|k: int| 0 <= k < strongest.len() && (#[trigger] strongest[k]).0 == pair
}

/// Whether `strongest` lists, in pair order, every pair that the first `n`
/// conditions connect with its smallest selectivity, and no other pair.
pub open spec fn strongest_per_pair(
    conditions: Seq<(Option<(usize, usize)>, SelectivityBits)>,
    n: nat,
    strongest: Seq<((usize, usize), SelectivityBits)>,
) -> bool {
    &&& pairs_ordered(strongest)
    &&& forall|k: int|
        0 <= k < strongest.len() ==> is_strongest(
            conditions,
            n,
            (#[trigger] strongest[k]).0,
            strongest[k].1,
        )
    &&& forall|i: int|
        0 <= i < n && (#[trigger] conditions[i]).0 is Some ==> lists_pair(
            strongest,
            conditions[i].0->0,
        )
}

fn precedes(a: (usize, usize), b: (usize, usize)) -> (r: bool)
    ensures
        r == pair_before(a, b),
{
    a.0 < b.0 || (a.0 == b.0 && a.1 < b.1)
}

/// Splits join conditions into independent factors and, per pair of
/// relations, the strongest equality. Two equalities between the same
/// relations are commonly one composite key, so multiplying them would
/// underestimate the join.
pub fn correlate_join_condition_selectivities(
    conditions: &Vec<(Option<(usize, usize)>, SelectivityBits)>,
) -> (r: CorrelatedSelectivities)
    ensures
        r.independent@ == independent_factors(conditions@, conditions@.len()),
        strongest_per_pair(conditions@, conditions@.len(), r.strongest@),
{
    let mut independent: Vec<SelectivityBits> = Vec::new();
    let mut strongest: Vec<((usize, usize), SelectivityBits)> = Vec::new();
    let mut i: usize = 0;
    while i < conditions.len()
        invariant
            i <= conditions@.len(),
            independent@ == independent_factors(conditions@, i as nat),
            strongest_per_pair(conditions@, i as nat, strongest@),
        decreases conditions@.len() - i,
    {
        let (pair, selectivity) = conditions[i];
        let ghost before = strongest@;
        match pair {
            None => {
                independent.push(selectivity);
                proof {
                    lemma_unrelated(conditions@, i as nat, before);
                }
            },
            Some(pair) => {
                let mut at: usize = 0;
                while at < strongest.len() && precedes(strongest[at].0, pair)
                    invariant
                        at <= strongest@.len(),
                        strongest@ == before,
                        forall|k: int|
                            0 <= k < at ==> pair_before((#[trigger] strongest@[k]).0, pair),
                    decreases strongest@.len() - at,
                {
                    at = at + 1;
                }
                if at < strongest.len() && !precedes(pair, strongest[at].0) {
                    if selectivity.0 < strongest[at].1.0 {
                        strongest.set(at, (pair, selectivity));
                    } else {
                        assert(strongest@ =~= before.update(at as int, before[at as int]));
                    }
                } else {
                    strongest.insert(at, (pair, selectivity));
                }
                proof {
                    lemma_related(
                        conditions@,
                        i as nat,
                        before,
                        strongest@,
                        at as int,
                        pair,
                        selectivity,
                    );
                }
            },
        }
        i = i + 1;
    }
    CorrelatedSelectivities { independent, strongest }
}

proof fn lemma_unrelated(
    conditions: Seq<(Option<(usize, usize)>, SelectivityBits)>,
    n: nat,
    strongest: Seq<((usize, usize), SelectivityBits)>,
)
    requires
        n < conditions.len(),
        conditions[n as int].0 is None,
        strongest_per_pair(conditions, n, strongest),
    ensures
        strongest_per_pair(conditions, n + 1, strongest),
{
    assert forall|k: int| 0 <= k < strongest.len() implies is_strongest(
        conditions,
        n + 1,
        (#[trigger] strongest[k]).0,
        strongest[k].1,
    ) by {
        let i = choose|i: int|
            0 <= i < n && #[trigger] conditions[i] == (Some(strongest[k].0), strongest[k].1);
        assert(conditions[i] == (Some(strongest[k].0), strongest[k].1));
    }
}

proof fn lemma_related(
    conditions: Seq<(Option<(usize, usize)>, SelectivityBits)>,
    n: nat,
    before: Seq<((usize, usize), SelectivityBits)>,
    after: Seq<((usize, usize), SelectivityBits)>,
    at: int,
    pair: (usize, usize),
    selectivity: SelectivityBits,
)
    requires
        n < conditions.len(),
        conditions[n as int] == (Some(pair), selectivity),
        strongest_per_pair(conditions, n, before),
        0 <= at <= before.len(),
        forall|k: int| 0 <= k < at ==> pair_before((#[trigger] before[k]).0, pair),
        at < before.len() ==> !pair_before(before[at].0, pair),
        (at < before.len() && before[at].0 == pair) ==> after == before.update(
            at,
            (
                pair,
                if selectivity.0 < before[at].1.0 {
                    selectivity
                } else {
                    before[at].1
                },
            ),
        ),
        !(at < before.len() && before[at].0 == pair) ==> after == before.insert(
            at,
            (pair, selectivity),
        ),
    ensures
        strongest_per_pair(conditions, n + 1, after),
{
    let replaced = at < before.len() && before[at].0 == pair;
    assert(after[at].0 == pair);
    assert forall|k: int| at <= k < before.len() && !(replaced && k == at) implies pair_before(
        pair,
        (#[trigger] before[k]).0,
    ) by {
        if k > at {
            assert(pair_before(before[at].0, before[k].0));
        }
    }
    assert(pairs_ordered(after));
    assert forall|k: int| 0 <= k < after.len() implies is_strongest(
        conditions,
        n + 1,
        (#[trigger] after[k]).0,
        after[k].1,
    ) by {
        if k == at {
            if replaced {
                let i = choose|i: int|
                    0 <= i < n && #[trigger] conditions[i] == (Some(pair), before[at].1);
                assert(is_strongest(conditions, n, before[at].0, before[at].1));
                assert(conditions[i] == (Some(pair), before[at].1));
                assert(conditions[n as int] == (Some(pair), selectivity));
                assert forall|i: int|
                    0 <= i < n + 1 && (#[trigger] conditions[i]).0 == Some(pair) implies after[at].1.0
                    <= conditions[i].1.0 by {
                    if i < n {
                        assert(before[at].1.0 <= conditions[i].1.0);
                    }
                }
            } else {
                assert(conditions[n as int] == (Some(pair), selectivity));
                assert forall|i: int|
                    0 <= i < n + 1 && (#[trigger] conditions[i]).0 == Some(pair) implies after[at].1.0
                    <= conditions[i].1.0 by {
                    if i < n {
                        assert(lists_pair(before, pair));
                        let j = choose|j: int|
                            0 <= j < before.len() && (#[trigger] before[j]).0 == pair;
                        assert(before[j].0 == pair);
                        assert(false);
                    }
                }
            }
        } else {
            let j = if k < at || replaced {
                k
            } else {
                k - 1
            };
            assert(after[k] == before[j]);
            assert(is_strongest(conditions, n, before[j].0, before[j].1));
            let i = choose|i: int|
                0 <= i < n && #[trigger] conditions[i] == (Some(before[j].0), before[j].1);
            assert(conditions[i] == (Some(before[j].0), before[j].1));
            assert(before[j].0 != pair);
        }
    }
    assert forall|i: int| 0 <= i < n + 1 && (#[trigger] conditions[i]).0 is Some implies lists_pair(
        after,
        conditions[i].0->0,
    ) by {
        if i < n {
            let p = conditions[i].0->0;
            assert(lists_pair(before, p));
            let j = choose|j: int| 0 <= j < before.len() && (#[trigger] before[j]).0 == p;
            let k = if j < at || replaced {
                j
            } else {
                j + 1
            };
            assert(after[k].0 == p);
        } else {
            assert(after[at].0 == pair);
        }
    }
}

/// A condition that is no stronger than one that connects the same relations
/// changes nothing: only the strongest condition of a pair counts.
pub proof fn weaker_condition_changes_nothing(
    conditions: Seq<(Option<(usize, usize)>, SelectivityBits)>,
    strongest: Seq<((usize, usize), SelectivityBits)>,
    i: int,
    weaker: SelectivityBits,
)
    requires
        0 <= i < conditions.len(),
        conditions[i].0 is Some,
        conditions[i].1.0 <= weaker.0,
        strongest_per_pair(conditions, conditions.len(), strongest),
    ensures
        strongest_per_pair(
            conditions.push((conditions[i].0, weaker)),
            conditions.len() + 1,
            strongest,
        ),
        independent_factors(conditions.push((conditions[i].0, weaker)), conditions.len() + 1)
            == independent_factors(conditions, conditions.len()),
{
    let more = conditions.push((conditions[i].0, weaker));
    lemma_factors_before(conditions, more, conditions.len());
    assert forall|k: int| 0 <= k < strongest.len() implies is_strongest(
        more,
        more.len(),
        (#[trigger] strongest[k]).0,
        strongest[k].1,
    ) by {
        let at = choose|at: int|
            0 <= at < conditions.len() && #[trigger] conditions[at] == (
                Some(strongest[k].0),
                strongest[k].1,
            );
        assert(more[at] == (Some(strongest[k].0), strongest[k].1));
        assert forall|m: int|
            0 <= m < more.len() && (#[trigger] more[m]).0 == Some(
                strongest[k].0,
            ) implies strongest[k].1.0 <= more[m].1.0 by {
            if m < conditions.len() {
                assert(more[m] == conditions[m]);
            } else {
                assert(conditions[i].0 == Some(strongest[k].0));
            }
        }
    }
    assert forall|m: int| 0 <= m < more.len() && (#[trigger] more[m]).0 is Some implies lists_pair(
        strongest,
        more[m].0->0,
    ) by {
        if m < conditions.len() {
            assert(more[m] == conditions[m]);
        } else {
            assert(lists_pair(strongest, conditions[i].0->0));
        }
    }
}

/// A condition that connects no two relations always counts.
pub proof fn independent_condition_counts(
    conditions: Seq<(Option<(usize, usize)>, SelectivityBits)>,
    strongest: Seq<((usize, usize), SelectivityBits)>,
    selectivity: SelectivityBits,
)
    requires
        strongest_per_pair(conditions, conditions.len(), strongest),
    ensures
        strongest_per_pair(
            conditions.push((None, selectivity)),
            conditions.len() + 1,
            strongest,
        ),
        independent_factors(conditions.push((None, selectivity)), conditions.len() + 1)
            == independent_factors(conditions, conditions.len()).push(selectivity),
{
    let more = conditions.push((None, selectivity));
    lemma_factors_before(conditions, more, conditions.len());
    assert(strongest_per_pair(more, conditions.len(), strongest)) by {
        assert forall|k: int| 0 <= k < strongest.len() implies is_strongest(
            more,
            conditions.len(),
            (#[trigger] strongest[k]).0,
            strongest[k].1,
        ) by {
            let at = choose|at: int|
                0 <= at < conditions.len() && #[trigger] conditions[at] == (
                    Some(strongest[k].0),
                    strongest[k].1,
                );
            assert(more[at] == conditions[at]);
            assert forall|m: int|
                0 <= m < conditions.len() && (#[trigger] more[m]).0 == Some(
                    strongest[k].0,
                ) implies strongest[k].1.0 <= more[m].1.0 by {
                assert(more[m] == conditions[m]);
            }
        }
        assert forall|m: int|
            0 <= m < conditions.len() && (#[trigger] more[m]).0 is Some implies lists_pair(
            strongest,
            more[m].0->0,
        ) by {
            assert(more[m] == conditions[m]);
        }
    }
    lemma_unrelated(more, conditions.len(), strongest);
}

proof fn lemma_factors_before(
    conditions: Seq<(Option<(usize, usize)>, SelectivityBits)>,
    more: Seq<(Option<(usize, usize)>, SelectivityBits)>,
    n: nat,
)
    requires
        n <= conditions.len() <= more.len(),
        forall|i: int| 0 <= i < conditions.len() ==> #[trigger] more[i] == conditions[i],
    ensures
        independent_factors(more, n) == independent_factors(conditions, n),
    decreases n,
{
    if n > 0 {
        lemma_factors_before(conditions, more, (n - 1) as nat);
        assert(more[n - 1] == conditions[n - 1]);
    }
}

} // verus!
