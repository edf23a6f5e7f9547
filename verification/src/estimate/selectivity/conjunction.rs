//! Terms of a conjunction, with the conditions on one column coalesced.

use vstd::prelude::*;
use vstd::set_lib::{lemma_int_range, set_int_range};

use crate::estimate::selectivity::coordinates::CoordinateSet;
use crate::estimate::selectivity::finite::{
    filter_work, finite_filter, finite_filter_estimate, FiniteFilter, FiniteFilterEstimate,
};
use crate::estimate::selectivity::flatten::{
    are_nodes, associative_terms, flatten_associative, flatten_work,
};
use crate::estimate::selectivity::integral::{
    count_between, satisfies, IntegralDomain, IntegralInterval,
};
use crate::estimate::selectivity::predicate::{
    scope, single_binding, single_column, ColumnScope, PredicateGraph, PredicateNode,
};
use crate::estimate::selectivity::range::{
    integral_range_constraint, range_constraint, IntegralRangeConstraint,
};
use crate::estimate::selectivity::work::{
    group_runs, is_run, stopped, takes, SelectivityStop, SelectivityWork, WorkAdmission,
};
use crate::types::{ColumnBinding, ConjunctionType};

verus! {

broadcast use group_runs;

/// A part of a conjunction with a selectivity of its own.
#[derive(Clone, Copy, Debug, PartialEq, Eq, Structural)]
pub enum ConjunctionTerm {
    /// A predicate, the only column that it depends on, and how often it
    /// counts.
    Input { node: usize, binding: Option<ColumnBinding>, occurrences: u64 },
    /// Conditions on one column: how many of its values pass all of them.
    Share { matching: u128, domain: u128, column: ColumnBinding },
}

/// What is known of one term.
#[derive(Debug)]
pub enum TermEvidence {
    Finite(FiniteFilterEstimate),
    Range(IntegralRangeConstraint),
    Neither,
}

pub enum TermFact {
    Finite(FiniteFilter),
    Range(IntegralRangeConstraint),
    Neither,
}

impl View for TermEvidence {
    type V = TermFact;

    open spec fn view(&self) -> TermFact {
        match *self {
            TermEvidence::Finite(filter) => TermFact::Finite(filter@),
            TermEvidence::Range(constraint) => TermFact::Range(constraint),
            TermEvidence::Neither => TermFact::Neither,
        }
    }
}

/// What node `n` says of a column: a finite filter before a range condition.
pub open spec fn term_fact(nodes: Seq<PredicateNode>, n: int) -> TermFact {
    match finite_filter(nodes, n) {
        Some(filter) => TermFact::Finite(filter),
        None => match range_constraint(nodes, n) {
            Some(constraint) => TermFact::Range(constraint),
            None => TermFact::Neither,
        },
    }
}

/// Whether both are finite filters of one column, with the same domain and
/// distinct count.
pub open spec fn same_filter(a: TermFact, b: TermFact) -> bool {
    match (a, b) {
        (TermFact::Finite(x), TermFact::Finite(y)) => x.binding == y.binding && x.domain
            == y.domain && x.point == y.point,
        _ => false,
    }
}

/// Whether both are range conditions on one column.
pub open spec fn same_range_column(a: TermFact, b: TermFact) -> bool {
    match (a, b) {
        (TermFact::Range(x), TermFact::Range(y)) => x.binding == y.binding,
        _ => false,
    }
}

/// Whether both are range conditions on one column, with the same bounds.
pub open spec fn same_range(a: TermFact, b: TermFact) -> bool {
    match (a, b) {
        (TermFact::Range(x), TermFact::Range(y)) => x.binding == y.binding && x.domain
            == y.domain && x.minimum == y.minimum && x.maximum == y.maximum,
        _ => false,
    }
}

/// Whether no earlier term filters the same values.
pub open spec fn filter_leads(facts: Seq<TermFact>, i: int) -> bool {
    forall|j: int| 0 <= j < i ==> !same_filter(#[trigger] facts[j], facts[i])
}

/// Whether no earlier term bounds the same column.
pub open spec fn range_leads(facts: Seq<TermFact>, i: int) -> bool {
    &&& facts[i] is Range
    &&& forall|j: int| 0 <= j < i ==> !same_range_column(#[trigger] facts[j], facts[i])
}

/// Whether a range condition agrees on the column's bounds with the first one
/// on that column.
pub open spec fn range_fits(facts: Seq<TermFact>, i: int) -> bool {
    exists|l: int|
        0 <= l <= i && #[trigger] range_leads(facts, l) && same_range(facts[l], facts[i])
}

/// The values that all of the first `k` filters like term `i` admit.
pub open spec fn filtered_values(facts: Seq<TermFact>, i: int, k: int) -> Set<u128> {
    Set::new(
        |x: u128|
            (facts[i]->Finite_0).values.contains(x) && forall|j: int|
                0 <= j < k && same_filter(#[trigger] facts[j], facts[i])
                    ==> (facts[j]->Finite_0).values.contains(x),
    )
}

/// Whether coordinate `x` passes a range condition.
pub open spec fn passes(fact: TermFact, x: int) -> bool {
    match fact {
        TermFact::Range(constraint) => satisfies(
            x,
            constraint.bound,
            constraint.constant as int,
        ),
        _ => true,
    }
}

/// The coordinates of a column that pass all of the first `k` range conditions
/// like term `i`.
pub open spec fn ranged_values(facts: Seq<TermFact>, i: int, k: int) -> Set<int> {
    Set::new(
        |x: int|
            (facts[i]->Range_0).minimum <= x <= (facts[i]->Range_0).maximum && forall|j: int|
                0 <= j < k && same_range(facts[i], #[trigger] facts[j]) ==> passes(facts[j], x),
    )
}

pub open spec fn capped_128(x: nat) -> u128 {
    if x <= u128::MAX {
        x as u128
    } else {
        u128::MAX
    }
}

/// What term `i` contributes: the first condition on a column stands for all
/// of them.
pub open spec fn term_slot(facts: Seq<TermFact>, i: int, input: ConjunctionTerm) -> Option<
    ConjunctionTerm,
> {
    match facts[i] {
        TermFact::Finite(filter) => if filter_leads(facts, i) {
            Some(
                ConjunctionTerm::Share {
                    matching: capped_128(filtered_values(facts, i, facts.len() as int).len()),
                    domain: filter.point as u128,
                    column: filter.binding,
                },
            )
        } else {
            None
        },
        TermFact::Range(constraint) => if !range_fits(facts, i) {
            Some(input)
        } else if range_leads(facts, i) {
            Some(
                ConjunctionTerm::Share {
                    matching: capped_128(ranged_values(facts, i, facts.len() as int).len()),
                    domain: count_between(constraint.minimum, constraint.maximum),
                    column: constraint.binding,
                },
            )
        } else {
            None
        },
        TermFact::Neither => Some(input),
    }
}

/// What the first `k` terms contribute.
pub open spec fn coalesced(
    facts: Seq<TermFact>,
    inputs: Seq<ConjunctionTerm>,
    k: nat,
) -> Seq<ConjunctionTerm>
    decreases k,
{
    if k == 0 {
        Seq::empty()
    } else {
        let before = coalesced(facts, inputs, (k - 1) as nat);
        match term_slot(facts, k - 1, inputs[k - 1]) {
            Some(term) => before.push(term),
            None => before,
        }
    }
}

proof fn lemma_slot_repeated(facts: Seq<TermFact>, i: int, j: int, input: ConjunctionTerm)
    requires
        0 <= i < facts.len(),
        0 <= j < facts.len(),
    ensures
        term_slot(facts.push(facts[i]), j, input) == term_slot(facts, j, input),
{
    let longer = facts.push(facts[i]);
    let n = facts.len() as int;
    assert(longer[j] == facts[j]);
    assert(filter_leads(longer, j) <==> filter_leads(facts, j)) by {
        assert forall|k: int| 0 <= k < j implies longer[k] == #[trigger] facts[k] by {}
        if filter_leads(longer, j) {
            assert forall|k: int| 0 <= k < j implies !same_filter(
                #[trigger] facts[k],
                facts[j],
            ) by {
                assert(!same_filter(longer[k], longer[j]));
            }
        }
    }
    assert forall|l: int| 0 <= l <= j implies #[trigger] range_leads(longer, l) == range_leads(
        facts,
        l,
    ) by {
        if range_leads(longer, l) {
            assert forall|k: int| 0 <= k < l implies !same_range_column(
                #[trigger] facts[k],
                facts[l],
            ) by {
                assert(!same_range_column(longer[k], longer[l]));
            }
        }
    }
    assert(range_fits(longer, j) <==> range_fits(facts, j)) by {
        if range_fits(longer, j) {
            let l = choose|l: int|
                0 <= l <= j && #[trigger] range_leads(longer, l) && same_range(
                    longer[l],
                    longer[j],
                );
            assert(range_leads(facts, l));
        }
        if range_fits(facts, j) {
            let l = choose|l: int|
                0 <= l <= j && #[trigger] range_leads(facts, l) && same_range(facts[l], facts[j]);
            assert(range_leads(longer, l));
        }
    }
    assert(filtered_values(longer, j, n + 1) =~= filtered_values(facts, j, n)) by {
        assert forall|x: u128| #[trigger]
            filtered_values(longer, j, n + 1).contains(x) <==> filtered_values(
                facts,
                j,
                n,
            ).contains(x) by {
            if filtered_values(longer, j, n + 1).contains(x) {
                assert forall|k: int|
                    0 <= k < n && same_filter(#[trigger] facts[k], facts[j]) implies (
                facts[k]->Finite_0).values.contains(x) by {
                    assert(longer[k] == facts[k]);
                }
            }
            if filtered_values(facts, j, n).contains(x) {
                assert forall|k: int|
                    0 <= k < n + 1 && same_filter(#[trigger] longer[k], longer[j]) implies (
                longer[k]->Finite_0).values.contains(x) by {
                    if k < n {
                        assert(longer[k] == facts[k]);
                    } else {
                        assert(longer[k] == facts[i]);
                    }
                }
            }
        }
    }
    assert(ranged_values(longer, j, n + 1) =~= ranged_values(facts, j, n)) by {
        assert forall|x: int| #[trigger]
            ranged_values(longer, j, n + 1).contains(x) <==> ranged_values(facts, j, n).contains(
                x,
            ) by {
            if ranged_values(longer, j, n + 1).contains(x) {
                assert forall|k: int|
                    0 <= k < n && same_range(facts[j], #[trigger] facts[k]) implies passes(
                    facts[k],
                    x,
                ) by {
                    assert(longer[k] == facts[k]);
                }
            }
            if ranged_values(facts, j, n).contains(x) {
                assert forall|k: int|
                    0 <= k < n + 1 && same_range(longer[j], #[trigger] longer[k]) implies passes(
                    longer[k],
                    x,
                ) by {
                    if k < n {
                        assert(longer[k] == facts[k]);
                    } else {
                        assert(longer[k] == facts[i]);
                    }
                }
            }
        }
    }
}

proof fn lemma_coalesced_repeated(
    facts: Seq<TermFact>,
    inputs: Seq<ConjunctionTerm>,
    i: int,
    input: ConjunctionTerm,
    k: nat,
)
    requires
        inputs.len() == facts.len(),
        0 <= i < facts.len(),
        k <= facts.len(),
    ensures
        coalesced(facts.push(facts[i]), inputs.push(input), k) == coalesced(facts, inputs, k),
    decreases k,
{
    if k > 0 {
        lemma_coalesced_repeated(facts, inputs, i, input, (k - 1) as nat);
        lemma_slot_repeated(facts, i, k - 1, inputs[k - 1]);
    }
}

/// Applying a coalesced condition once more changes nothing: neither a finite
/// filter nor a measured range is discounted repeatedly.
pub proof fn repeated_condition_changes_nothing(
    facts: Seq<TermFact>,
    inputs: Seq<ConjunctionTerm>,
    i: int,
    input: ConjunctionTerm,
)
    requires
        inputs.len() == facts.len(),
        0 <= i < facts.len(),
        facts[i] is Finite || range_fits(facts, i),
    ensures
        coalesced(facts.push(facts[i]), inputs.push(input), facts.len() + 1) == coalesced(
            facts,
            inputs,
            facts.len(),
        ),
{
    let longer = facts.push(facts[i]);
    let n = facts.len() as int;
    lemma_coalesced_repeated(facts, inputs, i, input, facts.len());
    assert(longer[n] == facts[i] && longer[i] == facts[i]);
    if facts[i] is Finite {
        assert(same_filter(longer[i], longer[n]));
    } else {
        let l = choose|l: int|
            0 <= l <= i && #[trigger] range_leads(facts, l) && same_range(facts[l], facts[i]);
        assert(range_leads(longer, l)) by {
            assert forall|k: int| 0 <= k < l implies !same_range_column(
                #[trigger] longer[k],
                longer[l],
            ) by {
                assert(longer[k] == facts[k]);
            }
        }
        assert(range_fits(longer, n));
        assert(same_range_column(longer[i], longer[n]));
    }
}

/// Finite filters of one column.
struct FilterGroup {
    first: usize,
    binding: ColumnBinding,
    domain: IntegralDomain,
    point: u64,
    values: CoordinateSet,
}

/// Range conditions of one column.
struct RangeGroup {
    first: usize,
    binding: ColumnBinding,
    domain: IntegralDomain,
    interval: IntegralInterval,
}

pub open spec fn evidence_facts(evidence: Seq<TermEvidence>) -> Seq<TermFact> {
    evidence.map_values(|item: TermEvidence| item@)
}

pub open spec fn ranges_wf(facts: Seq<TermFact>) -> bool {
    forall|i: int|
        0 <= i < facts.len() ==> ((#[trigger] facts[i]) matches TermFact::Range(constraint)
            ==> constraint.minimum <= constraint.maximum)
}

spec fn filter_groups_hold(
    facts: Seq<TermFact>,
    k: int,
    groups: Seq<FilterGroup>,
    member: Seq<Option<usize>>,
) -> bool {
    &&& member.len() == k
    &&& forall|g: int, h: int|
        #![trigger groups[g], groups[h]]
        0 <= g < h < groups.len() ==> groups[g].first < groups[h].first
    &&& forall|g: int|
        0 <= g < groups.len() ==> {
            let group = #[trigger] groups[g];
            &&& group.first < k
            &&& facts[group.first as int] matches TermFact::Finite(filter)
            &&& filter.binding == group.binding
            &&& filter.domain == group.domain
            &&& filter.point == group.point
            &&& filter_leads(facts, group.first as int)
            &&& group.values@ == filtered_values(facts, group.first as int, k)
        }
    &&& forall|j: int|
        0 <= j < k ==> match #[trigger] member[j] {
            Some(g) => g < groups.len() && same_filter(
                facts[groups[g as int].first as int],
                facts[j],
            ),
            None => !(facts[j] is Finite),
        }
}

/// Whether the interval holds what the first `k` range conditions like term
/// `first` leave.
#[verifier::opaque]
spec fn leaves(interval: IntegralInterval, facts: Seq<TermFact>, first: int, k: int) -> bool {
    forall|x: int| #[trigger]
        interval.contains(x) <==> ranged_values(facts, first, k).contains(x)
}

proof fn lemma_leaves_same(interval: IntegralInterval, facts: Seq<TermFact>, first: int, k: int)
    requires
        leaves(interval, facts, first, k),
        0 <= k,
        !same_range(facts[first], facts[k]),
    ensures
        leaves(interval, facts, first, k + 1),
{
    reveal(leaves);
    assert(ranged_values(facts, first, k + 1) =~= ranged_values(facts, first, k));
}

proof fn lemma_leaves_less(
    before: IntegralInterval,
    after: IntegralInterval,
    facts: Seq<TermFact>,
    first: int,
    k: int,
)
    requires
        leaves(before, facts, first, k),
        0 <= k,
        same_range(facts[first], facts[k]),
        forall|x: int| #[trigger]
            after.contains(x) <==> (before.contains(x) && passes(facts[k], x)),
    ensures
        leaves(after, facts, first, k + 1),
{
    reveal(leaves);
    assert forall|x: int| #[trigger] after.contains(x) <==> ranged_values(
        facts,
        first,
        k + 1,
    ).contains(x) by {
        assert(before.contains(x) <==> ranged_values(facts, first, k).contains(x));
        if ranged_values(facts, first, k + 1).contains(x) {
            assert(passes(facts[k], x));
        }
    }
}

proof fn lemma_leaves_first(
    fresh: IntegralInterval,
    facts: Seq<TermFact>,
    first: int,
)
    requires
        0 <= first,
        range_leads(facts, first),
        forall|x: int| #[trigger]
            fresh.contains(x) <==> (facts[first]->Range_0).minimum <= x <= (
            facts[first]->Range_0).maximum,
    ensures
        leaves(fresh, facts, first, first),
{
    reveal(leaves);
    assert forall|x: int| #[trigger] fresh.contains(x) <==> ranged_values(
        facts,
        first,
        first,
    ).contains(x) by {
        assert forall|j: int| 0 <= j < first && same_range(
            facts[first],
            #[trigger] facts[j],
        ) implies passes(facts[j], x) by {
            assert(!same_range_column(facts[j], facts[first]));
        }
    }
}

spec fn range_groups_hold(
    facts: Seq<TermFact>,
    k: int,
    groups: Seq<RangeGroup>,
    member: Seq<Option<usize>>,
) -> bool {
    &&& member.len() == k
    &&& forall|g: int, h: int|
        #![trigger groups[g], groups[h]]
        0 <= g < h < groups.len() ==> groups[g].first < groups[h].first
    &&& forall|g: int|
        0 <= g < groups.len() ==> {
            let group = #[trigger] groups[g];
            &&& group.first < k
            &&& facts[group.first as int] matches TermFact::Range(constraint)
            &&& constraint.binding == group.binding
            &&& constraint.domain == group.domain
            &&& range_leads(facts, group.first as int)
            &&& group.interval.wf()
            &&& group.interval.minimum == constraint.minimum
            &&& group.interval.maximum == constraint.maximum
            &&& leaves(group.interval, facts, group.first as int, k)
        }
    &&& forall|j: int|
        0 <= j < k ==> match #[trigger] member[j] {
            Some(g) => g < groups.len() && same_range(
                facts[groups[g as int].first as int],
                facts[j],
            ),
            None => !(facts[j] is Range) || !range_fits(facts, j),
        }
    &&& forall|j: int|
        0 <= j < k && (#[trigger] facts[j]) is Range ==> exists|g: int|
            0 <= g < groups.len() && same_range_column(
                facts[(#[trigger] groups[g]).first as int],
                facts[j],
            )
}

proof fn lemma_first_filter(facts: Seq<TermFact>, first: int, i: int)
    requires
        0 <= first,
        0 <= i,
        filter_leads(facts, first),
        same_filter(facts[first], facts[i]),
    ensures
        first <= i,
        filter_leads(facts, i) <==> first == i,
{
    if i < first {
        assert(!same_filter(facts[i], facts[first]));
    }
}

proof fn lemma_first_range(facts: Seq<TermFact>, first: int, i: int)
    requires
        0 <= first,
        0 <= i,
        range_leads(facts, first),
        same_range_column(facts[first], facts[i]),
    ensures
        first <= i,
        range_leads(facts, i) <==> first == i,
        range_fits(facts, i) <==> same_range(facts[first], facts[i]),
{
    if i < first {
        assert(!same_range_column(facts[i], facts[first]));
    }
    if range_fits(facts, i) {
        let l = choose|l: int|
            0 <= l <= i && #[trigger] range_leads(facts, l) && same_range(facts[l], facts[i]);
        if l < first {
            assert(!same_range_column(facts[l], facts[first]));
        } else if first < l {
            assert(!same_range_column(facts[first], facts[l]));
        }
    }
}

proof fn lemma_range_count(facts: Seq<TermFact>, first: int, k: int, interval: IntegralInterval)
    requires
        interval.wf(),
        facts[first] is Range,
        interval.minimum == (facts[first]->Range_0).minimum,
        interval.maximum == (facts[first]->Range_0).maximum,
        leaves(interval, facts, first, k),
    ensures
        interval.share() == (
            capped_128(ranged_values(facts, first, k).len()),
            count_between(interval.minimum, interval.maximum),
        ),
{
    reveal(leaves);
    let passing = ranged_values(facts, first, k);
    if interval.empty {
        assert forall|x: int| !passing.contains(x) by {
            assert(!interval.contains(x));
        }
        assert(passing =~= Set::<int>::empty());
    } else {
        let all = set_int_range(interval.lower as int, interval.upper + 1);
        lemma_int_range(interval.lower as int, interval.upper + 1);
        assert forall|x: int| passing.contains(x) <==> all.contains(x) by {
            assert(interval.contains(x) <==> passing.contains(x));
        }
        assert(passing =~= all);
    }
}


fn find_filter_group(groups: &Vec<FilterGroup>, filter: &FiniteFilterEstimate) -> (r: Option<usize>)
    ensures
        match r {
            Some(g) => g < groups@.len() && groups@[g as int].binding == filter.binding
                && groups@[g as int].domain == filter.domain && groups@[g as int].point
                == filter.point,
            None => forall|g: int|
                0 <= g < groups@.len() ==> !((#[trigger] groups@[g]).binding == filter.binding
                    && groups@[g].domain == filter.domain && groups@[g].point == filter.point),
        },
{
    let mut g: usize = 0;
    while g < groups.len()
        invariant
            g <= groups@.len(),
            forall|h: int|
                0 <= h < g ==> !((#[trigger] groups@[h]).binding == filter.binding
                    && groups@[h].domain == filter.domain && groups@[h].point == filter.point),
        decreases groups@.len() - g,
    {
        if groups[g].binding == filter.binding && groups[g].domain == filter.domain
            && groups[g].point == filter.point {
            return Some(g);
        }
        g = g + 1;
    }
    None
}

/// The finite filters of each column, and the group of each term.
#[verifier::spinoff_prover]
#[verifier::rlimit(40)]
fn group_filters(evidence: &Vec<TermEvidence>) -> (r: (Vec<FilterGroup>, Vec<Option<usize>>))
    ensures
        filter_groups_hold(evidence_facts(evidence@), evidence@.len() as int, r.0@, r.1@),
{
    let ghost facts = evidence_facts(evidence@);
    let mut groups: Vec<FilterGroup> = Vec::new();
    let mut member: Vec<Option<usize>> = Vec::new();
    let mut i: usize = 0;
    while i < evidence.len()
        invariant
            i <= evidence@.len(),
            facts == evidence_facts(evidence@),
            filter_groups_hold(facts, i as int, groups@, member@),
        decreases evidence@.len() - i,
    {
        let ghost before = groups@;
        let ghost members = member@;
        match &evidence[i] {
            TermEvidence::Finite(filter) => {
                assert(facts[i as int] == TermFact::Finite(filter@));
                match find_filter_group(&groups, filter) {
                    Some(g) => {
                        let first: usize = groups[g].first;
                        let binding = groups[g].binding;
                        let domain = groups[g].domain;
                        let point: u64 = groups[g].point;
                        let values = groups[g].values.intersection(&filter.values);
                        groups.set(g, FilterGroup { first, binding, domain, point, values });
                        member.push(Some(g));
                        proof {
                            assert(same_filter(facts[first as int], facts[i as int]));
                            assert(values@ =~= filtered_values(facts, first as int, i + 1));
                            assert forall|h: int| 0 <= h < groups@.len() && h != g implies (
                            #[trigger] groups@[h]).values@ == filtered_values(
                                facts,
                                groups@[h].first as int,
                                i + 1,
                            ) by {
                                let other = before[h];
                                assert(before[g as int].first == first);
                                if same_filter(facts[i as int], facts[other.first as int]) {
                                    if other.first < first {
                                        assert(!same_filter(
                                            facts[other.first as int],
                                            facts[first as int],
                                        ));
                                    } else {
                                        assert(h < g ==> before[h].first < before[g as int].first);
                                        assert(g < h ==> before[g as int].first < before[h].first);
                                        assert(!same_filter(
                                            facts[first as int],
                                            facts[other.first as int],
                                        ));
                                    }
                                }
                                assert(filtered_values(facts, other.first as int, i + 1)
                                    =~= filtered_values(facts, other.first as int, i as int));
                            }
                            assert forall|j: int| 0 <= j < i + 1 implies match #[trigger] member@[j] {
                                Some(g) => g < groups@.len() && same_filter(
                                    facts[groups@[g as int].first as int],
                                    facts[j],
                                ),
                                None => !(facts[j] is Finite),
                            } by {
                                if j < i {
                                    assert(member@[j] == members[j]);
                                    if let Some(h) = members[j] {
                                        assert(groups@[h as int].first == before[h as int].first);
                                    }
                                }
                            }
                        }
                    },
                    None => {
                        let values = filter.values.intersection(&filter.values);
                        let g: usize = groups.len();
                        groups.push(
                            FilterGroup {
                                first: i,
                                binding: filter.binding,
                                domain: filter.domain,
                                point: filter.point,
                                values,
                            },
                        );
                        member.push(Some(g));
                        proof {
                            assert(filter_leads(facts, i as int)) by {
                                assert forall|j: int| 0 <= j < i implies !same_filter(
                                    #[trigger] facts[j],
                                    facts[i as int],
                                ) by {
                                    if same_filter(facts[j], facts[i as int]) {
                                        assert(members[j] is Some);
                                        let h = members[j]->0 as int;
                                        assert(before[h].binding == filter.binding);
                                    }
                                }
                            }
                            assert(values@ =~= filtered_values(facts, i as int, i + 1));
                            assert forall|h: int| 0 <= h < before.len() implies (
                            #[trigger] groups@[h]).values@ == filtered_values(
                                facts,
                                groups@[h].first as int,
                                i + 1,
                            ) by {
                                let other = before[h];
                                assert(groups@[h] == other);
                                assert(!same_filter(facts[i as int], facts[other.first as int]));
                                assert(filtered_values(facts, other.first as int, i + 1)
                                    =~= filtered_values(facts, other.first as int, i as int));
                            }
                            assert forall|j: int| 0 <= j < i + 1 implies match #[trigger] member@[j] {
                                Some(g) => g < groups@.len() && same_filter(
                                    facts[groups@[g as int].first as int],
                                    facts[j],
                                ),
                                None => !(facts[j] is Finite),
                            } by {
                                if j < i {
                                    assert(member@[j] == members[j]);
                                    if let Some(h) = members[j] {
                                        assert(groups@[h as int] == before[h as int]);
                                    }
                                }
                            }
                        }
                    },
                }
            },
            _ => {
                member.push(None);
                proof {
                    assert(!(facts[i as int] is Finite));
                    assert forall|h: int| 0 <= h < groups@.len() implies (
                    #[trigger] groups@[h]).values@ == filtered_values(
                        facts,
                        groups@[h].first as int,
                        i + 1,
                    ) by {
                        assert(filtered_values(facts, groups@[h].first as int, i + 1)
                            =~= filtered_values(facts, groups@[h].first as int, i as int));
                    }
                    assert forall|j: int| 0 <= j < i + 1 implies match #[trigger] member@[j] {
                        Some(g) => g < groups@.len() && same_filter(
                            facts[groups@[g as int].first as int],
                            facts[j],
                        ),
                        None => !(facts[j] is Finite),
                    } by {
                        if j < i {
                            assert(member@[j] == members[j]);
                        }
                    }
                }
            },
        }
        i = i + 1;
    }
    (groups, member)
}

fn find_range_group(groups: &Vec<RangeGroup>, binding: ColumnBinding) -> (r: Option<usize>)
    ensures
        match r {
            Some(g) => g < groups@.len() && groups@[g as int].binding == binding,
            None => forall|g: int|
                0 <= g < groups@.len() ==> (#[trigger] groups@[g]).binding != binding,
        },
{
    let mut g: usize = 0;
    while g < groups.len()
        invariant
            g <= groups@.len(),
            forall|h: int| 0 <= h < g ==> (#[trigger] groups@[h]).binding != binding,
        decreases groups@.len() - g,
    {
        if groups[g].binding == binding {
            return Some(g);
        }
        g = g + 1;
    }
    None
}

/// The range conditions of each column, and the group of each term.
#[verifier::spinoff_prover]
#[verifier::rlimit(40)]
fn group_ranges(evidence: &Vec<TermEvidence>) -> (r: (Vec<RangeGroup>, Vec<Option<usize>>))
    requires
        ranges_wf(evidence_facts(evidence@)),
    ensures
        range_groups_hold(evidence_facts(evidence@), evidence@.len() as int, r.0@, r.1@),
{
    let ghost facts = evidence_facts(evidence@);
    let mut groups: Vec<RangeGroup> = Vec::new();
    let mut member: Vec<Option<usize>> = Vec::new();
    let mut i: usize = 0;
    while i < evidence.len()
        invariant
            i <= evidence@.len(),
            facts == evidence_facts(evidence@),
            ranges_wf(facts),
            range_groups_hold(facts, i as int, groups@, member@),
        decreases evidence@.len() - i,
    {
        let ghost before = groups@;
        let ghost members = member@;
        match &evidence[i] {
            TermEvidence::Range(constraint) => {
                assert(facts[i as int] == TermFact::Range(*constraint));
                match find_range_group(&groups, constraint.binding) {
                    Some(g) => {
                        let first: usize = groups[g].first;
                        let binding = groups[g].binding;
                        let domain = groups[g].domain;
                        let mut interval = groups[g].interval;
                        proof {
                            assert(same_range_column(facts[first as int], facts[i as int]));
                            lemma_first_range(facts, first as int, i as int);
                            lemma_other_ranges(facts, i as int, before, members, g as int);
                        }
                        if domain != constraint.domain || interval.minimum != constraint.minimum
                            || interval.maximum != constraint.maximum {
                            member.push(None);
                            proof {
                                lemma_leaves_same(interval, facts, first as int, i as int);
                            }
                        } else {
                            let ghost narrowed = interval;
                            interval.intersect(constraint.bound, constraint.constant);
                            groups.set(g, RangeGroup { first, binding, domain, interval });
                            member.push(Some(g));
                            proof {
                                lemma_leaves_less(
                                    narrowed,
                                    interval,
                                    facts,
                                    first as int,
                                    i as int,
                                );
                            }
                        }
                        proof {
                            assert forall|h: int| 0 <= h < groups@.len() implies leaves(
                                (#[trigger] groups@[h]).interval,
                                facts,
                                groups@[h].first as int,
                                i + 1,
                            ) by {
                                if h != g {
                                    assert(groups@[h] == before[h]);
                                }
                            }
                            lemma_range_members(facts, i as int, before, groups@, members, member@);
                            assert(same_range_column(
                                facts[groups@[g as int].first as int],
                                facts[i as int],
                            ));
                        }
                    },
                    None => {
                        let mut interval = IntegralInterval::new(
                            constraint.minimum,
                            constraint.maximum,
                        );
                        let ghost fresh = interval;
                        interval.intersect(constraint.bound, constraint.constant);
                        let g: usize = groups.len();
                        groups.push(
                            RangeGroup {
                                first: i,
                                binding: constraint.binding,
                                domain: constraint.domain,
                                interval,
                            },
                        );
                        member.push(Some(g));
                        proof {
                            lemma_new_range(facts, i as int, before, members);
                            lemma_leaves_first(fresh, facts, i as int);
                            lemma_leaves_less(fresh, interval, facts, i as int, i as int);
                            assert forall|h: int| 0 <= h < groups@.len() implies leaves(
                                (#[trigger] groups@[h]).interval,
                                facts,
                                groups@[h].first as int,
                                i + 1,
                            ) by {
                                if h < before.len() {
                                    let other = before[h];
                                    assert(groups@[h] == other);
                                    lemma_leaves_same(
                                        other.interval,
                                        facts,
                                        other.first as int,
                                        i as int,
                                    );
                                }
                            }
                            lemma_range_members(facts, i as int, before, groups@, members, member@);
                            assert(same_range_column(
                                facts[groups@[g as int].first as int],
                                facts[i as int],
                            ));
                        }
                    },
                }
            },
            _ => {
                member.push(None);
                proof {
                    assert(!(facts[i as int] is Range));
                    assert forall|h: int| 0 <= h < groups@.len() implies leaves(
                        (#[trigger] groups@[h]).interval,
                        facts,
                        groups@[h].first as int,
                        i + 1,
                    ) by {
                        assert(groups@[h] == before[h]);
                        lemma_leaves_same(
                            groups@[h].interval,
                            facts,
                            groups@[h].first as int,
                            i as int,
                        );
                    }
                    lemma_range_members(facts, i as int, before, groups@, members, member@);
                }
            },
        }
        i = i + 1;
    }
    (groups, member)
}

/// A condition on a column without a group is the first one on it.
proof fn lemma_new_range(
    facts: Seq<TermFact>,
    k: int,
    groups: Seq<RangeGroup>,
    member: Seq<Option<usize>>,
)
    requires
        range_groups_hold(facts, k, groups, member),
        0 <= k,
        facts[k] is Range,
        forall|g: int|
            0 <= g < groups.len() ==> (#[trigger] groups[g]).binding != (
            facts[k]->Range_0).binding,
    ensures
        range_leads(facts, k),
        range_fits(facts, k),
{
    assert forall|j: int| 0 <= j < k implies !same_range_column(#[trigger] facts[j], facts[k]) by {
        if same_range_column(facts[j], facts[k]) {
            assert(facts[j] is Range);
            let h = choose|h: int|
                0 <= h < groups.len() && same_range_column(
                    facts[(#[trigger] groups[h]).first as int],
                    facts[j],
                );
            assert(groups[h].binding == (facts[k]->Range_0).binding);
        }
    }
    assert(range_leads(facts, k));
}

/// A condition on one column leaves the groups of other columns alone.
proof fn lemma_other_ranges(
    facts: Seq<TermFact>,
    k: int,
    groups: Seq<RangeGroup>,
    member: Seq<Option<usize>>,
    g: int,
)
    requires
        range_groups_hold(facts, k, groups, member),
        0 <= k,
        0 <= g < groups.len(),
        same_range_column(facts[groups[g].first as int], facts[k]),
    ensures
        forall|h: int|
            0 <= h < groups.len() && h != g ==> leaves(
                (#[trigger] groups[h]).interval,
                facts,
                groups[h].first as int,
                k + 1,
            ),
{
    assert forall|h: int| 0 <= h < groups.len() && h != g implies leaves(
        (#[trigger] groups[h]).interval,
        facts,
        groups[h].first as int,
        k + 1,
    ) by {
        let other = groups[h].first as int;
        let first = groups[g].first as int;
        if same_range(facts[other], facts[k]) {
            if h < g {
                assert(!same_range_column(facts[other], facts[first]));
            } else {
                assert(!same_range_column(facts[first], facts[other]));
            }
        }
        lemma_leaves_same(groups[h].interval, facts, other, k);
    }
}

/// The earlier terms keep their groups.
proof fn lemma_range_members(
    facts: Seq<TermFact>,
    k: int,
    before: Seq<RangeGroup>,
    groups: Seq<RangeGroup>,
    members: Seq<Option<usize>>,
    member: Seq<Option<usize>>,
)
    requires
        range_groups_hold(facts, k, before, members),
        before.len() <= groups.len(),
        forall|g: int|
            0 <= g < before.len() ==> (#[trigger] groups[g]).first == (#[trigger] before[g]).first,
        member.len() == k + 1,
        forall|j: int| 0 <= j < k ==> #[trigger] member[j] == members[j],
    ensures
        forall|j: int|
            0 <= j < k ==> match #[trigger] member[j] {
                Some(g) => g < groups.len() && same_range(
                    facts[groups[g as int].first as int],
                    facts[j],
                ),
                None => !(facts[j] is Range) || !range_fits(facts, j),
            },
        forall|j: int|
            0 <= j < k && (#[trigger] facts[j]) is Range ==> exists|g: int|
                0 <= g < groups.len() && same_range_column(
                    facts[(#[trigger] groups[g]).first as int],
                    facts[j],
                ),
{
    assert forall|j: int| 0 <= j < k implies match #[trigger] member[j] {
        Some(g) => g < groups.len() && same_range(
            facts[groups[g as int].first as int],
            facts[j],
        ),
        None => !(facts[j] is Range) || !range_fits(facts, j),
    } by {
        assert(member[j] == members[j]);
        if let Some(g) = members[j] {
            assert(groups[g as int].first == before[g as int].first);
        }
    }
    assert forall|j: int| 0 <= j < k && (#[trigger] facts[j]) is Range implies exists|g: int|
        0 <= g < groups.len() && same_range_column(
            facts[(#[trigger] groups[g]).first as int],
            facts[j],
        ) by {
        let g = choose|g: int|
            0 <= g < before.len() && same_range_column(
                facts[(#[trigger] before[g]).first as int],
                facts[j],
            );
        assert(groups[g].first == before[g].first);
    }
}

/// Coalesces the conditions on one column. Bounds on one column are not
/// independent events; what they leave together can be measured directly.
pub fn coalesce_terms(evidence: &Vec<TermEvidence>, inputs: &Vec<ConjunctionTerm>) -> (r: Vec<
    ConjunctionTerm,
>)
    requires
        inputs@.len() == evidence@.len(),
        ranges_wf(evidence_facts(evidence@)),
    ensures
        r@ == coalesced(evidence_facts(evidence@), inputs@, inputs@.len()),
{
    let ghost facts = evidence_facts(evidence@);
    let (filters, filter_of) = group_filters(evidence);
    let (ranges, range_of) = group_ranges(evidence);
    let mut terms: Vec<ConjunctionTerm> = Vec::new();
    let mut i: usize = 0;
    while i < inputs.len()
        invariant
            inputs@.len() == evidence@.len(),
            facts == evidence_facts(evidence@),
            ranges_wf(facts),
            filter_groups_hold(facts, evidence@.len() as int, filters@, filter_of@),
            range_groups_hold(facts, evidence@.len() as int, ranges@, range_of@),
            i <= inputs@.len(),
            terms@ == coalesced(facts, inputs@, i as nat),
        decreases inputs@.len() - i,
    {
        let found = filter_of[i];
        match found {
            Some(g) => {
                let group = &filters[g];
                proof {
                    lemma_first_filter(facts, group.first as int, i as int);
                }
                if group.first == i {
                    let count: usize = group.values.len();
                    terms.push(
                        ConjunctionTerm::Share {
                            matching: count as u128,
                            domain: group.point as u128,
                            column: group.binding,
                        },
                    );
                }
            },
            None => {
                let ranged = range_of[i];
                match ranged {
                    Some(g) => {
                        let group = &ranges[g];
                        proof {
                            lemma_first_range(facts, group.first as int, i as int);
                        }
                        if group.first == i {
                            proof {
                                lemma_range_count(
                                    facts,
                                    i as int,
                                    facts.len() as int,
                                    group.interval,
                                );
                            }
                            let (matching, domain) = group.interval.counts();
                            terms.push(
                                ConjunctionTerm::Share { matching, domain, column: group.binding },
                            );
                        }
                    },
                    None => {
                        terms.push(inputs[i]);
                    },
                }
            },
        }
        i = i + 1;
    }
    terms
}

/// The predicates of a conjunction as inputs, with their columns.
pub open spec fn term_inputs(nodes: Seq<PredicateNode>, terms: Seq<(usize, u64)>) -> Seq<
    ConjunctionTerm,
> {
    terms.map_values(
        |term: (usize, u64)|
            ConjunctionTerm::Input {
                node: term.0,
                binding: single_column(scope(nodes, term.0 as int)),
                occurrences: term.1,
            },
    )
}

pub open spec fn term_facts(nodes: Seq<PredicateNode>, terms: Seq<(usize, u64)>) -> Seq<TermFact> {
    terms.map_values(|term: (usize, u64)| term_fact(nodes, term.0 as int))
}

/// The terms of the conjunction of all roots.
pub open spec fn conjunction(nodes: Seq<PredicateNode>, roots: Seq<usize>) -> Seq<ConjunctionTerm> {
    let terms = associative_terms(nodes, ConjunctionType::And, roots);
    coalesced(term_facts(nodes, terms), term_inputs(nodes, terms), terms.len())
}

/// Whether the scopes of all nodes are given.
pub open spec fn are_scopes(nodes: Seq<PredicateNode>, scopes: Seq<ColumnScope>) -> bool {
    &&& scopes.len() == nodes.len()
    &&& forall|n: int| 0 <= n < scopes.len() ==> #[trigger] scopes[n] == scope(nodes, n)
}

/// Steps that it takes to read the evidence of the first `n` terms.
pub open spec fn evidence_work(nodes: Seq<PredicateNode>, terms: Seq<(usize, u64)>, n: nat) -> nat
    decreases n,
{
    if n == 0 {
        0
    } else {
        evidence_work(nodes, terms, (n - 1) as nat) + 1 + filter_work(nodes, terms[n - 1].0 as int)
    }
}

proof fn lemma_evidence_work_grows(
    nodes: Seq<PredicateNode>,
    terms: Seq<(usize, u64)>,
    n: nat,
    m: nat,
)
    requires
        n <= m,
    ensures
        evidence_work(nodes, terms, n) <= evidence_work(nodes, terms, m),
    decreases m,
{
    if n < m {
        lemma_evidence_work_grows(nodes, terms, n, (m - 1) as nat);
    }
}

/// Steps that it takes to list the terms of a conjunction.
pub open spec fn conjunction_work(nodes: Seq<PredicateNode>, roots: Seq<usize>) -> nat {
    let terms = associative_terms(nodes, ConjunctionType::And, roots);
    flatten_work(nodes, ConjunctionType::And, roots) + evidence_work(nodes, terms, terms.len())
}

/// The terms of a conjunction, with the conditions on one column coalesced.
pub fn conjunction_terms<A: WorkAdmission>(
    graph: &PredicateGraph,
    scopes: &Vec<ColumnScope>,
    roots: &Vec<usize>,
    work: &mut SelectivityWork<A>,
) -> (r: Result<Vec<ConjunctionTerm>, SelectivityStop<A::Error>>)
    requires
        graph.wf(),
        are_scopes(graph.nodes@, scopes@),
        are_nodes(graph.nodes@, roots@),
    ensures
        r matches Ok(terms) ==> terms@ == conjunction(graph.nodes@, roots@),
        is_run::<A>(old(work).answers(), final(work).answers(), stopped(r)),
        takes::<A>(
            old(work).answers(),
            final(work).answers(),
            stopped(r),
            conjunction_work(graph.nodes@, roots@),
        ),
{
    let ghost nodes = graph.nodes@;
    let flattened = match flatten_associative(graph, roots, ConjunctionType::And, work) {
        Ok(flattened) => flattened,
        Err(stop) => {
            return Err(stop);
        },
    };
    let mut evidence: Vec<TermEvidence> = Vec::new();
    let mut inputs: Vec<ConjunctionTerm> = Vec::new();
    let mut i: usize = 0;
    while i < flattened.len()
        invariant
            graph.wf(),
            nodes == graph.nodes@,
            are_scopes(nodes, scopes@),
            flattened@ == associative_terms(nodes, ConjunctionType::And, roots@),
            forall|j: int| 0 <= j < flattened@.len() ==> (#[trigger] flattened@[j]).0 < nodes.len(),
            i <= flattened@.len(),
            is_run::<A>(old(work).answers(), work.answers(), None),
            work.answers().len() == old(work).answers().len() + flatten_work(
                nodes,
                ConjunctionType::And,
                roots@,
            ) + evidence_work(nodes, flattened@, i as nat),
            evidence_facts(evidence@) == term_facts(nodes, flattened@).take(i as int),
            ranges_wf(evidence_facts(evidence@)),
            inputs@ == term_inputs(nodes, flattened@).take(i as int),
        decreases flattened@.len() - i,
    {
        proof {
            lemma_evidence_work_grows(nodes, flattened@, (i + 1) as nat, flattened@.len());
        }
        if let Err(stop) = work.take_step() {
            return Err(stop);
        }
        let (node, occurrences) = flattened.get(i);
        let ghost before = evidence@;
        let answer = match finite_filter_estimate(graph, node, work) {
            Ok(answer) => answer,
            Err(stop) => {
                return Err(stop);
            },
        };
        let found = match answer {
            Some(filter) => TermEvidence::Finite(filter),
            None => match integral_range_constraint(graph, node) {
                Some(constraint) => TermEvidence::Range(constraint),
                None => TermEvidence::Neither,
            },
        };
        evidence.push(found);
        inputs.push(
            ConjunctionTerm::Input { node, binding: single_binding(scopes[node]), occurrences },
        );
        proof {
            assert(found@ == term_fact(nodes, node as int));
            assert(evidence_facts(evidence@) =~= evidence_facts(before).push(found@));
            assert(term_facts(nodes, flattened@).take(i + 1) =~= term_facts(
                nodes,
                flattened@,
            ).take(i as int).push(found@));
            assert(inputs@ =~= term_inputs(nodes, flattened@).take(i + 1));
        }
        i = i + 1;
    }
    proof {
        assert(term_facts(nodes, flattened@).take(i as int) =~= term_facts(nodes, flattened@));
        assert(term_inputs(nodes, flattened@).take(i as int) =~= term_inputs(nodes, flattened@));
    }
    Ok(coalesce_terms(&evidence, &inputs))
}

proof fn lemma_leading_filter(facts: Seq<TermFact>, i: int) -> (l: int)
    requires
        0 <= i < facts.len(),
        facts[i] is Finite,
    ensures
        0 <= l <= i,
        same_filter(facts[l], facts[i]),
        filter_leads(facts, l),
    decreases i,
{
    if filter_leads(facts, i) {
        i
    } else {
        let j = choose|j: int| 0 <= j < i && same_filter(#[trigger] facts[j], facts[i]);
        lemma_leading_filter(facts, j)
    }
}

/// No condition is lost: each contributes itself, or an earlier one on its column
/// stands for both.
pub proof fn every_condition_counts(
    facts: Seq<TermFact>,
    inputs: Seq<ConjunctionTerm>,
    i: int,
)
    requires
        0 <= i < facts.len(),
        inputs.len() == facts.len(),
    ensures
        exists|l: int| {
            &&& 0 <= l <= i
            &&& #[trigger] term_slot(facts, l, inputs[l]) is Some
            &&& l == i || same_filter(facts[l], facts[i]) || same_range(facts[l], facts[i])
        },
{
    match facts[i] {
        TermFact::Finite(_) => {
            let l = lemma_leading_filter(facts, i);
            assert(term_slot(facts, l, inputs[l]) is Some);
        },
        TermFact::Range(_) => {
            if range_fits(facts, i) {
                let l = choose|l: int|
                    0 <= l <= i && #[trigger] range_leads(facts, l) && same_range(
                        facts[l],
                        facts[i],
                    );
                assert(same_range(facts[l], facts[l]));
                assert(range_fits(facts, l));
                assert(term_slot(facts, l, inputs[l]) is Some);
            } else {
                assert(term_slot(facts, i, inputs[i]) is Some);
            }
        },
        TermFact::Neither => {
            assert(term_slot(facts, i, inputs[i]) is Some);
        },
    }
}

/// A further condition only narrows what is left of a column: of the values that
/// were left, those stay that it admits too, and all of them where it speaks of
/// something else.
pub proof fn further_condition_only_narrows(
    facts: Seq<TermFact>,
    further: TermFact,
    i: int,
    n: int,
    value: u128,
    position: int,
)
    requires
        0 <= i < facts.len(),
        n == facts.len(),
    ensures
        filtered_values(facts.push(further), i, n + 1).contains(value) <==> filtered_values(
            facts,
            i,
            n,
        ).contains(value) && (same_filter(further, facts[i])
            ==> (further->Finite_0).values.contains(value)),
        ranged_values(facts.push(further), i, n + 1).contains(position) <==> ranged_values(
            facts,
            i,
            n,
        ).contains(position) && (same_range(facts[i], further) ==> passes(further, position)),
{
    let longer = facts.push(further);
    assert(longer[i] == facts[i]);
    assert(longer[n] == further);
    if filtered_values(longer, i, n + 1).contains(value) {
        assert forall|k: int| 0 <= k < n && same_filter(#[trigger] facts[k], facts[i]) implies (
        facts[k]->Finite_0).values.contains(value) by {
            assert(longer[k] == facts[k]);
        }
        assert(same_filter(longer[n], longer[i]) ==> (longer[n]->Finite_0).values.contains(value));
    }
    if filtered_values(facts, i, n).contains(value) && (same_filter(further, facts[i]) ==> (
    further->Finite_0).values.contains(value)) {
        assert forall|k: int| 0 <= k < n + 1 && same_filter(#[trigger] longer[k], longer[i]) implies (
        longer[k]->Finite_0).values.contains(value) by {
            if k < n {
                assert(longer[k] == facts[k]);
            }
        }
    }
    if ranged_values(longer, i, n + 1).contains(position) {
        assert forall|k: int| 0 <= k < n && same_range(facts[i], #[trigger] facts[k]) implies passes(
            facts[k],
            position,
        ) by {
            assert(longer[k] == facts[k]);
        }
        assert(same_range(longer[i], longer[n]) ==> passes(longer[n], position));
    }
    if ranged_values(facts, i, n).contains(position) && (same_range(facts[i], further) ==> passes(
        further,
        position,
    )) {
        assert forall|k: int|
            0 <= k < n + 1 && same_range(longer[i], #[trigger] longer[k]) implies passes(
            longer[k],
            position,
        ) by {
            if k < n {
                assert(longer[k] == facts[k]);
            }
        }
    }
}

} // verus!
