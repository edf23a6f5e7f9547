//! Rows that pass a conjunction of predicates.

use vstd::prelude::*;

use crate::estimate::selectivity::conjunction::{conjunction, conjunction_terms, ConjunctionTerm};
use crate::estimate::selectivity::flatten::are_nodes;
use crate::estimate::selectivity::formula::reads_term;
use crate::estimate::selectivity::predicate::{PredicateGraph, PredicateNode};
use crate::estimate::selectivity::steps::{
    computes, estimate_all, input_nodes_are_nodes, lemma_reads_term_push, node_set, EstimateStep,
};
use crate::estimate::selectivity::work::{unrestricted_work_goes_on, SelectivityWork, Unrestricted};
use crate::plan::CardinalityEstimate;
use crate::types::ColumnBinding;

verus! {

/// What a filter passes.
#[derive(Debug)]
pub enum FilterPlan {
    /// The number of rows is known.
    Exact(CardinalityEstimate),
    /// The terms of the conjunction, and the selectivities that they read in
    /// an order in which they can be computed.
    Estimate { terms: Vec<ConjunctionTerm>, steps: Vec<EstimateStep> },
}

/// The nodes that the terms of a conjunction read.
pub open spec fn term_reads(terms: Seq<ConjunctionTerm>) -> Set<int> {
    Set::new(|n: int| reads_term(terms, n))
}

/// Whether a plan decides the rows that pass all roots.
pub open spec fn plans_filter(
    plan: FilterPlan,
    nodes: Seq<PredicateNode>,
    base: u64,
    roots: Seq<usize>,
) -> bool {
    match plan {
        FilterPlan::Exact(rows) => (base == 0 || roots.len() == 0)
            && rows == CardinalityEstimate::spec_exact(base),
        FilterPlan::Estimate { terms, steps } => base > 0 && roots.len() > 0 && terms@
            == conjunction(nodes, roots) && computes(steps@, nodes, term_reads(terms@)),
    }
}

/// The nodes that the terms read, in order.
fn input_nodes(terms: &Vec<ConjunctionTerm>) -> (r: Vec<usize>)
    ensures
        node_set(r@) == term_reads(terms@),
        forall|i: int|
            0 <= i < r@.len() ==> reads_term(terms@, #[trigger] r@[i] as int),
{
    let mut r: Vec<usize> = Vec::new();
    let mut i: usize = 0;
    while i < terms.len()
        invariant
            i <= terms@.len(),
            forall|n: int|
                #![trigger node_set(r@).contains(n)]
                #![trigger reads_term(terms@.take(i as int), n)]
                node_set(r@).contains(n) <==> reads_term(terms@.take(i as int), n),
        decreases terms@.len() - i,
    {
        let ghost before = r@;
        match terms[i] {
            ConjunctionTerm::Input { node, .. } => {
                r.push(node);
            },
            ConjunctionTerm::Share { .. } => {},
        }
        proof {
            assert forall|n: int|
                #![trigger node_set(r@).contains(n)]
                #![trigger reads_term(terms@.take(i + 1), n)]
                node_set(r@).contains(n) <==> reads_term(terms@.take(i + 1), n) by {
                lemma_reads_term_push(terms@, i as int, n);
                assert(node_set(before).contains(n) <==> reads_term(terms@.take(i as int), n));
                if let ConjunctionTerm::Input { node, .. } = terms@[i as int] {
                    if node_set(before).contains(n) {
                        let k = choose|k: int| 0 <= k < before.len() && #[trigger] before[k] == n;
                        assert(r@[k] == n);
                    }
                    if node == n {
                        assert(r@[before.len() as int] == n);
                    }
                    if node_set(r@).contains(n) {
                        let k = choose|k: int| 0 <= k < r@.len() && #[trigger] r@[k] == n;
                        if k < before.len() {
                            assert(before[k] == n);
                        }
                    }
                }
            }
        }
        i = i + 1;
    }
    proof {
        assert(terms@.take(i as int) =~= terms@);
        assert(node_set(r@) =~= term_reads(terms@)) by {
            assert forall|n: int| #[trigger] node_set(r@).contains(n) <==> term_reads(
                terms@,
            ).contains(n) by {}
        }
        assert forall|k: int| 0 <= k < r@.len() implies reads_term(
            terms@,
            #[trigger] r@[k] as int,
        ) by {
            assert(node_set(r@).contains(r@[k] as int));
        }
    }
    r
}

/// Plans the estimate of the rows that pass all roots. Without rows or without
/// predicates the number is known.
pub fn plan_filter(graph: &PredicateGraph, base: u64, roots: &Vec<usize>) -> (r: FilterPlan)
    requires
        graph.wf(),
        are_nodes(graph.nodes@, roots@),
    ensures
        plans_filter(r, graph.nodes@, base, roots@),
{
    if base == 0 {
        return FilterPlan::Exact(CardinalityEstimate::exact(0));
    }
    if roots.len() == 0 {
        return FilterPlan::Exact(CardinalityEstimate::exact(base));
    }
    let scopes = graph.scopes();
    let size: usize = graph.nodes.len();
    let mut work = SelectivityWork::new(Unrestricted);
    let terms = match conjunction_terms(graph, &scopes, roots, &mut work) {
        Ok(terms) => terms,
        Err(stop) => {
            proof {
                unrestricted_work_goes_on(Seq::empty(), work.answers(), Some(stop));
            }
            Vec::new()
        },
    };
    let inputs = input_nodes(&terms);
    proof {
        input_nodes_are_nodes(graph.nodes@, roots@);
        assert forall|i: int| 0 <= i < inputs@.len() implies (#[trigger] inputs@[i])
            < graph.nodes@.len() by {
            assert(reads_term(terms@, inputs@[i] as int));
        }
    }
    let steps = estimate_all(graph, &scopes, &inputs);
    FilterPlan::Estimate { terms, steps }
}

/// A number of rows times a selectivity, rounded three ways.
#[derive(Clone, Copy, Debug, PartialEq, Eq, Structural)]
pub struct SelectedRows {
    /// Half the selectivity, rounded down.
    pub low: u64,
    /// The selectivity, rounded to the nearest number.
    pub nearest: u64,
    /// One and a half times the selectivity, at most all rows, rounded up.
    pub high: u64,
}

pub open spec fn selected_estimate(
    base: u64,
    rows: SelectedRows,
    proven_empty: bool,
) -> CardinalityEstimate {
    let expected = if proven_empty {
        0
    } else if rows.nearest == 0 {
        1
    } else {
        rows.nearest
    };
    let most = if rows.high < expected {
        expected
    } else {
        rows.high
    };
    if base == 0 {
        CardinalityEstimate::spec_exact(0)
    } else {
        CardinalityEstimate {
            min: rows.low,
            expected: if expected <= base {
                expected
            } else {
                base
            },
            max: if most <= base {
                most
            } else {
                base
            },
        }
    }
}

/// The rows that a selectivity leaves. An estimate never promises that no row
/// passes; only a proof does.
pub fn cardinality_from_selectivity(base: u64, rows: SelectedRows, proven_empty: bool) -> (r:
    CardinalityEstimate)
    ensures
        r == selected_estimate(base, rows, proven_empty),
        r.expected <= r.max <= base,
        base > 0 && !proven_empty ==> r.expected > 0,
{
    if base == 0 {
        return CardinalityEstimate::exact(0);
    }
    let expected: u64 = if proven_empty {
        0
    } else if rows.nearest == 0 {
        1
    } else {
        rows.nearest
    };
    let most: u64 = if rows.high < expected {
        expected
    } else {
        rows.high
    };
    CardinalityEstimate {
        min: rows.low,
        expected: if expected <= base {
            expected
        } else {
            base
        },
        max: if most <= base {
            most
        } else {
            base
        },
    }
}

/// The rows that a selectivity leaves of an estimate: each of its numbers is
/// reduced on its own.
pub fn apply_selectivity_to_cardinality(
    base: CardinalityEstimate,
    min: SelectedRows,
    expected: SelectedRows,
    max: SelectedRows,
) -> (r: CardinalityEstimate)
    ensures
        r.min == selected_estimate(base.min, min, false).min,
        r.expected == selected_estimate(base.expected, expected, false).expected,
        r.max == if selected_estimate(base.max, max, false).max < r.expected {
            r.expected
        } else {
            selected_estimate(base.max, max, false).max
        },
{
    let least = cardinality_from_selectivity(base.min, min, false);
    let middle = cardinality_from_selectivity(base.expected, expected, false);
    let most = cardinality_from_selectivity(base.max, max, false);
    CardinalityEstimate {
        min: least.min,
        expected: middle.expected,
        max: if most.max < middle.expected {
            middle.expected
        } else {
            most.max
        },
    }
}

/// Positions among the first `k` that hold the key, in order.
pub open spec fn positions_of(keys: Seq<(usize, usize)>, key: (usize, usize), k: nat) -> Seq<usize>
    decreases k,
{
    if k == 0 {
        Seq::empty()
    } else if keys[k - 1] == key {
        positions_of(keys, key, (k - 1) as nat).push((k - 1) as usize)
    } else {
        positions_of(keys, key, (k - 1) as nat)
    }
}

/// Whether the groups partition the positions of the first `k` keys by key, in
/// the order in which the keys first occur.
pub open spec fn partitions(groups: Seq<Vec<usize>>, keys: Seq<(usize, usize)>, k: nat) -> bool {
    &&& forall|g: int|
        0 <= g < groups.len() ==> (#[trigger] groups[g])@.len() > 0 && groups[g]@[0] < k
            && groups[g]@ == positions_of(keys, keys[groups[g]@[0] as int], k)
    &&& forall|g: int, h: int|
        #![trigger groups[g], groups[h]]
        0 <= g < h < groups.len() ==> keys[groups[g]@[0] as int] != keys[groups[h]@[0] as int]
            && groups[g]@[0] < groups[h]@[0]
    &&& forall|i: int|
        0 <= i < k ==> exists|g: int|
            0 <= g < groups.len() && keys[(#[trigger] groups[g])@[0] as int]
                == #[trigger] keys[i]
}

proof fn lemma_no_positions(
    keys: Seq<(usize, usize)>,
    key: (usize, usize),
    k: nat,
    groups: Seq<Vec<usize>>,
    n: nat,
)
    requires
        k <= n,
        partitions(groups, keys, n),
        forall|g: int|
            0 <= g < groups.len() ==> keys[(#[trigger] groups[g])@[0] as int] != key,
    ensures
        positions_of(keys, key, k) == Seq::<usize>::empty(),
    decreases k,
{
    if k > 0 {
        lemma_no_positions(keys, key, (k - 1) as nat, groups, n);
        let g = choose|g: int|
            0 <= g < groups.len() && keys[(#[trigger] groups[g])@[0] as int] == keys[k - 1];
        assert(keys[groups[g]@[0] as int] != key);
    }
}

/// Groups positions by key.
fn partition(keys: &Vec<(usize, usize)>) -> (r: Vec<Vec<usize>>)
    ensures
        partitions(r@, keys@, keys@.len()),
{
    let mut groups: Vec<Vec<usize>> = Vec::new();
    let mut i: usize = 0;
    while i < keys.len()
        invariant
            i <= keys@.len(),
            partitions(groups@, keys@, i as nat),
        decreases keys@.len() - i,
    {
        let key: (usize, usize) = keys[i];
        let ghost before = groups@;
        let mut found: Option<usize> = None;
        let mut g: usize = 0;
        while g < groups.len()
            invariant
                i < keys@.len(),
                key == keys@[i as int],
                groups@ == before,
                partitions(before, keys@, i as nat),
                g <= groups@.len(),
                match found {
                    Some(h) => h < g && keys@[before[h as int]@[0] as int] == key,
                    None => forall|h: int|
                        0 <= h < g ==> keys@[(#[trigger] before[h])@[0] as int] != key,
                },
            decreases groups@.len() - g,
        {
            assert(before[g as int]@.len() > 0);
            let first: usize = groups[g][0];
            let other: (usize, usize) = keys[first];
            if found.is_none() && other.0 == key.0 && other.1 == key.1 {
                found = Some(g);
            }
            g = g + 1;
        }
        match found {
            Some(h) => {
                let mut members: Vec<usize> = Vec::new();
                groups.set_and_swap(h, &mut members);
                members.push(i);
                groups.set(h, members);
            },
            None => {
                let mut members: Vec<usize> = Vec::new();
                members.push(i);
                groups.push(members);
            },
        }
        proof {
            assert forall|a: int| 0 <= a < groups@.len() implies (#[trigger] groups@[a])@.len() > 0
                && groups@[a]@[0] < i + 1 && groups@[a]@ == positions_of(
                keys@,
                keys@[groups@[a]@[0] as int],
                (i + 1) as nat,
            ) by {
                if a < before.len() {
                    assert(before[a]@[0] < i);
                    assert(groups@[a]@[0] == before[a]@[0]);
                    if found is Some && found->0 == a {
                    } else {
                        assert(groups@[a] == before[a]);
                        if keys@[before[a]@[0] as int] == key {
                            if let Some(h) = found {
                                assert(keys@[before[h as int]@[0] as int]
                                    == keys@[before[a]@[0] as int]);
                                assert(h < a ==> keys@[before[h as int]@[0] as int]
                                    != keys@[before[a]@[0] as int]);
                                assert(a < h ==> keys@[before[a]@[0] as int]
                                    != keys@[before[h as int]@[0] as int]);
                            }
                        }
                    }
                } else {
                    lemma_no_positions(keys@, key, i as nat, before, i as nat);
                }
            }
            assert forall|a: int, b: int|
                #![trigger groups@[a], groups@[b]]
                0 <= a < b < groups@.len() implies keys@[groups@[a]@[0] as int]
                != keys@[groups@[b]@[0] as int] && groups@[a]@[0] < groups@[b]@[0] by {
                assert(groups@[a]@[0] == before[a]@[0]);
                if b < before.len() {
                    assert(groups@[b]@[0] == before[b]@[0]);
                    assert(keys@[before[a]@[0] as int] != keys@[before[b]@[0] as int]);
                } else {
                    assert(before[a]@[0] < i);
                }
            }
            assert forall|j: int| 0 <= j < i + 1 implies exists|a: int|
                0 <= a < groups@.len() && keys@[(#[trigger] groups@[a])@[0] as int]
                    == #[trigger] keys@[j] by {
                if j < i {
                    let a = choose|a: int|
                        0 <= a < before.len() && keys@[(#[trigger] before[a])@[0] as int]
                            == keys@[j];
                    assert(groups@[a]@[0] == before[a]@[0]);
                } else {
                    match found {
                        Some(h) => {
                            assert(groups@[h as int]@[0] == before[h as int]@[0]);
                        },
                        None => {
                            assert(groups@[before.len() as int]@[0] == i);
                        },
                    }
                }
            }
        }
        i = i + 1;
    }
    groups
}

/// Terms of a conjunction by the columns that they depend on.
#[derive(Debug)]
pub struct ConjunctionGroups {
    /// Terms that do not depend on exactly one column.
    pub independent: Vec<usize>,
    /// Terms that depend on one column.
    pub bound: Vec<usize>,
    /// Positions in `bound` of the terms of each column.
    pub columns: Vec<Vec<usize>>,
    /// Positions in `columns` of the columns of each relation.
    pub relations: Vec<Vec<usize>>,
}

/// Positions among the first `k` with (or without) a column, in order.
pub open spec fn positions_where(
    bindings: Seq<Option<ColumnBinding>>,
    has_column: bool,
    k: nat,
) -> Seq<usize>
    decreases k,
{
    if k == 0 {
        Seq::empty()
    } else if (bindings[k - 1] is Some) == has_column {
        positions_where(bindings, has_column, (k - 1) as nat).push((k - 1) as usize)
    } else {
        positions_where(bindings, has_column, (k - 1) as nat)
    }
}

pub open spec fn column_key(binding: Option<ColumnBinding>) -> (usize, usize) {
    (binding->0.table_index, binding->0.column_index)
}

/// The columns of the bound terms.
pub open spec fn column_keys(
    bindings: Seq<Option<ColumnBinding>>,
    bound: Seq<usize>,
) -> Seq<(usize, usize)> {
    bound.map_values(|i: usize| column_key(bindings[i as int]))
}

/// The relations of the columns.
pub open spec fn relation_keys(keys: Seq<(usize, usize)>, columns: Seq<Vec<usize>>) -> Seq<
    (usize, usize),
> {
    columns.map_values(|members: Vec<usize>| (keys[members@[0] as int].0, 0usize))
}

/// Whether terms are grouped by column, and columns by relation.
pub open spec fn groups_terms(
    groups: ConjunctionGroups,
    bindings: Seq<Option<ColumnBinding>>,
) -> bool {
    let keys = column_keys(bindings, groups.bound@);
    &&& groups.independent@ == positions_where(bindings, false, bindings.len())
    &&& groups.bound@ == positions_where(bindings, true, bindings.len())
    &&& partitions(groups.columns@, keys, keys.len())
    &&& partitions(
        groups.relations@,
        relation_keys(keys, groups.columns@),
        groups.columns@.len(),
    )
}

/// Groups terms by column and columns by relation. Terms of one column
/// combine exactly; columns of one relation may be correlated and are damped;
/// relations are independent.
pub fn group_terms(bindings: &Vec<Option<ColumnBinding>>) -> (r: ConjunctionGroups)
    ensures
        groups_terms(r, bindings@),
{
    let mut independent: Vec<usize> = Vec::new();
    let mut bound: Vec<usize> = Vec::new();
    let mut keys: Vec<(usize, usize)> = Vec::new();
    let mut i: usize = 0;
    while i < bindings.len()
        invariant
            i <= bindings@.len(),
            independent@ == positions_where(bindings@, false, i as nat),
            bound@ == positions_where(bindings@, true, i as nat),
            keys@ == column_keys(bindings@, bound@),
        decreases bindings@.len() - i,
    {
        match bindings[i] {
            Some(binding) => {
                let ghost before = bound@;
                bound.push(i);
                keys.push((binding.table_index, binding.column_index));
                assert(keys@ =~= column_keys(bindings@, bound@));
            },
            None => {
                independent.push(i);
            },
        }
        i = i + 1;
    }
    let columns = partition(&keys);
    let mut tables: Vec<(usize, usize)> = Vec::new();
    let mut c: usize = 0;
    while c < columns.len()
        invariant
            c <= columns@.len(),
            partitions(columns@, keys@, keys@.len()),
            tables@ == relation_keys(keys@, columns@).take(c as int),
        decreases columns@.len() - c,
    {
        assert(columns@[c as int]@.len() > 0);
        let first: usize = columns[c][0];
        tables.push((keys[first].0, 0));
        assert(tables@ =~= relation_keys(keys@, columns@).take(c + 1));
        c = c + 1;
    }
    assert(tables@ =~= relation_keys(keys@, columns@));
    let relations = partition(&tables);
    ConjunctionGroups { independent, bound, columns, relations }
}

/// Whether the combined estimate of a relation's columns is proven: damping
/// several columns is no proof.
pub fn relation_is_proven(columns_proven: &Vec<bool>) -> (r: bool)
    ensures
        r == (columns_proven@.len() <= 1 && forall|i: int|
            0 <= i < columns_proven@.len() ==> #[trigger] columns_proven@[i]),
{
    if columns_proven.len() > 1 {
        return false;
    }
    columns_proven.len() == 0 || columns_proven[0]
}

/// The rows that pass are some of all rows: the expected ones lie between the
/// bounds, and some are expected unless it is certain that none passes.
pub proof fn passing_rows_are_some_of_all(base: u64, rows: SelectedRows, proven_empty: bool)
    requires
        rows.low <= rows.nearest,
        rows.low <= base,
        proven_empty ==> rows.low == 0,
    ensures
        ({
            let passing = selected_estimate(base, rows, proven_empty);
            &&& passing.min <= passing.expected <= passing.max <= base
            &&& passing.expected == 0 <==> base == 0 || proven_empty
            &&& passing.max == 0 ==> base == 0 || rows.high == 0
        }),
{
}

proof fn lemma_positions(keys: Seq<(usize, usize)>, key: (usize, usize), k: nat, i: usize)
    requires
        k <= keys.len() <= usize::MAX,
    ensures
        positions_of(keys, key, k).contains(i) <==> i < k && keys[i as int] == key,
    decreases k,
{
    if k > 0 {
        lemma_positions(keys, key, (k - 1) as nat, i);
        let before = positions_of(keys, key, (k - 1) as nat);
        let all = positions_of(keys, key, k);
        if keys[k - 1] == key {
            assert(all == before.push((k - 1) as usize));
            if before.contains(i) {
                let at = choose|at: int| 0 <= at < before.len() && before[at] == i;
                assert(all[at] == i);
            }
            if i == k - 1 {
                assert(all[before.len() as int] == i);
            }
            if all.contains(i) {
                let at = choose|at: int| 0 <= at < all.len() && all[at] == i;
                if at < before.len() {
                    assert(before[at] == i);
                }
            }
        }
    }
}

/// Every position is in one group, together with exactly those that have the same
/// key.
pub proof fn groups_hold_what_has_one_key(
    groups: Seq<Vec<usize>>,
    keys: Seq<(usize, usize)>,
    i: usize,
    j: usize,
)
    requires
        partitions(groups, keys, keys.len()),
        keys.len() <= usize::MAX,
        i < keys.len(),
        j < keys.len(),
    ensures
        exists|g: int| 0 <= g < groups.len() && (#[trigger] groups[g])@.contains(i),
        forall|g: int, h: int|
            0 <= g < groups.len() && 0 <= h < groups.len() && (#[trigger] groups[g])@.contains(i)
                && (#[trigger] groups[h])@.contains(i) ==> g == h,
        keys[i as int] == keys[j as int] <==> exists|g: int|
            0 <= g < groups.len() && (#[trigger] groups[g])@.contains(i) && groups[g]@.contains(j),
{
    assert forall|g: int| 0 <= g < groups.len() implies ((#[trigger] groups[g])@.contains(i)
        <==> keys[i as int] == keys[groups[g]@[0] as int]) && (groups[g]@.contains(j)
        <==> keys[j as int] == keys[groups[g]@[0] as int]) by {
        lemma_positions(keys, keys[groups[g]@[0] as int], keys.len(), i);
        lemma_positions(keys, keys[groups[g]@[0] as int], keys.len(), j);
    }
    assert(keys[i as int] == keys[i as int]);
    let g = choose|g: int|
        0 <= g < groups.len() && keys[(#[trigger] groups[g])@[0] as int] == keys[i as int];
    assert(groups[g]@.contains(i));
    assert forall|g: int, h: int|
        0 <= g < groups.len() && 0 <= h < groups.len() && (#[trigger] groups[g])@.contains(i)
            && (#[trigger] groups[h])@.contains(i) implies g == h by {
        if g < h {
            assert(keys[groups[g]@[0] as int] != keys[groups[h]@[0] as int]);
        } else if h < g {
            assert(keys[groups[h]@[0] as int] != keys[groups[g]@[0] as int]);
        }
    }
}

proof fn lemma_positions_where(
    bindings: Seq<Option<ColumnBinding>>,
    has_column: bool,
    k: nat,
    i: usize,
)
    requires
        k <= bindings.len() <= usize::MAX,
    ensures
        positions_where(bindings, has_column, k).contains(i) <==> i < k && (bindings[i as int]
            is Some) == has_column,
    decreases k,
{
    if k > 0 {
        lemma_positions_where(bindings, has_column, (k - 1) as nat, i);
        let before = positions_where(bindings, has_column, (k - 1) as nat);
        let all = positions_where(bindings, has_column, k);
        if (bindings[k - 1] is Some) == has_column {
            assert(all == before.push((k - 1) as usize));
            if before.contains(i) {
                let at = choose|at: int| 0 <= at < before.len() && before[at] == i;
                assert(all[at] == i);
            }
            if i == k - 1 {
                assert(all[before.len() as int] == i);
            }
            if all.contains(i) {
                let at = choose|at: int| 0 <= at < all.len() && all[at] == i;
                if at < before.len() {
                    assert(before[at] == i);
                }
            }
        }
    }
}

/// A condition is combined with others on its column exactly where it has one;
/// none is left out and none is taken twice.
pub proof fn conditions_are_bound_or_independent(
    groups: ConjunctionGroups,
    bindings: Seq<Option<ColumnBinding>>,
    i: usize,
)
    requires
        groups_terms(groups, bindings),
        i < bindings.len() <= usize::MAX,
    ensures
        groups.bound@.contains(i) <==> bindings[i as int] is Some,
        groups.independent@.contains(i) <==> bindings[i as int] is None,
{
    lemma_positions_where(bindings, true, bindings.len(), i);
    lemma_positions_where(bindings, false, bindings.len(), i);
}

} // verus!
