//! Predicates that admit finitely many values of one integral column.

use vstd::prelude::*;

use crate::estimate::selectivity::coordinates::CoordinateSet;
use crate::estimate::selectivity::flatten::{
    are_nodes, associative_terms, flatten_associative, flatten_work,
};
use crate::estimate::selectivity::integral::{
    coordinate, ordered_integral_value, IntegralDomain, OrderedIntegralValue,
};
use crate::estimate::selectivity::node_list::{NodeList, NodeSequence};
use crate::estimate::selectivity::predicate::{
    column_comparison, column_constant_comparison, column_of, literal_of, node_binding,
    node_constant, node_point, node_wf, point_of, PredicateGraph, PredicateKind, PredicateNode,
};
use crate::estimate::selectivity::work::{
    group_runs, is_run, stopped, takes, SelectivityStop, SelectivityWork, WorkAdmission,
};
use crate::types::{ColumnBinding, ComparisonType, ConjunctionType, OperatorType};

verus! {

broadcast use group_runs;

/// One value that an equality admits: the column, its distinct count and the
/// value's domain and coordinate.
#[derive(Clone, Copy, Debug, PartialEq, Eq, Structural)]
pub struct ValueFact {
    pub binding: ColumnBinding,
    pub domain: IntegralDomain,
    pub point: u64,
    pub coordinate: u128,
}

/// The integral literal that a node is.
pub open spec fn integral_literal(node: PredicateNode) -> Option<OrderedIntegralValue> {
    match literal_of(node) {
        Some(value) => coordinate(value@),
        None => None,
    }
}

fn node_coordinate(node: &PredicateNode) -> (r: Option<OrderedIntegralValue>)
    ensures
        r == integral_literal(*node),
{
    match node_constant(node) {
        Some(value) => ordered_integral_value(value),
        None => None,
    }
}

/// The values of a known column that the constants stand for; none where the
/// column or a constant is not known well enough.
pub open spec fn column_facts(
    nodes: Seq<PredicateNode>,
    column: int,
    constants: Seq<usize>,
) -> Option<Seq<ValueFact>> {
    match (column_of(nodes[column]), point_of(nodes[column])) {
        (Some(binding), Some(point)) => if forall|i: int|
            0 <= i < constants.len() ==> integral_literal(
                nodes[#[trigger] constants[i] as int],
            ) is Some {
            Some(
                constants.map_values(
                    |constant: usize|
                        {
                            let value = integral_literal(nodes[constant as int])->0;
                            ValueFact {
                                binding,
                                domain: value.domain,
                                point,
                                coordinate: value.coordinate,
                            }
                        },
                ),
            )
        } else {
            None
        },
        _ => None,
    }
}

/// Which single predicates admit finitely many values.
#[derive(Clone, Copy, Debug, PartialEq, Eq, Structural)]
pub enum ValueForm {
    /// Equalities and membership in a list.
    Filter,
    /// Equalities, of which no two hold at once.
    Disjoint,
}

pub open spec fn is_value_comparison(comparison: ComparisonType, form: ValueForm) -> bool {
    ||| comparison is Equal
    ||| form is Disjoint && comparison is NotDistinctFrom
}

/// The values that a single predicate admits.
pub open spec fn term_facts(nodes: Seq<PredicateNode>, n: int, form: ValueForm) -> Option<
    Seq<ValueFact>,
> {
    if !nodes[n].shareable {
        None
    } else {
        match nodes[n].kind {
            PredicateKind::Comparison(comparison) => if is_value_comparison(comparison, form) {
                match column_comparison(nodes, n) {
                    Some(found) => column_facts(
                        nodes,
                        found.column as int,
                        seq![found.constant],
                    ),
                    None => None,
                }
            } else {
                None
            },
            PredicateKind::Operator(OperatorType::In) => if form is Filter
                && nodes[n].children@.len() > 0 {
                column_facts(nodes, nodes[n].children@[0] as int, nodes[n].children@.skip(1))
            } else {
                None
            },
            _ => None,
        }
    }
}

/// The values that the first `k` terms admit.
pub open spec fn all_facts(
    nodes: Seq<PredicateNode>,
    terms: Seq<(usize, u64)>,
    form: ValueForm,
    k: nat,
) -> Option<Seq<ValueFact>>
    decreases k,
{
    if k == 0 || k > terms.len() {
        Some(Seq::empty())
    } else {
        match (
            all_facts(nodes, terms, form, (k - 1) as nat),
            term_facts(nodes, terms[k - 1].0 as int, form),
        ) {
            (Some(before), Some(more)) => Some(before + more),
            _ => None,
        }
    }
}

/// Whether two values belong to the same column and domain, with the same
/// distinct count.
pub open spec fn same_column(a: ValueFact, b: ValueFact) -> bool {
    a.binding == b.binding && a.domain == b.domain && a.point == b.point
}

/// What a finite filter admits: values of one column.
pub struct FiniteFilter {
    pub binding: ColumnBinding,
    pub domain: IntegralDomain,
    pub point: u64,
    pub values: Set<u128>,
}

pub open spec fn coordinates_of(facts: Seq<ValueFact>) -> Set<u128> {
    facts.map_values(|fact: ValueFact| fact.coordinate).to_set()
}

/// The filter that values of one column make; none without a value, or where
/// the values belong to different columns.
pub open spec fn filter_of(facts: Seq<ValueFact>) -> Option<FiniteFilter> {
    if facts.len() > 0 && forall|i: int|
        0 <= i < facts.len() ==> same_column(#[trigger] facts[i], facts[0]) {
        Some(
            FiniteFilter {
                binding: facts[0].binding,
                domain: facts[0].domain,
                point: facts[0].point,
                values: coordinates_of(facts),
            },
        )
    } else {
        None
    }
}

pub open spec fn terms_filter(
    nodes: Seq<PredicateNode>,
    terms: Seq<(usize, u64)>,
    form: ValueForm,
) -> Option<FiniteFilter> {
    match all_facts(nodes, terms, form, terms.len()) {
        Some(facts) => filter_of(facts),
        None => None,
    }
}

pub open spec fn may_be_finite(node: PredicateNode) -> bool {
    match node.kind {
        PredicateKind::Or => true,
        PredicateKind::Comparison(comparison) => comparison is Equal,
        PredicateKind::Operator(operator) => operator is In,
        _ => false,
    }
}

/// The finite filter that node `n` is: an equality, a membership test, or a
/// disjunction of them.
pub open spec fn finite_filter(nodes: Seq<PredicateNode>, n: int) -> Option<FiniteFilter> {
    if may_be_finite(nodes[n]) {
        terms_filter(
            nodes,
            associative_terms(nodes, ConjunctionType::Or, seq![n as usize]),
            ValueForm::Filter,
        )
    } else {
        None
    }
}

/// A finite, non-null integral filter domain. This is an estimation input, not
/// permission to drop a predicate or to claim a bound on rows.
#[derive(Debug)]
pub struct FiniteFilterEstimate {
    pub binding: ColumnBinding,
    pub domain: IntegralDomain,
    pub point: u64,
    pub values: CoordinateSet,
}

impl View for FiniteFilterEstimate {
    type V = FiniteFilter;

    open spec fn view(&self) -> FiniteFilter {
        FiniteFilter {
            binding: self.binding,
            domain: self.domain,
            point: self.point,
            values: self.values@,
        }
    }
}

pub open spec fn filter_view(filter: Option<FiniteFilterEstimate>) -> Option<FiniteFilter> {
    match filter {
        Some(filter) => Some(filter@),
        None => None,
    }
}

/// Steps to read the constants from position `i` on as integral values: one for
/// each, up to the first that is none.
pub open spec fn integral_work(nodes: Seq<PredicateNode>, constants: Seq<usize>, i: nat) -> nat
    decreases constants.len() - i,
{
    if i >= constants.len() {
        0
    } else if integral_literal(nodes[constants[i as int] as int]) is None {
        1
    } else {
        1 + integral_work(nodes, constants, i + 1)
    }
}

/// Steps to read the values of a column; none where the column is not known
/// well enough.
pub open spec fn column_work(nodes: Seq<PredicateNode>, column: int, constants: Seq<usize>) -> nat {
    if column_of(nodes[column]) is Some && point_of(nodes[column]) is Some {
        integral_work(nodes, constants, 0)
    } else {
        0
    }
}

/// Appends the values that constants of a column stand for; whether all of it
/// is known well enough. A step is taken for each of several constants.
fn push_column_facts<A: WorkAdmission>(
    graph: &PredicateGraph,
    column: usize,
    constants: &NodeSequence,
    stepwise: bool,
    work: &mut SelectivityWork<A>,
    facts: &mut Vec<ValueFact>,
) -> (r: Result<bool, SelectivityStop<A::Error>>)
    requires
        column < graph.nodes@.len(),
        are_nodes(graph.nodes@, constants@),
    ensures
        r matches Ok(known) ==> match column_facts(graph.nodes@, column as int, constants@) {
            Some(more) => known && final(facts)@ == old(facts)@ + more,
            None => !known,
        },
        is_run::<A>(old(work).answers(), final(work).answers(), stopped(r)),
        takes::<A>(
            old(work).answers(),
            final(work).answers(),
            stopped(r),
            if stepwise {
                column_work(graph.nodes@, column as int, constants@)
            } else {
                0
            },
        ),
{
    let (Some(binding), Some(point)) = (
        node_binding(&graph.nodes[column]),
        node_point(&graph.nodes[column]),
    ) else {
        return Ok(false);
    };
    let ghost nodes = graph.nodes@;
    let ghost wanted = constants@.map_values(
        |constant: usize|
            {
                let value = integral_literal(nodes[constant as int])->0;
                ValueFact { binding, domain: value.domain, point, coordinate: value.coordinate }
            },
    );
    let mut i: usize = 0;
    assert(facts@ =~= old(facts)@ + wanted.take(0));
    while i < constants.len()
        invariant
            nodes == graph.nodes@,
            are_nodes(nodes, constants@),
            i <= constants@.len(),
            is_run::<A>(old(work).answers(), work.answers(), None),
            work.answers().len() == old(work).answers().len() + if stepwise {
                i as nat
            } else {
                0
            },
            integral_work(nodes, constants@, 0) == i + integral_work(nodes, constants@, i as nat),
            column_of(nodes[column as int]) == Some(binding),
            point_of(nodes[column as int]) == Some(point),
            wanted == constants@.map_values(
                |constant: usize|
                    {
                        let value = integral_literal(nodes[constant as int])->0;
                        ValueFact {
                            binding,
                            domain: value.domain,
                            point,
                            coordinate: value.coordinate,
                        }
                    },
            ),
            facts@ == old(facts)@ + wanted.take(i as int),
            forall|k: int|
                0 <= k < i ==> integral_literal(nodes[#[trigger] constants@[k] as int]) is Some,
        decreases constants@.len() - i,
    {
        if stepwise {
            if let Err(stop) = work.take_step() {
                return Err(stop);
            }
        }
        let constant: usize = constants.get(i);
        let Some(value) = node_coordinate(&graph.nodes[constant]) else {
            assert(integral_literal(nodes[constants@[i as int] as int]) is None);
            return Ok(false);
        };
        facts.push(
            ValueFact { binding, domain: value.domain, point, coordinate: value.coordinate },
        );
        proof {
            assert(wanted.take(i + 1) =~= wanted.take(i as int).push(wanted[i as int]));
            assert(facts@ =~= old(facts)@ + wanted.take(i + 1));
        }
        i = i + 1;
    }
    assert(wanted.take(i as int) =~= wanted);
    Ok(true)
}

/// Whether all of the nodes are constants.
pub open spec fn all_literals(nodes: Seq<PredicateNode>, list: Seq<usize>) -> bool {
    forall|i: int| 0 <= i < list.len() ==> literal_of(nodes[#[trigger] list[i] as int]) is Some
}

/// Steps to read the operands from position `i` on as constants: one for each,
/// up to the first that is none.
pub open spec fn operand_work(nodes: Seq<PredicateNode>, children: Seq<usize>, i: nat) -> nat
    decreases children.len() - i,
{
    if i >= children.len() {
        0
    } else if literal_of(nodes[children[i as int] as int]) is None {
        1
    } else {
        1 + operand_work(nodes, children, i + 1)
    }
}

/// The operands of a membership test after the column; none where one of them
/// is no constant.
fn constant_operands<A: WorkAdmission>(
    graph: &PredicateGraph,
    n: usize,
    work: &mut SelectivityWork<A>,
) -> (r: Result<Option<NodeSequence>, SelectivityStop<A::Error>>)
    requires
        graph.wf(),
        n < graph.nodes@.len(),
        graph.nodes@[n as int].children@.len() > 0,
    ensures
        r matches Ok(found) ==> {
            let operands = graph.nodes@[n as int].children@.skip(1);
            match found {
                Some(constants) => {
                    &&& constants@ == operands
                    &&& are_nodes(graph.nodes@, operands)
                    &&& all_literals(graph.nodes@, operands)
                },
                None => exists|i: int|
                    0 <= i < operands.len() && literal_of(
                        graph.nodes@[#[trigger] operands[i] as int],
                    ) is None,
            }
        },
        is_run::<A>(old(work).answers(), final(work).answers(), stopped(r)),
        takes::<A>(
            old(work).answers(),
            final(work).answers(),
            stopped(r),
            operand_work(graph.nodes@, graph.nodes@[n as int].children@, 1),
        ),
{
    let ghost children = graph.nodes@[n as int].children@;
    let mut constants = NodeSequence::new();
    let mut i: usize = 1;
    assert(node_wf(graph.nodes@, n as int));
    assert(children.subrange(1, 1) =~= Seq::<usize>::empty());
    while i < graph.nodes[n].children.len()
        invariant
            n < graph.nodes@.len(),
            node_wf(graph.nodes@, n as int),
            children == graph.nodes@[n as int].children@,
            1 <= i <= children.len(),
            constants@ == children.subrange(1, i as int),
            all_literals(graph.nodes@, constants@),
            is_run::<A>(old(work).answers(), work.answers(), None),
            work.answers().len() == old(work).answers().len() + i - 1,
            operand_work(graph.nodes@, children, 1) == i - 1 + operand_work(
                graph.nodes@,
                children,
                i as nat,
            ),
        decreases children.len() - i,
    {
        if let Err(stop) = work.take_step() {
            return Err(stop);
        }
        let operand: usize = graph.nodes[n].children[i];
        assert(children[i as int] < n);
        if node_constant(&graph.nodes[operand]).is_none() {
            assert(children.skip(1)[i - 1] == operand);
            return Ok(None);
        }
        constants.push(operand);
        assert(constants@ =~= children.subrange(1, i + 1));
        i = i + 1;
    }
    assert(constants@ =~= children.skip(1));
    assert forall|k: int| 0 <= k < children.skip(1).len() implies (#[trigger] children.skip(1)[k])
        < graph.nodes@.len() by {
        assert(children[k + 1] < n);
    }
    Ok(Some(constants))
}

fn value_comparison(comparison: ComparisonType, form: ValueForm) -> (r: bool)
    ensures
        r == is_value_comparison(comparison, form),
{
    match (comparison, form) {
        (ComparisonType::Equal, _) => true,
        (ComparisonType::NotDistinctFrom, ValueForm::Disjoint) => true,
        _ => false,
    }
}

/// Steps to read the values that one predicate admits.
pub open spec fn term_work(nodes: Seq<PredicateNode>, n: int, form: ValueForm) -> nat {
    if !nodes[n].shareable || form is Disjoint {
        0
    } else {
        let children = nodes[n].children@;
        match nodes[n].kind {
            PredicateKind::Comparison(comparison) => if is_value_comparison(comparison, form) {
                match column_comparison(nodes, n) {
                    Some(found) => column_work(nodes, found.column as int, seq![found.constant]),
                    None => 0,
                }
            } else {
                0
            },
            PredicateKind::Operator(OperatorType::In) => if children.len() == 0 {
                0
            } else {
                operand_work(nodes, children, 1) + if all_literals(nodes, children.skip(1)) {
                    column_work(nodes, children[0] as int, children.skip(1))
                } else {
                    0
                }
            },
            _ => 0,
        }
    }
}

/// Appends the values that one predicate admits; whether it admits finitely
/// many that are known.
fn push_term_facts<A: WorkAdmission>(
    graph: &PredicateGraph,
    n: usize,
    form: ValueForm,
    work: &mut SelectivityWork<A>,
    facts: &mut Vec<ValueFact>,
) -> (r: Result<bool, SelectivityStop<A::Error>>)
    requires
        graph.wf(),
        n < graph.nodes@.len(),
    ensures
        r matches Ok(known) ==> match term_facts(graph.nodes@, n as int, form) {
            Some(more) => known && final(facts)@ == old(facts)@ + more,
            None => !known,
        },
        is_run::<A>(old(work).answers(), final(work).answers(), stopped(r)),
        takes::<A>(
            old(work).answers(),
            final(work).answers(),
            stopped(r),
            term_work(graph.nodes@, n as int, form),
        ),
{
    assert(node_wf(graph.nodes@, n as int));
    if !graph.nodes[n].shareable {
        return Ok(false);
    }
    match &graph.nodes[n].kind {
        PredicateKind::Comparison(comparison) => {
            if !value_comparison(*comparison, form) {
                return Ok(false);
            }
            let Some(found) = column_constant_comparison(graph, n) else {
                return Ok(false);
            };
            let mut constants = NodeSequence::new();
            constants.push(found.constant);
            assert(constants@ =~= seq![found.constant]);
            let stepwise: bool = match form {
                ValueForm::Filter => true,
                ValueForm::Disjoint => false,
            };
            push_column_facts(graph, found.column, &constants, stepwise, work, facts)
        },
        PredicateKind::Operator(OperatorType::In) => {
            match form {
                ValueForm::Disjoint => {
                    return Ok(false);
                },
                ValueForm::Filter => {},
            }
            if graph.nodes[n].children.len() == 0 {
                return Ok(false);
            }
            let column: usize = graph.nodes[n].children[0];
            match constant_operands(graph, n, work) {
                Ok(Some(constants)) => push_column_facts(
                    graph,
                    column,
                    &constants,
                    true,
                    work,
                    facts,
                ),
                Ok(None) => Ok(false),
                Err(stop) => Err(stop),
            }
        },
        _ => Ok(false),
    }
}

/// Steps to read the values of the terms from position `j` on, up to the first
/// that admits no known values.
pub open spec fn facts_work(
    nodes: Seq<PredicateNode>,
    terms: Seq<(usize, u64)>,
    form: ValueForm,
    j: nat,
) -> nat
    decreases terms.len() - j,
{
    if j >= terms.len() {
        0
    } else {
        let n = terms[j as int].0 as int;
        1 + term_work(nodes, n, form) + if term_facts(nodes, n, form) is None {
            0
        } else {
            facts_work(nodes, terms, form, j + 1)
        }
    }
}

/// The values that all terms admit together.
fn collect_facts<A: WorkAdmission>(
    graph: &PredicateGraph,
    terms: &NodeList,
    form: ValueForm,
    work: &mut SelectivityWork<A>,
) -> (r: Result<Option<Vec<ValueFact>>, SelectivityStop<A::Error>>)
    requires
        graph.wf(),
        forall|j: int| 0 <= j < terms@.len() ==> (#[trigger] terms@[j]).0 < graph.nodes@.len(),
    ensures
        r matches Ok(found) ==> match all_facts(graph.nodes@, terms@, form, terms@.len()) {
            Some(facts) => found matches Some(list) && list@ == facts,
            None => found is None,
        },
        is_run::<A>(old(work).answers(), final(work).answers(), stopped(r)),
        takes::<A>(
            old(work).answers(),
            final(work).answers(),
            stopped(r),
            facts_work(graph.nodes@, terms@, form, 0),
        ),
{
    let mut facts: Vec<ValueFact> = Vec::new();
    let mut j: usize = 0;
    while j < terms.len()
        invariant
            graph.wf(),
            forall|j: int|
                0 <= j < terms@.len() ==> (#[trigger] terms@[j]).0 < graph.nodes@.len(),
            j <= terms@.len(),
            is_run::<A>(old(work).answers(), work.answers(), None),
            work.answers().len() >= old(work).answers().len(),
            work.answers().len() + facts_work(graph.nodes@, terms@, form, j as nat) == old(
                work,
            ).answers().len() + facts_work(graph.nodes@, terms@, form, 0),
            all_facts(graph.nodes@, terms@, form, j as nat) == Some(facts@),
        decreases terms@.len() - j,
    {
        if let Err(stop) = work.take_step() {
            return Err(stop);
        }
        let n: usize = terms.get(j).0;
        let known: bool = match push_term_facts(graph, n, form, work, &mut facts) {
            Ok(known) => known,
            Err(stop) => {
                return Err(stop);
            },
        };
        if !known {
            proof {
                lemma_unknown_stays(
                    graph.nodes@,
                    terms@,
                    form,
                    (j + 1) as nat,
                    terms@.len(),
                );
            }
            return Ok(None);
        }
        j = j + 1;
    }
    Ok(Some(facts))
}

proof fn lemma_unknown_stays(
    nodes: Seq<PredicateNode>,
    terms: Seq<(usize, u64)>,
    form: ValueForm,
    k: nat,
    m: nat,
)
    requires
        k <= m <= terms.len(),
        all_facts(nodes, terms, form, k) is None,
    ensures
        all_facts(nodes, terms, form, m) is None,
    decreases m,
{
    if k < m {
        lemma_unknown_stays(nodes, terms, form, k, (m - 1) as nat);
    }
}

/// The filter that values of one column make.
fn build_filter(facts: &Vec<ValueFact>) -> (r: Option<FiniteFilterEstimate>)
    ensures
        filter_view(r) == filter_of(facts@),
{
    if facts.len() == 0 {
        return None;
    }
    let first = facts[0];
    let mut values = CoordinateSet::new();
    let ghost found = facts@.map_values(|fact: ValueFact| fact.coordinate);
    let mut i: usize = 0;
    assert(found.take(0).to_set() =~= Set::<u128>::empty());
    while i < facts.len()
        invariant
            i <= facts@.len(),
            facts@.len() > 0,
            first == facts@[0],
            found == facts@.map_values(|fact: ValueFact| fact.coordinate),
            forall|k: int| 0 <= k < i ==> same_column(#[trigger] facts@[k], first),
            values@ == found.take(i as int).to_set(),
        decreases facts@.len() - i,
    {
        let fact = facts[i];
        if fact.binding != first.binding || fact.domain != first.domain || fact.point
            != first.point {
            assert(!same_column(facts@[i as int], facts@[0]));
            return None;
        }
        values.insert(fact.coordinate);
        proof {
            let before = found.take(i as int);
            assert(found.take(i + 1) =~= before.push(fact.coordinate));
            assert(before.push(fact.coordinate).to_set() =~= before.to_set().insert(
                fact.coordinate,
            )) by {
                assert forall|x: u128| #[trigger]
                    before.push(fact.coordinate).to_set().contains(x)
                        <==> before.to_set().insert(fact.coordinate).contains(x) by {
                    if before.to_set().contains(x) {
                        let k = choose|k: int| 0 <= k < before.len() && before[k] == x;
                        assert(before.push(fact.coordinate)[k] == x);
                    }
                    if x == fact.coordinate {
                        assert(before.push(fact.coordinate)[before.len() as int] == x);
                    }
                }
            }
        }
        i = i + 1;
    }
    assert(found.take(i as int) =~= found);
    Some(
        FiniteFilterEstimate {
            binding: first.binding,
            domain: first.domain,
            point: first.point,
            values,
        },
    )
}

/// Steps that it takes to find the finite filter of a predicate.
pub open spec fn filter_work(nodes: Seq<PredicateNode>, n: int) -> nat {
    let roots = seq![n as usize];
    if may_be_finite(nodes[n]) {
        flatten_work(nodes, ConjunctionType::Or, roots) + facts_work(
            nodes,
            associative_terms(nodes, ConjunctionType::Or, roots),
            ValueForm::Filter,
            0,
        )
    } else {
        0
    }
}

/// The finite filter that a predicate is, if it is one.
pub fn finite_filter_estimate<A: WorkAdmission>(
    graph: &PredicateGraph,
    n: usize,
    work: &mut SelectivityWork<A>,
) -> (r: Result<Option<FiniteFilterEstimate>, SelectivityStop<A::Error>>)
    requires
        graph.wf(),
        n < graph.nodes@.len(),
    ensures
        r matches Ok(found) ==> filter_view(found) == finite_filter(graph.nodes@, n as int),
        is_run::<A>(old(work).answers(), final(work).answers(), stopped(r)),
        takes::<A>(
            old(work).answers(),
            final(work).answers(),
            stopped(r),
            filter_work(graph.nodes@, n as int),
        ),
{
    let possible: bool = match &graph.nodes[n].kind {
        PredicateKind::Or => true,
        PredicateKind::Comparison(comparison) => matches!(comparison, ComparisonType::Equal),
        PredicateKind::Operator(operator) => matches!(operator, OperatorType::In),
        _ => false,
    };
    if !possible {
        return Ok(None);
    }
    let mut roots: Vec<usize> = Vec::new();
    roots.push(n);
    assert(roots@ =~= seq![n]);
    let terms = match flatten_associative(graph, &roots, ConjunctionType::Or, work) {
        Ok(terms) => terms,
        Err(stop) => {
            return Err(stop);
        },
    };
    let answer = match collect_facts(graph, &terms, ValueForm::Filter, work) {
        Ok(answer) => answer,
        Err(stop) => {
            return Err(stop);
        },
    };
    match answer {
        Some(facts) => Ok(build_filter(&facts)),
        None => Ok(None),
    }
}

/// The filter that equalities on one integral column make together. Different
/// values of a column are disjoint events, not independent ones, so a union of
/// them is measured as one domain.
pub fn disjoint_equality_estimate<A: WorkAdmission>(
    graph: &PredicateGraph,
    terms: &NodeList,
    work: &mut SelectivityWork<A>,
) -> (r: Result<Option<FiniteFilterEstimate>, SelectivityStop<A::Error>>)
    requires
        graph.wf(),
        forall|j: int| 0 <= j < terms@.len() ==> (#[trigger] terms@[j]).0 < graph.nodes@.len(),
    ensures
        r matches Ok(found) ==> filter_view(found) == terms_filter(
            graph.nodes@,
            terms@,
            ValueForm::Disjoint,
        ),
        is_run::<A>(old(work).answers(), final(work).answers(), stopped(r)),
        takes::<A>(
            old(work).answers(),
            final(work).answers(),
            stopped(r),
            facts_work(graph.nodes@, terms@, ValueForm::Disjoint, 0),
        ),
{
    let answer = match collect_facts(graph, terms, ValueForm::Disjoint, work) {
        Ok(answer) => answer,
        Err(stop) => {
            return Err(stop);
        },
    };
    match answer {
        Some(facts) => Ok(build_filter(&facts)),
        None => Ok(None),
    }
}

} // verus!
