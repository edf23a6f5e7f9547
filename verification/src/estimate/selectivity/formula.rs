//! How the selectivity of each predicate is computed from evidence and from
//! the selectivities of other predicates.

use vstd::prelude::*;

use crate::estimate::selectivity::conjunction::{
    are_scopes, conjunction, conjunction_terms, conjunction_work, ConjunctionTerm,
};
use crate::estimate::selectivity::finite::{
    disjoint_equality_estimate, facts_work, terms_filter, ValueForm,
};
use crate::estimate::selectivity::flatten::{
    associative_terms, flatten_associative, flatten_work, lists,
};
use crate::estimate::selectivity::like::{
    like_pattern_shape, optional_view, value_shape, LikePatternShape, WildcardLikePattern,
};
use crate::estimate::selectivity::predicate::{
    column_comparison, column_constant_comparison, evidence_of, literal_of, node_constant,
    node_evidence, node_point, node_wf, point_of, ColumnScope, PredicateGraph, PredicateKind,
    PredicateNode,
};
use crate::estimate::selectivity::range::{estimate_range_selectivity, range_measure, RangeMeasure};
use crate::estimate::selectivity::work::{
    group_runs, is_run, stopped, takes, SelectivityStop, SelectivityWork, WorkAdmission,
};
use crate::expression::Intrinsic;
use crate::types::{ComparisonType, ConjunctionType, OperatorType};
use crate::value::{Value, ValueView};

verus! {

broadcast use group_runs;

/// Selectivities that apply where nothing is known.
#[derive(Clone, Copy, Debug, PartialEq, Eq, Structural)]
pub enum DefaultSelectivity {
    Equality,
    Range,
    Predicate,
    FullTextMatch,
    VectorTopK,
    IsNotNull,
}

/// Membership in a list.
#[derive(Clone, Copy, Debug, PartialEq, Eq, Structural)]
pub enum Membership {
    /// There is nothing to look up.
    Unknown,
    /// This many values are looked up among the distinct values of the
    /// column, where their number is known.
    Probes { probes: u64, distinct: Option<u64> },
}

/// The selectivity of a predicate that does not combine others.
#[derive(Clone, Copy, Debug, PartialEq, Eq, Structural)]
pub enum AtomicSelectivity {
    /// Certain: all rows pass, or none does.
    Proven { passes: bool },
    Default(DefaultSelectivity),
    /// What a default leaves.
    DefaultComplement(DefaultSelectivity),
    /// One of so many values passes.
    OneIn(u64),
    /// All but one of so many values pass.
    AllButOneIn(u64),
    /// So many of all representable values pass.
    Share { matching: u128, domain: u128 },
    /// A comparison with a constant under the column's normal distribution.
    Distribution { column: usize, constant: usize, comparison: ComparisonType },
    /// A comparison with a constant between continuous bounds.
    Continuous { column: usize, constant: usize, comparison: ComparisonType },
    /// A pattern that matches every text.
    EveryText,
    Wildcard(WildcardLikePattern),
    Member(Membership),
    NonMember(Membership),
}

pub open spec fn comparison_default(comparison: ComparisonType) -> DefaultSelectivity {
    match comparison {
        ComparisonType::LessThan => DefaultSelectivity::Range,
        ComparisonType::LessThanOrEqual => DefaultSelectivity::Range,
        ComparisonType::GreaterThan => DefaultSelectivity::Range,
        ComparisonType::GreaterThanOrEqual => DefaultSelectivity::Range,
        _ => DefaultSelectivity::Equality,
    }
}

pub fn default_for_comparison(comparison: ComparisonType) -> (r: DefaultSelectivity)
    ensures
        r == comparison_default(comparison),
{
    match comparison {
        ComparisonType::LessThan => DefaultSelectivity::Range,
        ComparisonType::LessThanOrEqual => DefaultSelectivity::Range,
        ComparisonType::GreaterThan => DefaultSelectivity::Range,
        ComparisonType::GreaterThanOrEqual => DefaultSelectivity::Range,
        _ => DefaultSelectivity::Equality,
    }
}

/// The selectivity of the comparison that node `n` makes.
pub open spec fn comparison_selectivity(
    nodes: Seq<PredicateNode>,
    n: int,
    comparison: ComparisonType,
) -> AtomicSelectivity {
    let otherwise = AtomicSelectivity::Default(comparison_default(comparison));
    match column_comparison(nodes, n) {
        Some(found) => match evidence_of(nodes[found.column as int]) {
            Some(evidence) => match found.comparison {
                ComparisonType::Equal | ComparisonType::NotDistinctFrom => match point_of(
                    nodes[found.column as int],
                ) {
                    Some(distinct) => AtomicSelectivity::OneIn(distinct),
                    None => otherwise,
                },
                ComparisonType::NotEqual | ComparisonType::DistinctFrom => match point_of(
                    nodes[found.column as int],
                ) {
                    Some(distinct) => AtomicSelectivity::AllButOneIn(distinct),
                    None => otherwise,
                },
                _ => match range_measure(
                    evidence,
                    literal_of(nodes[found.constant as int])->0@,
                    found.comparison,
                ) {
                    RangeMeasure::Unknown => AtomicSelectivity::Default(DefaultSelectivity::Range),
                    RangeMeasure::Share { matching, domain } => AtomicSelectivity::Share {
                        matching,
                        domain,
                    },
                    RangeMeasure::Distribution => AtomicSelectivity::Distribution {
                        column: found.column,
                        constant: found.constant,
                        comparison: found.comparison,
                    },
                    RangeMeasure::Continuous => AtomicSelectivity::Continuous {
                        column: found.column,
                        constant: found.constant,
                        comparison: found.comparison,
                    },
                },
            },
            None => otherwise,
        },
        None => otherwise,
    }
}

/// The selectivity of a comparison.
fn estimate_comparison_selectivity(
    graph: &PredicateGraph,
    n: usize,
    comparison: ComparisonType,
) -> (r: AtomicSelectivity)
    requires
        graph.wf(),
        n < graph.nodes@.len(),
    ensures
        r == comparison_selectivity(graph.nodes@, n as int, comparison),
{
    let otherwise = AtomicSelectivity::Default(default_for_comparison(comparison));
    let Some(found) = column_constant_comparison(graph, n) else {
        return otherwise;
    };
    let Some(evidence) = node_evidence(&graph.nodes[found.column]) else {
        return otherwise;
    };
    match found.comparison {
        ComparisonType::Equal | ComparisonType::NotDistinctFrom => match node_point(
            &graph.nodes[found.column],
        ) {
            Some(distinct) => AtomicSelectivity::OneIn(distinct),
            None => otherwise,
        },
        ComparisonType::NotEqual | ComparisonType::DistinctFrom => match node_point(
            &graph.nodes[found.column],
        ) {
            Some(distinct) => AtomicSelectivity::AllButOneIn(distinct),
            None => otherwise,
        },
        _ => {
            let Some(constant) = node_constant(&graph.nodes[found.constant]) else {
                return otherwise;
            };
            match estimate_range_selectivity(evidence, constant, found.comparison) {
                RangeMeasure::Unknown => AtomicSelectivity::Default(DefaultSelectivity::Range),
                RangeMeasure::Share { matching, domain } => AtomicSelectivity::Share {
                    matching,
                    domain,
                },
                RangeMeasure::Distribution => AtomicSelectivity::Distribution {
                    column: found.column,
                    constant: found.constant,
                    comparison: found.comparison,
                },
                RangeMeasure::Continuous => AtomicSelectivity::Continuous {
                    column: found.column,
                    constant: found.constant,
                    comparison: found.comparison,
                },
            }
        },
    }
}

/// The pattern that a LIKE compares with.
pub open spec fn pattern_of(nodes: Seq<PredicateNode>, n: int) -> Option<ValueView> {
    if nodes[n].children@.len() > 1 {
        match literal_of(nodes[nodes[n].children@[1] as int]) {
            Some(value) => Some(value@),
            None => None,
        }
    } else {
        None
    }
}

/// The selectivity of a pattern match. Case folding can merge stored values,
/// so the distinct count measures exact patterns only where case matters.
pub open spec fn like_selectivity(
    nodes: Seq<PredicateNode>,
    n: int,
    folds_case: bool,
) -> AtomicSelectivity {
    match value_shape(pattern_of(nodes, n)) {
        LikePatternShape::MatchAll => AtomicSelectivity::EveryText,
        LikePatternShape::Exact => match point_of(nodes[nodes[n].children@[0] as int]) {
            Some(distinct) => if folds_case {
                AtomicSelectivity::Default(DefaultSelectivity::Equality)
            } else {
                AtomicSelectivity::OneIn(distinct)
            },
            None => AtomicSelectivity::Default(DefaultSelectivity::Equality),
        },
        LikePatternShape::Wildcard(pattern) => AtomicSelectivity::Wildcard(pattern),
        LikePatternShape::Generic => AtomicSelectivity::Default(DefaultSelectivity::Predicate),
    }
}

fn estimate_like_selectivity(graph: &PredicateGraph, n: usize, folds_case: bool) -> (r:
    AtomicSelectivity)
    requires
        graph.wf(),
        n < graph.nodes@.len(),
    ensures
        r == like_selectivity(graph.nodes@, n as int, folds_case),
{
    assert(node_wf(graph.nodes@, n as int));
    let pattern: Option<&Value> = if graph.nodes[n].children.len() > 1 {
        node_constant(&graph.nodes[graph.nodes[n].children[1]])
    } else {
        None
    };
    assert(optional_view(pattern) == pattern_of(graph.nodes@, n as int));
    match like_pattern_shape(pattern) {
        LikePatternShape::MatchAll => AtomicSelectivity::EveryText,
        LikePatternShape::Exact => {
            if folds_case {
                return AtomicSelectivity::Default(DefaultSelectivity::Equality);
            }
            assert(graph.nodes@[n as int].children@.len() > 1);
            match node_point(&graph.nodes[graph.nodes[n].children[0]]) {
                Some(distinct) => AtomicSelectivity::OneIn(distinct),
                None => AtomicSelectivity::Default(DefaultSelectivity::Equality),
            }
        },
        LikePatternShape::Wildcard(pattern) => AtomicSelectivity::Wildcard(pattern),
        LikePatternShape::Generic => AtomicSelectivity::Default(DefaultSelectivity::Predicate),
    }
}

/// The values that a membership test looks up, and the column's distinct
/// count.
pub open spec fn membership(nodes: Seq<PredicateNode>, n: int) -> Membership {
    let children = nodes[n].children@;
    if children.len() == 0 {
        Membership::Unknown
    } else {
        Membership::Probes {
            probes: if children.len() > 2 {
                (children.len() - 1) as u64
            } else {
                1
            },
            distinct: point_of(nodes[children[0] as int]),
        }
    }
}

fn estimate_in_selectivity(graph: &PredicateGraph, n: usize) -> (r: Membership)
    requires
        graph.wf(),
        n < graph.nodes@.len(),
    ensures
        r == membership(graph.nodes@, n as int),
{
    assert(node_wf(graph.nodes@, n as int));
    let count: usize = graph.nodes[n].children.len();
    if count == 0 {
        return Membership::Unknown;
    }
    Membership::Probes {
        probes: if count > 2 {
            (count - 1) as u64
        } else {
            1
        },
        distinct: node_point(&graph.nodes[graph.nodes[n].children[0]]),
    }
}

/// The selectivity of node `n` on its own.
pub open spec fn atomic_selectivity(nodes: Seq<PredicateNode>, n: int) -> AtomicSelectivity {
    match nodes[n].kind {
        PredicateKind::Constant(value) => match value@ {
            ValueView::Plain(Value::Boolean(passes)) => AtomicSelectivity::Proven { passes },
            _ => AtomicSelectivity::Default(DefaultSelectivity::Predicate),
        },
        PredicateKind::Comparison(comparison) => comparison_selectivity(nodes, n, comparison),
        PredicateKind::Operator(operator) => match operator {
            OperatorType::Like => like_selectivity(nodes, n, false),
            OperatorType::ILike => like_selectivity(nodes, n, true),
            OperatorType::IsNull => AtomicSelectivity::DefaultComplement(
                DefaultSelectivity::IsNotNull,
            ),
            OperatorType::IsNotNull => AtomicSelectivity::Default(DefaultSelectivity::IsNotNull),
            OperatorType::In => AtomicSelectivity::Member(membership(nodes, n)),
            OperatorType::NotIn => AtomicSelectivity::NonMember(membership(nodes, n)),
            _ => AtomicSelectivity::Default(DefaultSelectivity::Predicate),
        },
        PredicateKind::Function(intrinsic) => match intrinsic {
            Intrinsic::FullText => AtomicSelectivity::Default(DefaultSelectivity::FullTextMatch),
            Intrinsic::VectorDistance => AtomicSelectivity::Default(DefaultSelectivity::VectorTopK),
            Intrinsic::Other => AtomicSelectivity::Default(DefaultSelectivity::Predicate),
        },
        _ => AtomicSelectivity::Default(DefaultSelectivity::Predicate),
    }
}

/// The selectivity of a predicate on its own. Only a Boolean literal is
/// certain.
pub fn estimate_atomic_selectivity(graph: &PredicateGraph, n: usize) -> (r: AtomicSelectivity)
    requires
        graph.wf(),
        n < graph.nodes@.len(),
    ensures
        r == atomic_selectivity(graph.nodes@, n as int),
{
    match &graph.nodes[n].kind {
        PredicateKind::Constant(value) => match value {
            Value::Boolean(passes) => AtomicSelectivity::Proven { passes: *passes },
            _ => AtomicSelectivity::Default(DefaultSelectivity::Predicate),
        },
        PredicateKind::Comparison(comparison) => estimate_comparison_selectivity(
            graph,
            n,
            *comparison,
        ),
        PredicateKind::Operator(operator) => match operator {
            OperatorType::Like => estimate_like_selectivity(graph, n, false),
            OperatorType::ILike => estimate_like_selectivity(graph, n, true),
            OperatorType::IsNull => AtomicSelectivity::DefaultComplement(
                DefaultSelectivity::IsNotNull,
            ),
            OperatorType::IsNotNull => AtomicSelectivity::Default(DefaultSelectivity::IsNotNull),
            OperatorType::In => AtomicSelectivity::Member(estimate_in_selectivity(graph, n)),
            OperatorType::NotIn => AtomicSelectivity::NonMember(estimate_in_selectivity(graph, n)),
            _ => AtomicSelectivity::Default(DefaultSelectivity::Predicate),
        },
        PredicateKind::Function(intrinsic) => match intrinsic {
            Intrinsic::FullText => AtomicSelectivity::Default(DefaultSelectivity::FullTextMatch),
            Intrinsic::VectorDistance => AtomicSelectivity::Default(DefaultSelectivity::VectorTopK),
            Intrinsic::Other => AtomicSelectivity::Default(DefaultSelectivity::Predicate),
        },
        _ => AtomicSelectivity::Default(DefaultSelectivity::Predicate),
    }
}

/// How the selectivity of a node comes about.
#[derive(Debug)]
pub enum NodeFormula {
    Atomic(AtomicSelectivity),
    /// All terms hold; terms of one relation are damped.
    And(Vec<ConjunctionTerm>),
    /// Some term holds; each counts as often as given.
    Or(Vec<(usize, u64)>),
    /// One of so many values of a column.
    Disjoint { matching: u128, domain: u128 },
    Not(usize),
}

pub enum FormulaView {
    Atomic(AtomicSelectivity),
    And(Seq<ConjunctionTerm>),
    Or(Seq<(usize, u64)>),
    Disjoint { matching: u128, domain: u128 },
    Not(usize),
}

impl View for NodeFormula {
    type V = FormulaView;

    open spec fn view(&self) -> FormulaView {
        match *self {
            NodeFormula::Atomic(atomic) => FormulaView::Atomic(atomic),
            NodeFormula::And(terms) => FormulaView::And(terms@),
            NodeFormula::Or(terms) => FormulaView::Or(terms@),
            NodeFormula::Disjoint { matching, domain } => FormulaView::Disjoint {
                matching,
                domain,
            },
            NodeFormula::Not(child) => FormulaView::Not(child),
        }
    }
}

/// How the selectivity of node `n` comes about.
pub open spec fn node_formula(nodes: Seq<PredicateNode>, n: int) -> FormulaView {
    match nodes[n].kind {
        PredicateKind::And => FormulaView::And(conjunction(nodes, seq![n as usize])),
        PredicateKind::Or => {
            let terms = associative_terms(nodes, ConjunctionType::Or, seq![n as usize]);
            match terms_filter(nodes, terms, ValueForm::Disjoint) {
                Some(filter) => FormulaView::Disjoint {
                    matching: filter.values.len() as u128,
                    domain: filter.point as u128,
                },
                None => FormulaView::Or(terms),
            }
        },
        PredicateKind::Operator(OperatorType::Not) => if nodes[n].children@.len() > 0 {
            FormulaView::Not(nodes[n].children@[0])
        } else {
            FormulaView::Atomic(atomic_selectivity(nodes, n))
        },
        _ => FormulaView::Atomic(atomic_selectivity(nodes, n)),
    }
}

/// Steps that it takes to find how the selectivity of a node comes about.
pub open spec fn formula_work(nodes: Seq<PredicateNode>, n: int) -> nat {
    let roots = seq![n as usize];
    match nodes[n].kind {
        PredicateKind::And => conjunction_work(nodes, roots),
        PredicateKind::Or => {
            let terms = associative_terms(nodes, ConjunctionType::Or, roots);
            flatten_work(nodes, ConjunctionType::Or, roots) + facts_work(
                nodes,
                terms,
                ValueForm::Disjoint,
                0,
            )
        },
        _ => 0,
    }
}

/// How the selectivity of a node comes about.
pub fn formula_of<A: WorkAdmission>(
    graph: &PredicateGraph,
    scopes: &Vec<ColumnScope>,
    n: usize,
    work: &mut SelectivityWork<A>,
) -> (r: Result<NodeFormula, SelectivityStop<A::Error>>)
    requires
        graph.wf(),
        are_scopes(graph.nodes@, scopes@),
        n < graph.nodes@.len(),
    ensures
        r matches Ok(formula) ==> formula@ == node_formula(graph.nodes@, n as int),
        is_run::<A>(old(work).answers(), final(work).answers(), stopped(r)),
        takes::<A>(
            old(work).answers(),
            final(work).answers(),
            stopped(r),
            formula_work(graph.nodes@, n as int),
        ),
{
    let mut roots: Vec<usize> = Vec::new();
    roots.push(n);
    assert(roots@ =~= seq![n]);
    match &graph.nodes[n].kind {
        PredicateKind::And => {
            let terms = match conjunction_terms(graph, scopes, &roots, work) {
                Ok(terms) => terms,
                Err(stop) => {
                    return Err(stop);
                },
            };
            Ok(NodeFormula::And(terms))
        },
        PredicateKind::Or => {
            let terms = match flatten_associative(graph, &roots, ConjunctionType::Or, work) {
                Ok(terms) => terms,
                Err(stop) => {
                    return Err(stop);
                },
            };
            let answer = match disjoint_equality_estimate(graph, &terms, work) {
                Ok(answer) => answer,
                Err(stop) => {
                    return Err(stop);
                },
            };
            match answer {
                Some(filter) => {
                    let count: usize = filter.values.len();
                    Ok(
                        NodeFormula::Disjoint {
                            matching: count as u128,
                            domain: filter.point as u128,
                        },
                    )
                },
                None => Ok(NodeFormula::Or(terms.to_vec())),
            }
        },
        PredicateKind::Operator(OperatorType::Not) => {
            if graph.nodes[n].children.len() > 0 {
                Ok(NodeFormula::Not(graph.nodes[n].children[0]))
            } else {
                Ok(NodeFormula::Atomic(estimate_atomic_selectivity(graph, n)))
            }
        },
        _ => Ok(NodeFormula::Atomic(estimate_atomic_selectivity(graph, n))),
    }
}

/// Whether a formula reads the selectivity of node `n`.
pub open spec fn reads(formula: FormulaView, n: int) -> bool {
    match formula {
        FormulaView::And(terms) => reads_term(terms, n),
        FormulaView::Or(terms) => lists(terms, n),
        FormulaView::Not(child) => child == n,
        _ => false,
    }
}

pub open spec fn reads_term(terms: Seq<ConjunctionTerm>, n: int) -> bool {
    exists|i: int|
        0 <= i < terms.len() && ((#[trigger] terms[i]) matches ConjunctionTerm::Input {
            node,
            ..
        } && node == n)
}

} // verus!
