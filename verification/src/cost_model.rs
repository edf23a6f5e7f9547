//! Selectivities read off the syntax of a predicate, without looking for parts
//! that it repeats. The caller evaluates them in floating point.

use vstd::prelude::*;

use crate::estimate::finite_filter::{all_conditions, conditions};
use crate::estimate::selectivity::conjunction::{
    coalesce_terms, coalesced, evidence_facts, ranges_wf, ConjunctionTerm, TermEvidence, TermFact,
};
use crate::estimate::selectivity::formula::{
    comparison_default, default_for_comparison, DefaultSelectivity, Membership,
};
use crate::estimate::selectivity::integral::{comparison_bound, range_bound};
use crate::estimate::selectivity::like::{
    like_pattern_shape, optional_view, pattern_shape, value_shape, LikePatternShape,
    WildcardLikePattern,
};
use crate::estimate::selectivity::predicate::{
    join_scopes, joined_scope, reverse_comparison, reversed, reversing_keeps_the_meaning,
    single_binding, single_column, ColumnScope,
};
use crate::estimate::selectivity::range::{
    bounded_range, bounded_range_constraint, bounds_measure, measure_bounds,
    IntegralRangeConstraint, RangeMeasure,
};
use crate::estimate::selectivity::resolve::{Resolution, StatisticsResolver};
use crate::expression::analysis::{any_mentions, lemma_view_children, mentions, views};
use crate::expression::meaning::reads_literals;
use crate::expression::{
    expression_view, ColumnRefExpression, Expression, ExpressionView, Intrinsic,
};
use crate::plan::CardinalityEstimate;
use crate::statistics::{ColumnStatistics, ColumnStatisticsLookup};
use crate::types::{ColumnBinding, ComparisonType, ConjunctionType, LogicalType, OperatorType};
use crate::value::{Value, ValueView};

verus! {

/// The column that a reference names, at whatever query level.
pub open spec fn named_binding(e: ExpressionView, resolution: Resolution) -> Option<ColumnBinding> {
    match e {
        ExpressionView::ColumnRef(column) => Some(column.binding),
        ExpressionView::Reference(reference) => match resolution.positions {
            Some(positions) => if reference.index < positions.len() {
                Some(positions[reference.index as int])
            } else {
                None
            },
            None => None,
        },
        _ => None,
    }
}

/// The statistics of the column that a reference names.
pub open spec fn named_statistics(e: ExpressionView, resolution: Resolution) -> Option<
    ColumnStatistics,
> {
    match named_binding(e, resolution) {
        Some(binding) => if resolution.known.contains_key(binding) {
            Some(resolution.known[binding])
        } else {
            None
        },
        None => None,
    }
}

/// The distinct values of the column that a reference names, where they are
/// counted.
pub open spec fn named_distinct(e: ExpressionView, resolution: Resolution) -> Option<u64> {
    match named_statistics(e, resolution) {
        Some(statistics) => if statistics.distinct.point == 0 {
            None
        } else {
            Some(statistics.distinct.point)
        },
        None => None,
    }
}

pub open spec fn is_column(e: ExpressionView) -> bool {
    e is ColumnRef || e is Reference
}

/// The column of a comparison with a constant, the constant, and how the
/// column compares to it.
pub open spec fn compared_column(
    comparison: ComparisonType,
    left: ExpressionView,
    right: ExpressionView,
) -> Option<(ExpressionView, ValueView, ComparisonType)> {
    match (left, right) {
        (_, ExpressionView::Constant(constant, _)) if is_column(left) => Some(
            (left, constant, comparison),
        ),
        (ExpressionView::Constant(constant, _), _) if is_column(right) => Some(
            (right, constant, reversed(comparison)),
        ),
        _ => None,
    }
}

fn column_constant_comparison(e: &Expression) -> (r: Option<(&Expression, &Value, ComparisonType)>)
    ensures
        e@ matches ExpressionView::Comparison(comparison, left, right) ==> match r {
            Some((column, constant, found)) => compared_column(comparison, *left, *right)
                == Some((column@, constant@, found)),
            None => compared_column(comparison, *left, *right) is None,
        },
        !(e@ is Comparison) ==> r is None,
{
    let Expression::Comparison(comparison) = e else {
        return None;
    };
    proof {
        reveal_with_fuel(expression_view, 2);
    }
    match (&comparison.left, &comparison.right) {
        (Expression::ColumnRef(_), Expression::Constant(constant)) => Some(
            (&comparison.left, &constant.value, comparison.comparison_type),
        ),
        (Expression::Reference(_), Expression::Constant(constant)) => Some(
            (&comparison.left, &constant.value, comparison.comparison_type),
        ),
        (Expression::Constant(constant), Expression::ColumnRef(_)) => Some(
            (
                &comparison.right,
                &constant.value,
                reverse_comparison(comparison.comparison_type),
            ),
        ),
        (Expression::Constant(constant), Expression::Reference(_)) => Some(
            (
                &comparison.right,
                &constant.value,
                reverse_comparison(comparison.comparison_type),
            ),
        ),
        _ => None,
    }
}

/// The selectivity of a predicate that does not combine others.
#[derive(Debug)]
pub enum AtomicEstimate {
    /// Certain: all rows pass, or none does.
    Proven { passes: bool },
    Default(DefaultSelectivity),
    /// What a default leaves.
    DefaultComplement(DefaultSelectivity),
    /// One of so many values passes.
    OneIn(u64),
    /// All but one of so many values pass.
    AllButOneIn(u64),
    /// So many of all representable values pass.
    Share { matching: u128, domain: u128 },
    /// A comparison with a constant between continuous bounds.
    Continuous { minimum: Value, maximum: Value, constant: Value, comparison: ComparisonType },
    /// A pattern that matches every text.
    EveryText,
    Wildcard(WildcardLikePattern),
    Member(Membership),
    NonMember(Membership),
}

pub enum AtomicEstimateView {
    Proven { passes: bool },
    Default(DefaultSelectivity),
    DefaultComplement(DefaultSelectivity),
    OneIn(u64),
    AllButOneIn(u64),
    Share { matching: u128, domain: u128 },
    Continuous {
        minimum: ValueView,
        maximum: ValueView,
        constant: ValueView,
        comparison: ComparisonType,
    },
    EveryText,
    Wildcard(WildcardLikePattern),
    Member(Membership),
    NonMember(Membership),
}

impl View for AtomicEstimate {
    type V = AtomicEstimateView;

    open spec fn view(&self) -> AtomicEstimateView {
        match *self {
            AtomicEstimate::Proven { passes } => AtomicEstimateView::Proven { passes },
            AtomicEstimate::Default(default) => AtomicEstimateView::Default(default),
            AtomicEstimate::DefaultComplement(default) => AtomicEstimateView::DefaultComplement(
                default,
            ),
            AtomicEstimate::OneIn(values) => AtomicEstimateView::OneIn(values),
            AtomicEstimate::AllButOneIn(values) => AtomicEstimateView::AllButOneIn(values),
            AtomicEstimate::Share { matching, domain } => AtomicEstimateView::Share {
                matching,
                domain,
            },
            AtomicEstimate::Continuous { minimum, maximum, constant, comparison } =>
                AtomicEstimateView::Continuous {
                minimum: minimum@,
                maximum: maximum@,
                constant: constant@,
                comparison,
            },
            AtomicEstimate::EveryText => AtomicEstimateView::EveryText,
            AtomicEstimate::Wildcard(pattern) => AtomicEstimateView::Wildcard(pattern),
            AtomicEstimate::Member(membership) => AtomicEstimateView::Member(membership),
            AtomicEstimate::NonMember(membership) => AtomicEstimateView::NonMember(membership),
        }
    }
}

/// How a comparison with a constant is measured against a column's bounds.
pub open spec fn column_measure(
    statistics: ColumnStatistics,
    constant: ValueView,
    comparison: ComparisonType,
) -> RangeMeasure {
    match range_bound(comparison) {
        Some(bound) => bounds_measure(statistics.minimum, statistics.maximum, bound, constant),
        None => RangeMeasure::Unknown,
    }
}

/// Measures an ordered comparison with a constant by the column's bounds.
pub fn estimate_range_selectivity(
    statistics: &ColumnStatistics,
    constant: &Value,
    comparison: ComparisonType,
) -> (r: RangeMeasure)
    ensures
        r == column_measure(*statistics, constant@, comparison),
        r matches RangeMeasure::Share { matching, domain } ==> matching <= domain && domain > 0,
{
    match comparison_bound(comparison) {
        Some(bound) => measure_bounds(&statistics.minimum, &statistics.maximum, bound, constant),
        None => RangeMeasure::Unknown,
    }
}

/// The selectivity of a comparison.
pub open spec fn comparison_estimate(
    comparison: ComparisonType,
    left: ExpressionView,
    right: ExpressionView,
    resolution: Resolution,
) -> AtomicEstimateView {
    let otherwise = AtomicEstimateView::Default(comparison_default(comparison));
    match compared_column(comparison, left, right) {
        Some((column, constant, found)) => match named_statistics(column, resolution) {
            Some(statistics) => match found {
                ComparisonType::Equal | ComparisonType::NotDistinctFrom => match named_distinct(
                    column,
                    resolution,
                ) {
                    Some(distinct) => AtomicEstimateView::OneIn(distinct),
                    None => otherwise,
                },
                ComparisonType::NotEqual | ComparisonType::DistinctFrom => match named_distinct(
                    column,
                    resolution,
                ) {
                    Some(distinct) => AtomicEstimateView::AllButOneIn(distinct),
                    None => otherwise,
                },
                _ => match column_measure(statistics, constant, found) {
                    RangeMeasure::Share { matching, domain } => AtomicEstimateView::Share {
                        matching,
                        domain,
                    },
                    RangeMeasure::Continuous => AtomicEstimateView::Continuous {
                        minimum: statistics.minimum->0@,
                        maximum: statistics.maximum->0@,
                        constant,
                        comparison: found,
                    },
                    _ => AtomicEstimateView::Default(DefaultSelectivity::Range),
                },
            },
            None => otherwise,
        },
        None => otherwise,
    }
}

/// Exchanging the operands of a comparison with a constant, and reversing it,
/// changes nothing.
pub proof fn orientation_does_not_matter(
    comparison: ComparisonType,
    column: ExpressionView,
    constant: ExpressionView,
    resolution: Resolution,
)
    requires
        is_column(column),
        constant is Constant,
    ensures
        comparison_estimate(comparison, column, constant, resolution) == comparison_estimate(
            reversed(comparison),
            constant,
            column,
            resolution,
        ),
{
}

/// The pattern that a match compares with.
pub open spec fn matched_pattern(children: Seq<ExpressionView>) -> Option<ValueView> {
    if children.len() > 1 {
        match children[1] {
            ExpressionView::Constant(value, _) => Some(value),
            _ => None,
        }
    } else {
        None
    }
}

/// The selectivity of a pattern match. Case folding can merge stored values,
/// so the distinct count measures exact patterns only where case matters.
pub open spec fn like_estimate(
    children: Seq<ExpressionView>,
    folds_case: bool,
    resolution: Resolution,
) -> AtomicEstimateView {
    match value_shape(matched_pattern(children)) {
        LikePatternShape::MatchAll => AtomicEstimateView::EveryText,
        LikePatternShape::Exact => match named_distinct(children[0], resolution) {
            Some(distinct) => if folds_case {
                AtomicEstimateView::Default(DefaultSelectivity::Equality)
            } else {
                AtomicEstimateView::OneIn(distinct)
            },
            None => AtomicEstimateView::Default(DefaultSelectivity::Equality),
        },
        LikePatternShape::Wildcard(pattern) => AtomicEstimateView::Wildcard(pattern),
        LikePatternShape::Generic => AtomicEstimateView::Default(DefaultSelectivity::Predicate),
    }
}

/// The values that a membership test looks up, and the column's distinct
/// count.
pub open spec fn member_lookup(children: Seq<ExpressionView>, resolution: Resolution) -> Membership {
    if children.len() == 0 {
        Membership::Unknown
    } else {
        Membership::Probes {
            probes: if children.len() > 2 {
                (children.len() - 1) as u64
            } else {
                1
            },
            distinct: named_distinct(children[0], resolution),
        }
    }
}

/// The selectivity of a predicate on its own. Only a Boolean literal is
/// certain.
pub open spec fn atomic_estimate(e: ExpressionView, resolution: Resolution) -> AtomicEstimateView {
    match e {
        ExpressionView::Constant(value, _) => match value {
            ValueView::Plain(Value::Boolean(passes)) => AtomicEstimateView::Proven { passes },
            _ => AtomicEstimateView::Default(DefaultSelectivity::Predicate),
        },
        ExpressionView::Comparison(comparison, left, right) => comparison_estimate(
            comparison,
            *left,
            *right,
            resolution,
        ),
        ExpressionView::Operator(operator, children, _) => match operator {
            OperatorType::Like => like_estimate(children, false, resolution),
            OperatorType::ILike => like_estimate(children, true, resolution),
            OperatorType::IsNull => AtomicEstimateView::DefaultComplement(
                DefaultSelectivity::IsNotNull,
            ),
            OperatorType::IsNotNull => AtomicEstimateView::Default(DefaultSelectivity::IsNotNull),
            OperatorType::In => AtomicEstimateView::Member(member_lookup(children, resolution)),
            OperatorType::NotIn => AtomicEstimateView::NonMember(
                member_lookup(children, resolution),
            ),
            _ => AtomicEstimateView::Default(DefaultSelectivity::Predicate),
        },
        ExpressionView::Function(function, _, _, _) => match function.intrinsic {
            Intrinsic::FullText => AtomicEstimateView::Default(DefaultSelectivity::FullTextMatch),
            Intrinsic::VectorDistance => AtomicEstimateView::Default(
                DefaultSelectivity::VectorTopK,
            ),
            Intrinsic::Other => AtomicEstimateView::Default(DefaultSelectivity::Predicate),
        },
        _ => AtomicEstimateView::Default(DefaultSelectivity::Predicate),
    }
}

/// The columns that an expression names.
pub open spec fn expression_scope(e: ExpressionView, resolution: Resolution) -> ColumnScope
    decreases e, 0nat,
{
    match e {
        ExpressionView::Constant(_, _) => ColumnScope::NoColumn,
        ExpressionView::ColumnRef(column) => ColumnScope::One(column.binding),
        ExpressionView::Reference(_) => match named_binding(e, resolution) {
            Some(binding) => ColumnScope::One(binding),
            None => ColumnScope::NoColumn,
        },
        ExpressionView::Comparison(_, left, right) => joined_scope(
            expression_scope(*left, resolution),
            expression_scope(*right, resolution),
        ),
        ExpressionView::Conjunction(_, children) => scope_of_all(
            children,
            children.len(),
            resolution,
        ),
        ExpressionView::Cast(child, _) => expression_scope(*child, resolution),
        ExpressionView::Operator(_, children, _) => scope_of_all(
            children,
            children.len(),
            resolution,
        ),
        ExpressionView::Function(_, _, children, _) => scope_of_all(
            children,
            children.len(),
            resolution,
        ),
        ExpressionView::Aggregate(_, children, _, filter, _, _) => joined_scope(
            scope_of_all(children, children.len(), resolution),
            match filter {
                Some(filter) => expression_scope(*filter, resolution),
                None => ColumnScope::NoColumn,
            },
        ),
    }
}

/// The columns that the first `n` expressions name.
pub open spec fn scope_of_all(
    expressions: Seq<ExpressionView>,
    n: nat,
    resolution: Resolution,
) -> ColumnScope
    decreases expressions, n,
{
    if n == 0 || n > expressions.len() {
        ColumnScope::NoColumn
    } else {
        joined_scope(
            scope_of_all(expressions, (n - 1) as nat, resolution),
            expression_scope(expressions[n - 1], resolution),
        )
    }
}

/// The range condition that an expression is.
pub open spec fn expression_range(e: ExpressionView, resolution: Resolution) -> Option<
    IntegralRangeConstraint,
> {
    match e {
        ExpressionView::Comparison(comparison, left, right) => match compared_column(
            comparison,
            *left,
            *right,
        ) {
            Some((column, constant, found)) => match (
                range_bound(found),
                named_binding(column, resolution),
                named_statistics(column, resolution),
            ) {
                (Some(bound), Some(binding), Some(statistics)) => bounded_range(
                    binding,
                    statistics.minimum,
                    statistics.maximum,
                    bound,
                    constant,
                ),
                _ => None,
            },
            None => None,
        },
        _ => None,
    }
}

/// What each condition says of a column's range.
pub open spec fn range_facts(flat: Seq<ExpressionView>, resolution: Resolution) -> Seq<TermFact> {
    flat.map_values(
        |e: ExpressionView|
            match expression_range(e, resolution) {
                Some(constraint) => TermFact::Range(constraint),
                None => TermFact::Neither,
            },
    )
}

/// Each condition by its position, with the only column that it names.
pub open spec fn condition_inputs(flat: Seq<ExpressionView>, resolution: Resolution) -> Seq<
    ConjunctionTerm,
> {
    Seq::new(
        flat.len(),
        |i: int|
            ConjunctionTerm::Input {
                node: i as usize,
                binding: single_column(expression_scope(flat[i], resolution)),
                occurrences: 1,
            },
    )
}

/// How the selectivity of a predicate comes about.
#[derive(Debug)]
pub enum PredicateSelectivity {
    Atomic(AtomicEstimate),
    And(ConjunctionSelectivity),
    /// Some part holds.
    Or(Vec<PredicateSelectivity>),
    /// What the part leaves.
    Not(Box<PredicateSelectivity>),
}

/// How the selectivity of a conjunction comes about.
#[derive(Debug)]
pub struct ConjunctionSelectivity {
    /// The conditions without the conjunctions around them.
    pub conditions: Vec<PredicateSelectivity>,
    /// The terms of the product; an input stands for the condition at its
    /// position. Terms on several columns of one relation are damped.
    pub terms: Vec<ConjunctionTerm>,
}

/// Whether a selectivity is that of an expression.
pub open spec fn estimates(
    selectivity: PredicateSelectivity,
    e: ExpressionView,
    resolution: Resolution,
) -> bool
    decreases selectivity,
{
    match e {
        ExpressionView::Conjunction(kind, children) => match kind {
            ConjunctionType::And => selectivity matches PredicateSelectivity::And(conjunction)
                && conjoins(conjunction, all_conditions(children, children.len()), resolution),
            ConjunctionType::Or => selectivity matches PredicateSelectivity::Or(parts)
                && parts@.len() == children.len() && forall|i: int|
                0 <= i < parts@.len() ==> estimates(#[trigger] parts@[i], children[i], resolution),
        },
        ExpressionView::Operator(OperatorType::Not, children, _) => if children.len() > 0 {
            selectivity matches PredicateSelectivity::Not(part) && estimates(
                *part,
                children[0],
                resolution,
            )
        } else {
            selectivity matches PredicateSelectivity::Atomic(atomic) && atomic@ == atomic_estimate(
                e,
                resolution,
            )
        },
        _ => selectivity matches PredicateSelectivity::Atomic(atomic) && atomic@
            == atomic_estimate(e, resolution),
    }
}

/// Whether a selectivity is that of the conjunction of all conditions, none of
/// which is a conjunction itself. Bounds on one integral column are measured
/// together.
pub open spec fn conjoins(
    selectivity: ConjunctionSelectivity,
    flat: Seq<ExpressionView>,
    resolution: Resolution,
) -> bool
    decreases selectivity,
{
    &&& selectivity.conditions@.len() == flat.len()
    &&& forall|i: int|
        0 <= i < selectivity.conditions@.len() ==> estimates(
            #[trigger] selectivity.conditions@[i],
            flat[i],
            resolution,
        )
    &&& selectivity.terms@ == coalesced(
        range_facts(flat, resolution),
        condition_inputs(flat, resolution),
        flat.len(),
    )
}

/// Conditions of a conjunction with what is known of each.
struct GatheredConditions {
    conditions: Vec<PredicateSelectivity>,
    evidence: Vec<TermEvidence>,
    inputs: Vec<ConjunctionTerm>,
}

impl GatheredConditions {
    spec fn hold(self, flat: Seq<ExpressionView>, resolution: Resolution) -> bool {
        &&& self.conditions@.len() == flat.len()
        &&& forall|i: int|
            0 <= i < self.conditions@.len() ==> estimates(
                #[trigger] self.conditions@[i],
                flat[i],
                resolution,
            )
        &&& evidence_facts(self.evidence@) == range_facts(flat, resolution)
        &&& ranges_wf(evidence_facts(self.evidence@))
        &&& self.inputs@ == condition_inputs(flat, resolution)
    }
}

/// Rows that pass a conjunction.
#[derive(Debug)]
pub enum FilterSelectivity {
    /// The number of rows is known.
    Exact(CardinalityEstimate),
    /// The selectivity of all conditions scales the rows.
    Scaled(ConjunctionSelectivity),
}

/// Whether a selectivity decides the rows of `base` that pass all predicates.
pub open spec fn selects(
    selectivity: FilterSelectivity,
    base: u64,
    predicates: Seq<ExpressionView>,
    resolution: Resolution,
) -> bool {
    if base == 0 || predicates.len() == 0 {
        selectivity == FilterSelectivity::Exact(CardinalityEstimate::spec_exact(base))
    } else {
        selectivity matches FilterSelectivity::Scaled(conjunction) && conjoins(
            conjunction,
            all_conditions(predicates, predicates.len()),
            resolution,
        )
    }
}

/// Reads the statistics that predicates refer to.
struct Estimator<'a, L> {
    resolver: &'a StatisticsResolver<'a, L>,
}

impl<'a, L: ColumnStatisticsLookup> Estimator<'a, L> {
    spec fn resolution(self) -> Resolution {
        self.resolver@
    }

    fn binding(&self, e: &Expression) -> (r: Option<ColumnBinding>)
        ensures
            r == named_binding(e@, self.resolution()),
    {
        match e {
            Expression::ColumnRef(column) => Some(column.binding),
            _ => self.resolver.binding(e),
        }
    }

    fn statistics(&self, e: &Expression) -> (r: Option<&ColumnStatistics>)
        ensures
            match r {
                Some(statistics) => named_statistics(e@, self.resolution()) == Some(*statistics),
                None => named_statistics(e@, self.resolution()) is None,
            },
    {
        match self.binding(e) {
            Some(binding) => self.resolver.columns.get(&binding),
            None => None,
        }
    }

    fn distinct(&self, e: &Expression) -> (r: Option<u64>)
        ensures
            r == named_distinct(e@, self.resolution()),
    {
        match self.statistics(e) {
            Some(statistics) => if statistics.distinct.point == 0 {
                None
            } else {
                Some(statistics.distinct.point)
            },
            None => None,
        }
    }

    fn scope(&self, e: &Expression) -> (r: ColumnScope)
        ensures
            r == expression_scope(e@, self.resolution()),
        decreases *e, 0nat,
    {
        proof {
            lemma_view_children(*e);
        }
        match e {
            Expression::Constant(_) => ColumnScope::NoColumn,
            Expression::ColumnRef(column) => ColumnScope::One(column.binding),
            Expression::Reference(_) => match self.binding(e) {
                Some(binding) => ColumnScope::One(binding),
                None => ColumnScope::NoColumn,
            },
            Expression::Comparison(comparison) => join_scopes(
                self.scope(&comparison.left),
                self.scope(&comparison.right),
            ),
            Expression::Conjunction(conjunction) => self.scope_all(&conjunction.children),
            Expression::Cast(cast) => self.scope(&cast.child),
            Expression::Operator(operator) => self.scope_all(&operator.children),
            Expression::Function(function) => self.scope_all(&function.children),
            Expression::Aggregate(aggregate) => {
                let children = self.scope_all(&aggregate.children);
                match &aggregate.filter {
                    Some(filter) => join_scopes(children, self.scope(filter)),
                    None => join_scopes(children, ColumnScope::NoColumn),
                }
            },
        }
    }

    fn scope_all(&self, expressions: &Vec<Expression>) -> (r: ColumnScope)
        ensures
            r == scope_of_all(views(expressions@), expressions@.len(), self.resolution()),
        decreases *expressions, 1nat,
    {
        let mut r = ColumnScope::NoColumn;
        let mut i: usize = 0;
        while i < expressions.len()
            invariant
                i <= expressions@.len(),
                r == scope_of_all(views(expressions@), i as nat, self.resolution()),
            decreases expressions@.len() - i,
        {
            assert(views(expressions@)[i as int] == expressions@[i as int]@);
            r = join_scopes(r, self.scope(&expressions[i]));
            i = i + 1;
        }
        r
    }

    fn estimate_comparison_selectivity(&self, e: &Expression, comparison: ComparisonType) -> (r:
        AtomicEstimate)
        requires
            e@ matches ExpressionView::Comparison(found, _, _) && found == comparison,
        ensures
            r@ == comparison_estimate(
                comparison,
                *e@->Comparison_1,
                *e@->Comparison_2,
                self.resolution(),
            ),
    {
        let otherwise = AtomicEstimate::Default(default_for_comparison(comparison));
        let Some((column, constant, found)) = column_constant_comparison(e) else {
            return otherwise;
        };
        let Some(statistics) = self.statistics(column) else {
            return otherwise;
        };
        match found {
            ComparisonType::Equal | ComparisonType::NotDistinctFrom => match self.distinct(column) {
                Some(distinct) => AtomicEstimate::OneIn(distinct),
                None => otherwise,
            },
            ComparisonType::NotEqual | ComparisonType::DistinctFrom => match self.distinct(column) {
                Some(distinct) => AtomicEstimate::AllButOneIn(distinct),
                None => otherwise,
            },
            _ => match estimate_range_selectivity(statistics, constant, found) {
                RangeMeasure::Share { matching, domain } => AtomicEstimate::Share {
                    matching,
                    domain,
                },
                RangeMeasure::Continuous => match (&statistics.minimum, &statistics.maximum) {
                    (Some(minimum), Some(maximum)) => AtomicEstimate::Continuous {
                        minimum: minimum.copy(),
                        maximum: maximum.copy(),
                        constant: constant.copy(),
                        comparison: found,
                    },
                    _ => AtomicEstimate::Default(DefaultSelectivity::Range),
                },
                _ => AtomicEstimate::Default(DefaultSelectivity::Range),
            },
        }
    }

    fn integral_range_constraint(&self, e: &Expression) -> (r: Option<IntegralRangeConstraint>)
        ensures
            r == expression_range(e@, self.resolution()),
            r matches Some(found) ==> found.minimum <= found.maximum,
    {
        let (column, constant, found) = column_constant_comparison(e)?;
        let bound = comparison_bound(found)?;
        let binding = self.binding(column)?;
        let statistics = self.statistics(column)?;
        bounded_range_constraint(
            binding,
            &statistics.minimum,
            &statistics.maximum,
            bound,
            constant,
        )
    }

    fn estimate_like_selectivity(&self, children: &Vec<Expression>, folds_case: bool) -> (r: AtomicEstimate)
        ensures
            r@ == like_estimate(views(children@), folds_case, self.resolution()),
    {
        let pattern: Option<&Value> = if children.len() > 1 {
            match &children[1] {
                Expression::Constant(constant) => Some(&constant.value),
                _ => None,
            }
        } else {
            None
        };
        assert(children@.len() > 1 ==> views(children@)[1] == children@[1]@);
        assert(optional_view(pattern) == matched_pattern(views(children@)));
        match like_pattern_shape(pattern) {
            LikePatternShape::MatchAll => AtomicEstimate::EveryText,
            LikePatternShape::Exact => {
                if folds_case {
                    return AtomicEstimate::Default(DefaultSelectivity::Equality);
                }
                assert(views(children@)[0] == children@[0]@);
                match self.distinct(&children[0]) {
                    Some(distinct) => AtomicEstimate::OneIn(distinct),
                    None => AtomicEstimate::Default(DefaultSelectivity::Equality),
                }
            },
            LikePatternShape::Wildcard(pattern) => AtomicEstimate::Wildcard(pattern),
            LikePatternShape::Generic => AtomicEstimate::Default(DefaultSelectivity::Predicate),
        }
    }

    fn estimate_in_selectivity(&self, children: &Vec<Expression>) -> (r: Membership)
        ensures
            r == member_lookup(views(children@), self.resolution()),
    {
        let count: usize = children.len();
        if count == 0 {
            return Membership::Unknown;
        }
        assert(views(children@)[0] == children@[0]@);
        Membership::Probes {
            probes: if count > 2 {
                (count - 1) as u64
            } else {
                1
            },
            distinct: self.distinct(&children[0]),
        }
    }

    fn estimate_atomic_selectivity(&self, e: &Expression) -> (r: AtomicEstimate)
        ensures
            r@ == atomic_estimate(e@, self.resolution()),
    {
        proof {
            lemma_view_children(*e);
        }
        match e {
            Expression::Constant(constant) => match &constant.value {
                Value::Boolean(passes) => AtomicEstimate::Proven { passes: *passes },
                _ => AtomicEstimate::Default(DefaultSelectivity::Predicate),
            },
            Expression::Comparison(comparison) => self.estimate_comparison_selectivity(
                e,
                comparison.comparison_type,
            ),
            Expression::Operator(operator) => match operator.operator_type {
                OperatorType::Like => self.estimate_like_selectivity(&operator.children, false),
                OperatorType::ILike => self.estimate_like_selectivity(&operator.children, true),
                OperatorType::IsNull => AtomicEstimate::DefaultComplement(
                    DefaultSelectivity::IsNotNull,
                ),
                OperatorType::IsNotNull => AtomicEstimate::Default(DefaultSelectivity::IsNotNull),
                OperatorType::In => AtomicEstimate::Member(self.estimate_in_selectivity(&operator.children)),
                OperatorType::NotIn => AtomicEstimate::NonMember(
                    self.estimate_in_selectivity(&operator.children),
                ),
                _ => AtomicEstimate::Default(DefaultSelectivity::Predicate),
            },
            Expression::Function(function) => match function.function.intrinsic {
                Intrinsic::FullText => AtomicEstimate::Default(DefaultSelectivity::FullTextMatch),
                Intrinsic::VectorDistance => AtomicEstimate::Default(
                    DefaultSelectivity::VectorTopK,
                ),
                Intrinsic::Other => AtomicEstimate::Default(DefaultSelectivity::Predicate),
            },
            _ => AtomicEstimate::Default(DefaultSelectivity::Predicate),
        }
    }

    fn estimate_selectivity_with_provenance(&self, e: &Expression) -> (r: PredicateSelectivity)
        ensures
            estimates(r, e@, self.resolution()),
        decreases *e, 0nat,
    {
        proof {
            lemma_view_children(*e);
        }
        match e {
            Expression::Conjunction(conjunction) => match conjunction.conjunction_type {
                ConjunctionType::And => PredicateSelectivity::And(
                    self.estimate_conjunction(&conjunction.children),
                ),
                ConjunctionType::Or => PredicateSelectivity::Or(
                    self.selectivities(&conjunction.children),
                ),
            },
            Expression::Operator(operator) => {
                if operator.operator_type == OperatorType::Not && operator.children.len() > 0 {
                    assert(views(operator.children@)[0] == operator.children@[0]@);
                    PredicateSelectivity::Not(Box::new(self.estimate_selectivity_with_provenance(&operator.children[0])))
                } else {
                    PredicateSelectivity::Atomic(self.estimate_atomic_selectivity(e))
                }
            },
            _ => PredicateSelectivity::Atomic(self.estimate_atomic_selectivity(e)),
        }
    }

    fn selectivities(&self, expressions: &Vec<Expression>) -> (r: Vec<PredicateSelectivity>)
        ensures
            r@.len() == expressions@.len(),
            forall|i: int|
                0 <= i < r@.len() ==> estimates(
                    #[trigger] r@[i],
                    views(expressions@)[i],
                    self.resolution(),
                ),
        decreases *expressions, 1nat,
    {
        let mut r: Vec<PredicateSelectivity> = Vec::new();
        let mut i: usize = 0;
        while i < expressions.len()
            invariant
                i <= expressions@.len(),
                r@.len() == i,
                forall|j: int|
                    0 <= j < r@.len() ==> estimates(
                        #[trigger] r@[j],
                        views(expressions@)[j],
                        self.resolution(),
                    ),
            decreases expressions@.len() - i,
        {
            assert(views(expressions@)[i as int] == expressions@[i as int]@);
            r.push(self.estimate_selectivity_with_provenance(&expressions[i]));
            i = i + 1;
        }
        r
    }

    fn estimate_conjunction(&self, predicates: &Vec<Expression>) -> (r: ConjunctionSelectivity)
        ensures
            conjoins(
                r,
                all_conditions(views(predicates@), predicates@.len()),
                self.resolution(),
            ),
        decreases *predicates, 2nat,
    {
        let mut gathered = GatheredConditions {
            conditions: Vec::new(),
            evidence: Vec::new(),
            inputs: Vec::new(),
        };
        let ghost none = Seq::<ExpressionView>::empty();
        proof {
            assert(evidence_facts(gathered.evidence@) =~= range_facts(none, self.resolution()));
            assert(gathered.inputs@ =~= condition_inputs(none, self.resolution()));
        }
        self.flatten_all(predicates, Ghost(none), &mut gathered);
        proof {
            let flat = all_conditions(views(predicates@), predicates@.len());
            assert(none + flat =~= flat);
            assert(evidence_facts(gathered.evidence@).len() == gathered.evidence@.len());
        }
        let terms = coalesce_terms(&gathered.evidence, &gathered.inputs);
        ConjunctionSelectivity { conditions: gathered.conditions, terms }
    }

    /// Adds the conditions that an expression conjoins.
    fn flatten_and(
        &self,
        e: &Expression,
        Ghost(flat): Ghost<Seq<ExpressionView>>,
        gathered: &mut GatheredConditions,
    )
        requires
            old(gathered).hold(flat, self.resolution()),
        ensures
            final(gathered).hold(flat + conditions(e@), self.resolution()),
        decreases *e, 1nat,
    {
        proof {
            lemma_view_children(*e);
        }
        if let Expression::Conjunction(conjunction) = e {
            if conjunction.conjunction_type == ConjunctionType::And {
                self.flatten_all(&conjunction.children, Ghost(flat), gathered);
                return;
            }
        }
        let ghost resolution = self.resolution();
        let ghost longer = flat.push(e@);
        let ghost before = *gathered;
        let found = match self.integral_range_constraint(e) {
            Some(constraint) => TermEvidence::Range(constraint),
            None => TermEvidence::Neither,
        };
        let position: usize = gathered.conditions.len();
        gathered.conditions.push(self.estimate_selectivity_with_provenance(e));
        gathered.evidence.push(found);
        gathered.inputs.push(
            ConjunctionTerm::Input {
                node: position,
                binding: single_binding(self.scope(e)),
                occurrences: 1,
            },
        );
        proof {
            assert(flat + conditions(e@) =~= longer);
            assert(evidence_facts(gathered.evidence@) =~= evidence_facts(before.evidence@).push(
                found@,
            ));
            assert(range_facts(longer, resolution) =~= range_facts(flat, resolution).push(found@));
            assert(gathered.inputs@ =~= condition_inputs(longer, resolution));
            assert forall|i: int| 0 <= i < gathered.conditions@.len() implies estimates(
                #[trigger] gathered.conditions@[i],
                longer[i],
                resolution,
            ) by {
                if i < flat.len() {
                    assert(gathered.conditions@[i] == before.conditions@[i]);
                }
            }
        }
    }

    /// Adds the conditions that several expressions conjoin.
    fn flatten_all(
        &self,
        expressions: &Vec<Expression>,
        Ghost(flat): Ghost<Seq<ExpressionView>>,
        gathered: &mut GatheredConditions,
    )
        requires
            old(gathered).hold(flat, self.resolution()),
        ensures
            final(gathered).hold(
                flat + all_conditions(views(expressions@), expressions@.len()),
                self.resolution(),
            ),
        decreases *expressions, 1nat,
    {
        let mut i: usize = 0;
        assert(flat + all_conditions(views(expressions@), 0) =~= flat);
        while i < expressions.len()
            invariant
                i <= expressions@.len(),
                gathered.hold(
                    flat + all_conditions(views(expressions@), i as nat),
                    self.resolution(),
                ),
            decreases expressions@.len() - i,
        {
            let ghost so_far = flat + all_conditions(views(expressions@), i as nat);
            assert(views(expressions@)[i as int] == expressions@[i as int]@);
            self.flatten_and(&expressions[i], Ghost(so_far), gathered);
            assert(so_far + conditions(expressions@[i as int]@) =~= flat + all_conditions(
                views(expressions@),
                (i + 1) as nat,
            ));
            i = i + 1;
        }
    }

    fn filter(&self, base: u64, predicates: &Vec<Expression>) -> (r: FilterSelectivity)
        ensures
            selects(r, base, views(predicates@), self.resolution()),
    {
        if base == 0 || predicates.len() == 0 {
            return FilterSelectivity::Exact(CardinalityEstimate::exact(base));
        }
        FilterSelectivity::Scaled(self.estimate_conjunction(predicates))
    }
}

/// Estimates predicates.
pub struct CostModel;

impl CostModel {
    pub fn new() -> (r: CostModel)
        ensures
            r == CostModel,
    {
        CostModel
    }

    /// The selectivity of a predicate.
    pub fn estimate_selectivity<L: ColumnStatisticsLookup>(&self, e: &Expression, columns: &L) -> (r:
        PredicateSelectivity)
        ensures
            estimates(r, e@, Resolution { known: columns.known(), positions: None }),
    {
        let resolver = StatisticsResolver::logical(columns);
        let estimator = Estimator { resolver: &resolver };
        estimator.estimate_selectivity_with_provenance(e)
    }

    /// How the rows of `base` that pass all predicates are estimated.
    pub fn estimate_filter_cardinality<L: ColumnStatisticsLookup>(
        &self,
        base: u64,
        predicates: &Vec<Expression>,
        columns: &L,
    ) -> (r: FilterSelectivity)
        ensures
            selects(
                r,
                base,
                views(predicates@),
                Resolution { known: columns.known(), positions: None },
            ),
    {
        let resolver = StatisticsResolver::logical(columns);
        let estimator = Estimator { resolver: &resolver };
        estimator.filter(base, predicates)
    }

    /// The same, where positional references resolve by the given columns.
    pub fn estimate_filter_cardinality_with_positions<L: ColumnStatisticsLookup>(
        &self,
        base: u64,
        predicates: &Vec<Expression>,
        columns: &L,
        positions: &Vec<ColumnBinding>,
    ) -> (r: FilterSelectivity)
        ensures
            selects(
                r,
                base,
                views(predicates@),
                Resolution { known: columns.known(), positions: Some(positions@) },
            ),
    {
        let resolver = StatisticsResolver::with_positions(columns, positions);
        let estimator = Estimator { resolver: &resolver };
        estimator.filter(base, predicates)
    }
}

/// The comparison of a column with a constant is true exactly where the comparison
/// of the operands is, whichever side the column stands on.
pub proof fn compared_column_keeps_the_condition(
    comparison: ComparisonType,
    left: ExpressionView,
    right: ExpressionView,
    value: spec_fn(ExpressionView) -> Option<int>,
    literal: spec_fn(ValueView) -> Option<int>,
)
    requires
        reads_literals(value, literal),
        compared_column(comparison, left, right) is Some,
    ensures
        ({
            let (column, constant, found) = compared_column(comparison, left, right)->0;
            &&& is_column(column)
            &&& found.is_true_of(value(column), literal(constant)) <==> comparison.is_true_of(
                value(left),
                value(right),
            )
        }),
{
    reversing_keeps_the_meaning(comparison, value(left), value(right));
    match (left, right) {
        (ExpressionView::Constant(v, ty), ExpressionView::Constant(w, other)) => {},
        (ExpressionView::Constant(v, ty), _) => {
            assert(value(ExpressionView::Constant(v, ty)) == literal(v));
        },
        (_, ExpressionView::Constant(v, ty)) => {
            assert(value(ExpressionView::Constant(v, ty)) == literal(v));
        },
        _ => {},
    }
}

/// A predicate and its opposite are estimated from the same count: an equality and
/// its negation, a membership and its negation, being NULL and not.
pub proof fn opposite_predicates_share_their_count(
    left: ExpressionView,
    right: ExpressionView,
    children: Seq<ExpressionView>,
    ty: LogicalType,
    resolution: Resolution,
    distinct: u64,
    membership: Membership,
    default: DefaultSelectivity,
)
    ensures
        comparison_estimate(ComparisonType::Equal, left, right, resolution)
            == AtomicEstimateView::OneIn(distinct) <==> comparison_estimate(
            ComparisonType::NotEqual,
            left,
            right,
            resolution,
        ) == AtomicEstimateView::AllButOneIn(distinct),
        comparison_estimate(ComparisonType::NotDistinctFrom, left, right, resolution)
            == AtomicEstimateView::OneIn(distinct) <==> comparison_estimate(
            ComparisonType::DistinctFrom,
            left,
            right,
            resolution,
        ) == AtomicEstimateView::AllButOneIn(distinct),
        atomic_estimate(ExpressionView::Operator(OperatorType::In, children, ty), resolution)
            == AtomicEstimateView::Member(membership) <==> atomic_estimate(
            ExpressionView::Operator(OperatorType::NotIn, children, ty),
            resolution,
        ) == AtomicEstimateView::NonMember(membership),
        atomic_estimate(ExpressionView::Operator(OperatorType::IsNotNull, children, ty), resolution)
            == AtomicEstimateView::Default(default) <==> atomic_estimate(
            ExpressionView::Operator(OperatorType::IsNull, children, ty),
            resolution,
        ) == AtomicEstimateView::DefaultComplement(default),
{
}

/// An expression that names one column mentions no other, and one that names none
/// mentions none.
pub proof fn single_column_is_the_only_one(
    e: ExpressionView,
    resolution: Resolution,
    mentioned: ColumnBinding,
)
    requires
        mentions(e, mentioned),
    ensures
        !(expression_scope(e, resolution) is NoColumn),
        expression_scope(e, resolution) matches ColumnScope::One(only) ==> only == mentioned,
    decreases e, 0nat,
{
    match e {
        ExpressionView::Comparison(_, left, right) => {
            if mentions(*left, mentioned) {
                single_column_is_the_only_one(*left, resolution, mentioned);
            } else {
                single_column_is_the_only_one(*right, resolution, mentioned);
            }
        },
        ExpressionView::Cast(child, _) => {
            single_column_is_the_only_one(*child, resolution, mentioned);
        },
        ExpressionView::Conjunction(_, children) => {
            lemma_single_among(children, children.len(), resolution, mentioned);
        },
        ExpressionView::Operator(_, children, _) => {
            lemma_single_among(children, children.len(), resolution, mentioned);
        },
        ExpressionView::Function(_, _, children, _) => {
            lemma_single_among(children, children.len(), resolution, mentioned);
        },
        ExpressionView::Aggregate(_, children, _, filter, _, _) => {
            if any_mentions(children, children.len(), mentioned) {
                lemma_single_among(children, children.len(), resolution, mentioned);
            } else if let Some(filter) = filter {
                single_column_is_the_only_one(*filter, resolution, mentioned);
            }
        },
        _ => {},
    }
}

proof fn lemma_single_among(
    expressions: Seq<ExpressionView>,
    n: nat,
    resolution: Resolution,
    mentioned: ColumnBinding,
)
    requires
        n <= expressions.len(),
        any_mentions(expressions, n, mentioned),
    ensures
        !(scope_of_all(expressions, n, resolution) is NoColumn),
        scope_of_all(expressions, n, resolution) matches ColumnScope::One(only) ==> only
            == mentioned,
    decreases expressions, n,
{
    if n > 0 {
        if any_mentions(expressions, (n - 1) as nat, mentioned) {
            lemma_single_among(expressions, (n - 1) as nat, resolution, mentioned);
        } else {
            single_column_is_the_only_one(expressions[n - 1], resolution, mentioned);
        }
    }
}

/// A match that folds case never counts stored values, and one without wildcards
/// that does not fold case counts as an equality.
pub proof fn exact_match_is_an_equality(
    column: ColumnRefExpression,
    pattern: ExpressionView,
    text: Seq<char>,
    ty: LogicalType,
    resolution: Resolution,
)
    requires
        pattern_shape(text) is Exact,
        pattern == ExpressionView::Constant(ValueView::Text(text), ty),
        named_distinct(ExpressionView::ColumnRef(column), resolution) is Some,
    ensures
        ({
            let operands = seq![ExpressionView::ColumnRef(column), pattern];
            &&& like_estimate(operands, false, resolution) == comparison_estimate(
                ComparisonType::Equal,
                ExpressionView::ColumnRef(column),
                pattern,
                resolution,
            )
            &&& !(like_estimate(operands, true, resolution) is OneIn)
        }),
{
}

/// More values to look up never lower the number of probes, and a single one is
/// one probe.
pub proof fn membership_probes_each_value(children: Seq<ExpressionView>, resolution: Resolution)
    requires
        2 <= children.len() <= u64::MAX,
    ensures
        member_lookup(children, resolution) matches Membership::Probes { probes, distinct }
            && probes == children.len() - 1 && distinct == named_distinct(children[0], resolution),
{
}

/// Only the match that folds case leaves the distinct count aside; a pattern that every
/// text matches passes every text, whether case matters or not.
pub proof fn only_folding_case_hides_the_distinct_count(
    column: ExpressionView,
    text: Seq<char>,
    pattern_type: LogicalType,
    ty: LogicalType,
    resolution: Resolution,
)
    requires
        named_distinct(column, resolution) is Some,
    ensures
        ({
            let operands = seq![
                column,
                ExpressionView::Constant(ValueView::Text(text), pattern_type),
            ];
            let exact = atomic_estimate(
                ExpressionView::Operator(OperatorType::Like, operands, ty),
                resolution,
            );
            let folded = atomic_estimate(
                ExpressionView::Operator(OperatorType::ILike, operands, ty),
                resolution,
            );
            &&& pattern_shape(text) is Exact ==> exact == AtomicEstimateView::OneIn(
                named_distinct(column, resolution)->0,
            ) && !(folded is OneIn)
            &&& pattern_shape(text) is MatchAll ==> exact is EveryText && folded is EveryText
            &&& pattern_shape(text) is Wildcard ==> exact is Wildcard && folded is Wildcard
        }),
{
}

} // verus!
