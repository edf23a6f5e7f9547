//! Comparisons of a column with a constant, measured against the column's
//! bounds.

use vstd::prelude::*;

use crate::estimate::selectivity::integral::{
    comparison_bound, coordinate, matching_values, ordered_integral_value, range_bound, range_share,
    IntegralDomain, IntegralRangeBound, OrderedIntegralValue,
};
use crate::estimate::selectivity::predicate::{
    column_comparison, column_constant_comparison, column_of, evidence_of, literal_of, node_binding,
    node_constant, node_evidence, ColumnPredicateEvidence, PredicateGraph, PredicateNode,
};
use crate::types::{ColumnBinding, ComparisonType};
use crate::value::{Value, ValueView};

verus! {

/// A range condition on an integral column with known bounds.
#[derive(Clone, Copy, Debug, PartialEq, Eq, Structural)]
pub struct IntegralRangeConstraint {
    pub binding: ColumnBinding,
    pub domain: IntegralDomain,
    pub minimum: u128,
    pub maximum: u128,
    pub bound: IntegralRangeBound,
    pub constant: u128,
}

/// The coordinate of an optional literal.
pub open spec fn optional_coordinate(value: Option<Value>) -> Option<OrderedIntegralValue> {
    match value {
        Some(value) => coordinate(value@),
        None => None,
    }
}

fn optional_integral(value: &Option<Value>) -> (r: Option<OrderedIntegralValue>)
    ensures
        r == optional_coordinate(*value),
{
    match value {
        Some(value) => ordered_integral_value(value),
        None => None,
    }
}

/// Bounds of a column and a constant on one line.
pub open spec fn measured(
    minimum: Option<OrderedIntegralValue>,
    maximum: Option<OrderedIntegralValue>,
    constant: Option<OrderedIntegralValue>,
) -> bool {
    match (minimum, maximum, constant) {
        (Some(minimum), Some(maximum), Some(constant)) => minimum.domain == maximum.domain
            && minimum.domain == constant.domain && minimum.coordinate <= maximum.coordinate,
        _ => false,
    }
}

/// The range condition that a bound at a constant puts on a column.
pub open spec fn bounded_range(
    binding: ColumnBinding,
    minimum: Option<Value>,
    maximum: Option<Value>,
    bound: IntegralRangeBound,
    constant: ValueView,
) -> Option<IntegralRangeConstraint> {
    let low = optional_coordinate(minimum);
    let high = optional_coordinate(maximum);
    let at = coordinate(constant);
    if measured(low, high, at) {
        Some(
            IntegralRangeConstraint {
                binding,
                domain: low->0.domain,
                minimum: low->0.coordinate,
                maximum: high->0.coordinate,
                bound,
                constant: at->0.coordinate,
            },
        )
    } else {
        None
    }
}

pub fn bounded_range_constraint(
    binding: ColumnBinding,
    minimum: &Option<Value>,
    maximum: &Option<Value>,
    bound: IntegralRangeBound,
    constant: &Value,
) -> (r: Option<IntegralRangeConstraint>)
    ensures
        r == bounded_range(binding, *minimum, *maximum, bound, constant@),
        r matches Some(found) ==> found.minimum <= found.maximum,
{
    let low = optional_integral(minimum)?;
    let high = optional_integral(maximum)?;
    let at = ordered_integral_value(constant)?;
    if low.domain != high.domain || low.domain != at.domain || low.coordinate > high.coordinate {
        return None;
    }
    Some(
        IntegralRangeConstraint {
            binding,
            domain: low.domain,
            minimum: low.coordinate,
            maximum: high.coordinate,
            bound,
            constant: at.coordinate,
        },
    )
}

/// The range condition that node `n` is.
pub open spec fn range_constraint(nodes: Seq<PredicateNode>, n: int) -> Option<
    IntegralRangeConstraint,
> {
    match column_comparison(nodes, n) {
        Some(found) => match (
            range_bound(found.comparison),
            column_of(nodes[found.column as int]),
            evidence_of(nodes[found.column as int]),
        ) {
            (Some(bound), Some(binding), Some(evidence)) => match evidence.values {
                Some(values) => bounded_range(
                    binding,
                    values.minimum,
                    values.maximum,
                    bound,
                    literal_of(nodes[found.constant as int])->0@,
                ),
                None => None,
            },
            _ => None,
        },
        None => None,
    }
}

/// The range condition that a predicate is, if its column's bounds and its
/// constant lie on one line.
pub fn integral_range_constraint(graph: &PredicateGraph, n: usize) -> (r: Option<
    IntegralRangeConstraint,
>)
    requires
        graph.wf(),
        n < graph.nodes@.len(),
    ensures
        r == range_constraint(graph.nodes@, n as int),
        r matches Some(found) ==> found.minimum <= found.maximum,
{
    let found = column_constant_comparison(graph, n)?;
    let bound = comparison_bound(found.comparison)?;
    let binding = node_binding(&graph.nodes[found.column])?;
    let evidence = node_evidence(&graph.nodes[found.column])?;
    let Some(values) = &evidence.values else {
        return None;
    };
    let Some(literal) = node_constant(&graph.nodes[found.constant]) else {
        return None;
    };
    bounded_range_constraint(binding, &values.minimum, &values.maximum, bound, literal)
}

/// How a comparison that orders its operands is measured.
#[derive(Clone, Copy, Debug, PartialEq, Eq, Structural)]
pub enum RangeMeasure {
    /// Not measured; a default applies.
    Unknown,
    /// By the column's distribution, a normal one.
    Distribution,
    /// Exactly: this many of all representable values pass.
    Share { matching: u128, domain: u128 },
    /// By the position of the constant between the bounds.
    Continuous,
}

pub open spec fn is_float(value: ValueView) -> bool {
    match value {
        ValueView::Plain(Value::Float(_)) => true,
        ValueView::Plain(Value::Double(_)) => true,
        _ => false,
    }
}

pub fn is_floating_value(value: &Value) -> (r: bool)
    ensures
        r == is_float(value@),
{
    match value {
        Value::Float(_) => true,
        Value::Double(_) => true,
        _ => false,
    }
}

/// How a bound at a constant is measured against the bounds of a column.
pub open spec fn bounds_measure(
    minimum: Option<Value>,
    maximum: Option<Value>,
    bound: IntegralRangeBound,
    constant: ValueView,
) -> RangeMeasure {
    match (minimum, maximum) {
        (Some(minimum), Some(maximum)) => match (
            coordinate(minimum@),
            coordinate(maximum@),
            coordinate(constant),
        ) {
            (Some(low), Some(high), Some(at)) => if measured(Some(low), Some(high), Some(at)) {
                let share = range_share(low.coordinate, high.coordinate, at.coordinate, bound);
                RangeMeasure::Share { matching: share.0, domain: share.1 }
            } else {
                RangeMeasure::Unknown
            },
            _ => if is_float(minimum@) && is_float(maximum@) && is_float(constant) {
                RangeMeasure::Continuous
            } else {
                RangeMeasure::Unknown
            },
        },
        _ => RangeMeasure::Unknown,
    }
}

/// Measures a bound at a constant. Integral domains count their representable
/// values, so that inclusive and exclusive bounds differ at the ends;
/// floating-point domains are taken as continuous.
pub fn measure_bounds(
    minimum: &Option<Value>,
    maximum: &Option<Value>,
    bound: IntegralRangeBound,
    constant: &Value,
) -> (r: RangeMeasure)
    ensures
        r == bounds_measure(*minimum, *maximum, bound, constant@),
        r matches RangeMeasure::Share { matching, domain } ==> matching <= domain && domain > 0,
{
    let Some(minimum) = minimum else {
        return RangeMeasure::Unknown;
    };
    let Some(maximum) = maximum else {
        return RangeMeasure::Unknown;
    };
    if let (Some(low), Some(high), Some(at)) = (
        ordered_integral_value(minimum),
        ordered_integral_value(maximum),
        ordered_integral_value(constant),
    ) {
        if low.domain != high.domain || low.domain != at.domain || low.coordinate
            > high.coordinate {
            return RangeMeasure::Unknown;
        }
        let (matching, domain) = matching_values(
            low.coordinate,
            high.coordinate,
            at.coordinate,
            bound,
        );
        return RangeMeasure::Share { matching, domain };
    }
    if is_floating_value(minimum) && is_floating_value(maximum) && is_floating_value(constant) {
        RangeMeasure::Continuous
    } else {
        RangeMeasure::Unknown
    }
}

/// How a comparison with a constant is measured against what is known of the
/// column.
pub open spec fn range_measure(
    evidence: ColumnPredicateEvidence,
    constant: ValueView,
    comparison: ComparisonType,
) -> RangeMeasure {
    match (evidence.values, range_bound(comparison)) {
        (Some(values), Some(bound)) => if evidence.distribution is Some {
            RangeMeasure::Distribution
        } else {
            bounds_measure(values.minimum, values.maximum, bound, constant)
        },
        _ => RangeMeasure::Unknown,
    }
}

/// Chooses how an ordered comparison is estimated: by the column's
/// distribution where there is one, by its bounds otherwise.
pub fn estimate_range_selectivity(
    evidence: &ColumnPredicateEvidence,
    constant: &Value,
    comparison: ComparisonType,
) -> (r: RangeMeasure)
    ensures
        r == range_measure(*evidence, constant@, comparison),
        r matches RangeMeasure::Share { matching, domain } ==> matching <= domain && domain > 0,
{
    let Some(values) = &evidence.values else {
        return RangeMeasure::Unknown;
    };
    let Some(bound) = comparison_bound(comparison) else {
        return RangeMeasure::Unknown;
    };
    if evidence.distribution.is_some() {
        return RangeMeasure::Distribution;
    }
    measure_bounds(&values.minimum, &values.maximum, bound, constant)
}

} // verus!
