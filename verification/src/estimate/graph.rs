//! Path bounds and graph identity.

use vstd::prelude::*;

use crate::estimate::cardinality::{capped, greatest, maximum, minimum, saturating_mul_u64};
use crate::operator::{ExpandDirection, GraphScan, LogicalOperator, PathQuantifier};
use crate::plan::{CardinalityEstimate, LogicalPlan};

verus! {

/// Longest path that a quantifier without a smaller bound is priced for.
pub const MAX_PRICED_HOPS: u64 = 4;

/// Fewest and most hops of a path step.
pub open spec fn hop_bounds(quantifier: Option<PathQuantifier>) -> (u64, u64) {
    match quantifier {
        None => (1, 1),
        Some(PathQuantifier::Plus) => (1, MAX_PRICED_HOPS),
        Some(PathQuantifier::Star) => (0, MAX_PRICED_HOPS),
        Some(PathQuantifier::Bounded { lower, upper }) => (
            lower,
            match upper {
                Some(upper) => if upper <= MAX_PRICED_HOPS {
                    upper
                } else {
                    MAX_PRICED_HOPS
                },
                None => MAX_PRICED_HOPS,
            },
        ),
    }
}

pub fn quantifier_bounds(quantifier: Option<PathQuantifier>) -> (r: (u64, u64))
    ensures
        r == hop_bounds(quantifier),
{
    match quantifier {
        None => (1, 1),
        Some(PathQuantifier::Plus) => (1, MAX_PRICED_HOPS),
        Some(PathQuantifier::Star) => (0, MAX_PRICED_HOPS),
        Some(PathQuantifier::Bounded { lower, upper }) => (
            lower,
            match upper {
                Some(upper) => minimum(upper, MAX_PRICED_HOPS),
                None => MAX_PRICED_HOPS,
            },
        ),
    }
}

/// How many times a single step is charged for.
pub open spec fn hop_factor(min_hops: u64, max_hops: u64) -> u64 {
    if min_hops == 1 && max_hops == 1 {
        1
    } else {
        greatest(max_hops, greatest(min_hops, 1))
    }
}

pub fn hop_multiplier(min_hops: u64, max_hops: u64) -> (r: u64)
    ensures
        r == hop_factor(min_hops, max_hops),
{
    if min_hops == 1 && max_hops == 1 {
        1
    } else {
        maximum(max_hops, maximum(min_hops, 1))
    }
}

/// Every path step is charged for at least once.
pub proof fn steps_are_charged(quantifier: Option<PathQuantifier>)
    ensures
        hop_factor(hop_bounds(quantifier).0, hop_bounds(quantifier).1) >= 1,
{
}

/// Whether an expansion follows edges out of, and into, the source label.
pub fn expand_directions(direction: ExpandDirection) -> (r: (bool, bool))
    ensures
        r.0 == (direction != ExpandDirection::Backward),
        r.1 == (direction != ExpandDirection::Forward),
{
    match direction {
        ExpandDirection::Forward => (true, false),
        ExpandDirection::Backward => (false, true),
        ExpandDirection::Both => (true, true),
    }
}

/// The name of the graph that a plan reads: that of the scan below its
/// expansions, filters and empty results.
pub open spec fn graph_name(plan: LogicalPlan) -> Option<Seq<char>>
    decreases plan,
{
    match plan.operator {
        LogicalOperator::GraphScan(scan) => Some(scan.graph_name@),
        LogicalOperator::GraphExpand(_) => if plan.children@.len() > 0 {
            graph_name(plan.children@[0])
        } else {
            None
        },
        LogicalOperator::Filter(_) => if plan.children@.len() > 0 {
            graph_name(plan.children@[0])
        } else {
            None
        },
        LogicalOperator::EmptyResult => if plan.children@.len() > 0 {
            graph_name(plan.children@[0])
        } else {
            None
        },
        _ => None,
    }
}

pub fn graph_name_for_plan(plan: &LogicalPlan) -> (r: Option<&String>)
    ensures
        match r {
            Some(name) => graph_name(*plan) == Some(name@),
            None => graph_name(*plan) is None,
        },
{
    let mut current = plan;
    loop
        invariant
            graph_name(*plan) == graph_name(*current),
        decreases *current,
    {
        match &current.operator {
            LogicalOperator::GraphScan(scan) => {
                return Some(&scan.graph_name);
            },
            LogicalOperator::GraphExpand(_) => {},
            LogicalOperator::Filter(_) => {},
            LogicalOperator::EmptyResult => {},
            _ => {
                return None;
            },
        }
        if current.children.len() == 0 {
            return None;
        }
        current = &current.children[0];
    }
}

/// Vertices that are assumed of a label without statistics.
pub open spec fn label_rows(vertices: Option<u64>, filtered: bool) -> u64 {
    match vertices {
        Some(vertices) => vertices,
        None => if filtered {
            100
        } else {
            1000
        },
    }
}

pub fn label_vertices(vertices: Option<u64>, filtered: bool) -> (r: u64)
    ensures
        r == label_rows(vertices, filtered),
{
    match vertices {
        Some(vertices) => vertices,
        None => if filtered {
            100
        } else {
            1000
        },
    }
}

/// Rows of a vertex scan that keeps `kept` of `vertices` vertices.
pub open spec fn scan_rows(vertices: u64, kept: u64, filtered: bool) -> CardinalityEstimate {
    let expected = greatest(kept, 1);
    CardinalityEstimate {
        min: if filtered {
            (expected / 2) as u64
        } else {
            expected
        },
        expected,
        max: greatest(vertices, expected),
    }
}

pub fn graph_scan_rows(vertices: u64, kept: u64, filtered: bool) -> (r: CardinalityEstimate)
    ensures
        r == scan_rows(vertices, kept, filtered),
{
    let expected: u64 = maximum(kept, 1);
    CardinalityEstimate {
        min: if filtered {
            expected / 2
        } else {
            expected
        },
        expected,
        max: maximum(vertices, expected),
    }
}

/// Rows of an expansion that reaches `reached` vertices in expectation.
pub open spec fn expansion_rows(reached: u64) -> CardinalityEstimate {
    CardinalityEstimate {
        min: greatest((reached / 2) as u64, 1),
        expected: greatest(reached, 1),
        max: capped(reached * 2),
    }
}

pub fn graph_expand_rows(reached: u64) -> (r: CardinalityEstimate)
    ensures
        r == expansion_rows(reached),
{
    CardinalityEstimate {
        min: maximum(reached / 2, 1),
        expected: maximum(reached, 1),
        max: saturating_mul_u64(reached, 2),
    }
}

/// A plain step is one hop. A repeated one has as many hops at least as it names,
/// zero for a star, and no more are priced than the largest number.
pub proof fn hops_lie_in_their_bounds(quantifier: Option<PathQuantifier>)
    ensures
        ({
            let (fewest, most) = hop_bounds(quantifier);
            &&& quantifier is None ==> fewest == 1 && most == 1
            &&& quantifier is Some ==> most <= MAX_PRICED_HOPS
            &&& quantifier matches Some(PathQuantifier::Star) ==> fewest == 0
            &&& quantifier matches Some(PathQuantifier::Plus) ==> fewest == 1
            &&& quantifier matches Some(PathQuantifier::Bounded { lower, upper }) ==> fewest
                == lower && (upper matches Some(upper) ==> most <= upper) && (upper is None
                ==> most == MAX_PRICED_HOPS)
            &&& hop_factor(fewest, most) >= fewest && hop_factor(fewest, most) >= most
        }),
{
}

/// Scans and expansions expect a row at least, and their bounds are in order.
pub proof fn graph_rows_are_ordered(vertices: u64, kept: u64, filtered: bool, reached: u64)
    ensures
        ({
            let scan = scan_rows(vertices, kept, filtered);
            &&& 1 <= scan.expected
            &&& scan.min <= scan.expected <= scan.max
            &&& kept > 0 ==> scan.expected == kept
            &&& !filtered ==> scan.min == scan.expected
            &&& vertices <= scan.max
        }),
        ({
            let expansion = expansion_rows(reached);
            &&& 1 <= expansion.min <= expansion.expected
            &&& reached > 0 ==> expansion.expected == reached && expansion.expected
                <= expansion.max
        }),
{
}

} // verus!
