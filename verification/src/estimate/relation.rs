//! Row estimates of single operators over completed inputs.

use std::collections::HashMap;
use vstd::prelude::*;

use crate::domain::whole_number;
use crate::estimate::cardinality::{
    apply_limit_estimate, capped, greatest, least, limited_estimate, maximum, minimum, product,
    product_estimate, saturating_add_u64, saturating_mul_u64, sum, sum_estimate,
};
use crate::estimate::finite_filter::{estimate_filter_cardinality, filter_decision, FilterDecision};
use crate::estimate::graph::{
    graph_scan_rows, hop_bounds, hop_factor, hop_multiplier, label_rows, label_vertices,
    quantifier_bounds, scan_rows,
};
use crate::estimate::groups::{
    aggregate_rows, distinct_rows, estimate_aggregate_rows, estimate_distinct_cardinality,
};
use crate::estimate::join::{comparison_join, estimate_comparison_join, JoinDecision};
use crate::expression::analysis::views;
use crate::expression::{Expression, ExpressionView};
use crate::layout::{bindings_of, layouts_of, LogicalOutputLayout};
use crate::operator::{
    ExternalTable, Get, Join, LogicalOperator, MaterializedCTE, OutputColumn, Statement,
};
use crate::plan::{CardinalityEstimate, LogicalPlan};
use crate::statistics::{ColumnStatistics, ColumnStatisticsLookup};
use crate::types::{ColumnBinding, LogicalType, SetOpType};
use crate::value::{Value, ValueView};

verus! {

/// A row count that a literal states.
pub open spec fn literal_count(value: ValueView) -> Option<usize> {
    match value {
        ValueView::Text(_) => None,
        ValueView::Plain(value) => match value {
            Value::TinyInt(v) => if v >= 0 {
                Some(v as usize)
            } else {
                None
            },
            Value::SmallInt(v) => if v >= 0 {
                Some(v as usize)
            } else {
                None
            },
            Value::Integer(v) => if v >= 0 {
                Some(v as usize)
            } else {
                None
            },
            Value::BigInt(v) => if v >= 0 {
                Some(v as usize)
            } else {
                None
            },
            Value::UTinyInt(v) => Some(v as usize),
            Value::USmallInt(v) => Some(v as usize),
            Value::UInteger(v) => Some(v as usize),
            Value::UBigInt(v) => if v <= usize::MAX {
                Some(v as usize)
            } else {
                None
            },
            _ => None,
        },
    }
}

pub open spec fn constant_count(e: ExpressionView) -> Option<usize> {
    match e {
        ExpressionView::Constant(value, _) => literal_count(value),
        _ => None,
    }
}

/// The row count that a constant expression states.
pub fn extract_constant_usize(e: &Expression) -> (r: Option<usize>)
    ensures
        r == constant_count(e@),
{
    let Expression::Constant(constant) = e else {
        return None;
    };
    match &constant.value {
        Value::TinyInt(v) => if *v >= 0 {
            Some(*v as usize)
        } else {
            None
        },
        Value::SmallInt(v) => if *v >= 0 {
            Some(*v as usize)
        } else {
            None
        },
        Value::Integer(v) => if *v >= 0 {
            Some(*v as usize)
        } else {
            None
        },
        Value::BigInt(v) => if *v >= 0 {
            Some(*v as usize)
        } else {
            None
        },
        Value::UTinyInt(v) => Some(*v as usize),
        Value::USmallInt(v) => Some(*v as usize),
        Value::UInteger(v) => Some(*v as usize),
        Value::UBigInt(v) => if *v <= usize::MAX as u64 {
            Some(*v as usize)
        } else {
            None
        },
        _ => None,
    }
}

pub open spec fn optional_count(e: Option<Expression>) -> Option<usize> {
    match e {
        Some(e) => constant_count(e@),
        None => None,
    }
}

fn count_of(e: &Option<Expression>) -> (r: Option<usize>)
    ensures
        r == optional_count(*e),
{
    match e {
        Some(e) => extract_constant_usize(e),
        None => None,
    }
}

/// The configured row count of a table without statistics.
pub open spec fn default_rows(setting: Option<Value>) -> usize {
    match setting {
        Some(Value::BigInt(v)) => if v > 0 {
            v as usize
        } else {
            1000
        },
        Some(Value::Integer(v)) => if v > 0 {
            v as usize
        } else {
            1000
        },
        _ => 1000,
    }
}

/// Row count that the session assumes of a table without statistics.
pub fn default_table_cardinality(setting: &Option<Value>) -> (r: usize)
    ensures
        r == default_rows(*setting),
{
    match setting {
        Some(Value::BigInt(v)) => if *v > 0 {
            *v as usize
        } else {
            1000
        },
        Some(Value::Integer(v)) => if *v > 0 {
            *v as usize
        } else {
            1000
        },
        _ => 1000,
    }
}

/// Rows of a stored table; at least one where the storage knows.
pub open spec fn table_rows(get: Get, default_table_rows: usize) -> u64 {
    match get.storage_rows {
        Some(rows) => if rows == 0 {
            1
        } else {
            rows as u64
        },
        None => default_table_rows as u64,
    }
}

pub fn get_storage_rows(get: &Get, default_table_rows: usize) -> (r: u64)
    ensures
        r == table_rows(*get, default_table_rows),
{
    match get.storage_rows {
        Some(rows) => if rows == 0 {
            1
        } else {
            rows as u64
        },
        None => default_table_rows as u64,
    }
}

/// The rows of input `i`, where there is such an input and they are known.
pub open spec fn input_rows(children: Seq<LogicalPlan>, i: int) -> Option<CardinalityEstimate> {
    if 0 <= i < children.len() {
        children[i].stats.estimated_cardinality
    } else {
        None
    }
}

fn rows_of(children: &Vec<LogicalPlan>, i: usize) -> (r: Option<CardinalityEstimate>)
    ensures
        r == input_rows(children@, i as int),
{
    if i < children.len() {
        children[i].stats.estimated_cardinality
    } else {
        None
    }
}

/// Rows of a table routine, invoked once per input row.
pub open spec fn routine_rows(
    table: ExternalTable,
    child: Option<CardinalityEstimate>,
) -> CardinalityEstimate {
    let each = match table.rows_hint {
        Some(rows) => CardinalityEstimate {
            min: 0,
            expected: rows,
            max: greatest(capped(rows * 16), rows),
        },
        None => CardinalityEstimate { min: 0, expected: 100, max: 1_000_000_000 },
    };
    let invocations = match child {
        Some(child) => child,
        None => CardinalityEstimate::spec_exact(1),
    };
    product(invocations, each)
}

/// Estimates the rows of a table routine. Declared rows are an estimate, no
/// bound, so the interval stays broad.
pub fn external_table_cardinality(
    table: &ExternalTable,
    child: Option<CardinalityEstimate>,
) -> (r: CardinalityEstimate)
    ensures
        r == routine_rows(*table, child),
{
    let each = match table.rows_hint {
        Some(rows) => CardinalityEstimate {
            min: 0,
            expected: rows,
            max: maximum(saturating_mul_u64(rows, 16), rows),
        },
        None => CardinalityEstimate { min: 0, expected: 100, max: 1_000_000_000 },
    };
    let invocations = match child {
        Some(child) => child,
        None => CardinalityEstimate::exact(1),
    };
    product_estimate(invocations, each)
}

/// Rows of a set operation.
pub open spec fn set_operation_rows(
    kind: SetOpType,
    all: bool,
    left: CardinalityEstimate,
    right: CardinalityEstimate,
) -> CardinalityEstimate {
    match kind {
        SetOpType::Union => if all {
            sum(left, right)
        } else {
            CardinalityEstimate {
                min: greatest(left.expected, right.expected),
                expected: capped(
                    greatest(left.expected, right.expected) + (least(
                        left.expected,
                        right.expected,
                    ) / 2),
                ),
                max: capped(left.max + right.max),
            }
        },
        SetOpType::Intersect => CardinalityEstimate {
            min: 0,
            expected: least(left.expected, right.expected),
            max: least(left.max, right.max),
        },
        SetOpType::Except => CardinalityEstimate {
            min: 0,
            expected: left.expected,
            max: left.max,
        },
    }
}

pub fn set_operation_cardinality(
    kind: SetOpType,
    all: bool,
    left: CardinalityEstimate,
    right: CardinalityEstimate,
) -> (r: CardinalityEstimate)
    ensures
        r == set_operation_rows(kind, all, left, right),
{
    match kind {
        SetOpType::Union => if all {
            sum_estimate(left, right)
        } else {
            CardinalityEstimate {
                min: maximum(left.expected, right.expected),
                expected: saturating_add_u64(
                    maximum(left.expected, right.expected),
                    minimum(left.expected, right.expected) / 2,
                ),
                max: saturating_add_u64(left.max, right.max),
            }
        },
        SetOpType::Intersect => CardinalityEstimate {
            min: 0,
            expected: minimum(left.expected, right.expected),
            max: minimum(left.max, right.max),
        },
        SetOpType::Except => CardinalityEstimate {
            min: 0,
            expected: left.expected,
            max: left.max,
        },
    }
}

/// Rows of a fixpoint, from the rows of its anchor and of one iteration.
pub open spec fn fixpoint_rows(
    anchor: CardinalityEstimate,
    recursive: Option<CardinalityEstimate>,
) -> CardinalityEstimate {
    let recursive = match recursive {
        Some(recursive) => recursive,
        None => anchor,
    };
    CardinalityEstimate {
        min: anchor.min,
        expected: greatest(anchor.expected, recursive.expected),
        max: capped(anchor.max + recursive.max),
    }
}

/// The predicates that a search scan applies to the table's rows, in order.
pub open spec fn scan_conditions(operator: LogicalOperator) -> Seq<Expression> {
    match operator {
        LogicalOperator::SearchScan(scan) => scan.absorbed_predicates@ + scan.residual_predicates@
            + scan.get.runtime_filter_expressions@,
        LogicalOperator::FullTextFilterScan(scan) => seq![scan.match_expression]
            + scan.other_predicates@ + scan.residual_predicates@
            + scan.get.runtime_filter_expressions@,
        _ => Seq::empty(),
    }
}

fn append_copies(expressions: &Vec<Expression>, out: &mut Vec<Expression>)
    ensures
        final(out)@ == old(out)@ + expressions@,
{
    let ghost before = out@;
    let mut i: usize = 0;
    assert(before + expressions@.take(0) =~= before);
    while i < expressions.len()
        invariant
            i <= expressions@.len(),
            out@ == before + expressions@.take(i as int),
        decreases expressions@.len() - i,
    {
        out.push(expressions[i].copy());
        assert(out@ =~= before + expressions@.take(i + 1));
        i = i + 1;
    }
    assert(expressions@.take(i as int) =~= expressions@);
}

/// The predicates of a search scan. Their selectivity scales the table's rows.
pub fn scan_predicates(operator: &LogicalOperator) -> (r: Vec<Expression>)
    ensures
        r@ == scan_conditions(*operator),
{
    let mut r: Vec<Expression> = Vec::new();
    match operator {
        LogicalOperator::SearchScan(scan) => {
            append_copies(&scan.absorbed_predicates, &mut r);
            append_copies(&scan.residual_predicates, &mut r);
            append_copies(&scan.get.runtime_filter_expressions, &mut r);
        },
        LogicalOperator::FullTextFilterScan(scan) => {
            r.push(scan.match_expression.copy());
            append_copies(&scan.other_predicates, &mut r);
            append_copies(&scan.residual_predicates, &mut r);
            append_copies(&scan.get.runtime_filter_expressions, &mut r);
        },
        _ => {},
    }
    assert(r@ =~= scan_conditions(*operator));
    r
}

/// How the rows of one operator are found.
#[derive(Debug)]
pub enum RowDecision {
    /// The estimate; none where the rows cannot be estimated.
    Rows(Option<CardinalityEstimate>),
    /// These groups, scaled by the selectivity of the aggregation's own
    /// predicate.
    Reduced { groups: CardinalityEstimate },
    Filtered(FilterDecision),
    /// All pairs of these inputs, scaled by the selectivity of the join
    /// conditions.
    Joined { left: CardinalityEstimate, right: CardinalityEstimate },
    /// Table rows, scaled by the selectivity of the scan's predicates and then
    /// limited.
    Scanned { rows: u64, limit: Option<usize> },
    /// Vertices, scaled by the selectivity of the scan's filter.
    GraphFiltered { vertices: u64 },
    /// Rows that each expand, for a number of hops.
    Expanded { rows: u64, hops: u64 },
}

/// What the estimator reads besides the inputs of an operator.
pub struct CardinalityInputs<'a, L> {
    pub columns: &'a L,
    pub default_table_rows: usize,
    /// Vertices of the label that a graph scan reads, where they are counted.
    pub vertex_count: Option<u64>,
}

/// Row estimates of producers, for the operators that read them.
pub struct PublishedRows {
    /// By shared definition.
    pub ctes: HashMap<usize, CardinalityEstimate>,
    /// By relation of the outer key scan.
    pub delims: HashMap<usize, CardinalityEstimate>,
}

pub open spec fn published(rows: Map<usize, CardinalityEstimate>, index: usize) -> Option<
    CardinalityEstimate,
> {
    if rows.contains_key(index) {
        Some(rows[index])
    } else {
        None
    }
}

/// The rows of an operator that needs no selectivity.
pub open spec fn plain_rows(
    operator: LogicalOperator,
    current: Option<CardinalityEstimate>,
    children: Seq<LogicalPlan>,
    layouts: Seq<Seq<OutputColumn>>,
    known: Map<ColumnBinding, ColumnStatistics>,
    default_table_rows: usize,
    ctes: Map<usize, CardinalityEstimate>,
    delims: Map<usize, CardinalityEstimate>,
) -> Option<CardinalityEstimate> {
    match operator {
        LogicalOperator::DummyScan => Some(CardinalityEstimate::spec_exact(1)),
        LogicalOperator::SubplanRef(_) => current,
        LogicalOperator::Get(get) => Some(
            CardinalityEstimate::spec_exact(table_rows(get, default_table_rows)),
        ),
        LogicalOperator::ExpressionGet(get) => Some(
            CardinalityEstimate::spec_exact(get.rows@.len() as u64),
        ),
        LogicalOperator::DelimGet(get) => match published(delims, get.table_index) {
            Some(rows) => Some(rows),
            None => Some(CardinalityEstimate::spec_exact(1)),
        },
        LogicalOperator::TableFunctionGet(_) => Some(CardinalityEstimate::spec_exact(100)),
        LogicalOperator::ExternalTable(table) => Some(
            routine_rows(table, input_rows(children, 0)),
        ),
        LogicalOperator::Distinct => match input_rows(children, 0) {
            Some(child) => if layouts.len() == 0 {
                None
            } else {
                Some(distinct_rows(layouts[0], known, child))
            },
            None => None,
        },
        LogicalOperator::Limit(limit) => match input_rows(children, 0) {
            Some(child) => Some(
                limited_estimate(
                    child,
                    optional_count(limit.limit),
                    match optional_count(limit.offset) {
                        Some(offset) => offset,
                        None => 0,
                    },
                ),
            ),
            None => None,
        },
        LogicalOperator::TopN(topn) => match input_rows(children, 0) {
            Some(child) => Some(limited_estimate(child, Some(topn.limit), topn.offset)),
            None => None,
        },
        LogicalOperator::Join(Join::Cross(_)) => match (
            input_rows(children, 0),
            input_rows(children, 1),
        ) {
            (Some(left), Some(right)) => if layouts.len() < 2 {
                None
            } else {
                Some(product(left, right))
            },
            _ => None,
        },
        LogicalOperator::DependentJoin(_) => match (
            input_rows(children, 0),
            input_rows(children, 1),
        ) {
            (Some(left), Some(right)) => Some(product(left, right)),
            _ => None,
        },
        LogicalOperator::SetOperation(set) => match (
            input_rows(children, 0),
            input_rows(children, 1),
        ) {
            (Some(left), Some(right)) => Some(
                set_operation_rows(set.setop_type, set.setop_all, left, right),
            ),
            _ => None,
        },
        LogicalOperator::EmptyResult => Some(CardinalityEstimate::spec_exact(0)),
        LogicalOperator::MaterializedCTE(_) => if layouts.len() == 0 {
            None
        } else {
            input_rows(children, 1)
        },
        LogicalOperator::RecursiveCTE(_) => match input_rows(children, 0) {
            Some(anchor) => if layouts.len() == 0 {
                None
            } else {
                Some(fixpoint_rows(anchor, input_rows(children, 1)))
            },
            None => None,
        },
        LogicalOperator::CTERef(reference) => match published(ctes, reference.cte_index) {
            Some(rows) => Some(rows),
            None => current,
        },
        LogicalOperator::GraphMatch => None,
        LogicalOperator::Statement(statement) => match statement {
            Statement::Insert => Some(CardinalityEstimate::spec_exact(1)),
            Statement::Delete => Some(CardinalityEstimate::spec_exact(1)),
            Statement::Update => Some(CardinalityEstimate::spec_exact(1)),
            Statement::CopyTo => Some(CardinalityEstimate::spec_exact(1)),
            _ => None,
        },
        _ => input_rows(children, 0),
    }
}

/// Whether `r` decides the rows of an operator.
pub open spec fn decides_rows(
    r: RowDecision,
    operator: LogicalOperator,
    current: Option<CardinalityEstimate>,
    children: Seq<LogicalPlan>,
    layouts: Seq<Seq<OutputColumn>>,
    known: Map<ColumnBinding, ColumnStatistics>,
    default_table_rows: usize,
    vertex_count: Option<u64>,
    ctes: Map<usize, CardinalityEstimate>,
    delims: Map<usize, CardinalityEstimate>,
) -> bool {
    match operator {
        LogicalOperator::Filter(filter) => match input_rows(children, 0) {
            Some(child) => if layouts.len() == 0 {
                r == RowDecision::Rows(None)
            } else {
                r matches RowDecision::Filtered(decision) && filter_decision(
                    decision,
                    views(filter.expressions@),
                    child,
                    children[0].stats.finite_domains@,
                )
            },
            None => r == RowDecision::Rows(None),
        },
        LogicalOperator::Aggregate(aggregate) => match input_rows(children, 0) {
            Some(child) => if aggregate.post_reduction is Some && aggregate.groups@.len() > 0 {
                r == (RowDecision::Reduced { groups: aggregate_rows(aggregate, known, child) })
            } else {
                r == RowDecision::Rows(Some(aggregate_rows(aggregate, known, child)))
            },
            None => r == RowDecision::Rows(None),
        },
        LogicalOperator::Join(Join::Any(_)) => match (
            input_rows(children, 0),
            input_rows(children, 1),
        ) {
            (Some(left), Some(right)) => if layouts.len() < 2 {
                r == RowDecision::Rows(None)
            } else {
                r == (RowDecision::Joined { left, right })
            },
            _ => r == RowDecision::Rows(None),
        },
        LogicalOperator::Join(Join::Comparison(join)) => match (
            input_rows(children, 0),
            input_rows(children, 1),
        ) {
            (Some(left), Some(right)) => if layouts.len() < 2 {
                r == RowDecision::Rows(None)
            } else {
                match comparison_join(
                    join,
                    left,
                    right,
                    bindings_of(layouts[0]),
                    bindings_of(layouts[1]),
                    children[0].stats.unique_keys@,
                    children[1].stats.unique_keys@,
                    known,
                ) {
                    JoinDecision::Rows(rows) => r == RowDecision::Rows(Some(rows)),
                    JoinDecision::BySelectivity => r == (RowDecision::Joined { left, right }),
                }
            },
            _ => r == RowDecision::Rows(None),
        },
        LogicalOperator::SearchScan(scan) => r == (RowDecision::Scanned {
            rows: table_rows(scan.get, default_table_rows),
            limit: Some(scan.limit),
        }),
        LogicalOperator::FullTextFilterScan(scan) => r == (RowDecision::Scanned {
            rows: table_rows(scan.get, default_table_rows),
            limit: None,
        }),
        LogicalOperator::GraphScan(scan) => if scan.filter is Some {
            r == (RowDecision::GraphFiltered { vertices: label_rows(vertex_count, true) })
        } else {
            let vertices = label_rows(vertex_count, false);
            r == RowDecision::Rows(Some(scan_rows(vertices, vertices, false)))
        },
        LogicalOperator::GraphExpand(expand) => {
            let child = match input_rows(children, 0) {
                Some(child) => child,
                None => CardinalityEstimate::spec_exact(1000),
            };
            r == (RowDecision::Expanded {
                rows: greatest(child.expected, 1),
                hops: hop_factor(
                    hop_bounds(expand.quantifier).0,
                    hop_bounds(expand.quantifier).1,
                ),
            })
        },
        _ => r == RowDecision::Rows(
            plain_rows(
                operator,
                current,
                children,
                layouts,
                known,
                default_table_rows,
                ctes,
                delims,
            ),
        ),
    }
}

/// The published definitions after an operator has been estimated: the owner
/// of a definition publishes the rows of its producer.
pub open spec fn published_after(
    operator: LogicalOperator,
    children: Seq<LogicalPlan>,
    ctes: Map<usize, CardinalityEstimate>,
) -> Map<usize, CardinalityEstimate> {
    match operator {
        LogicalOperator::MaterializedCTE(cte) => match input_rows(children, 0) {
            Some(rows) => ctes.insert(cte.cte_index, rows),
            None => ctes,
        },
        LogicalOperator::RecursiveCTE(cte) => match input_rows(children, 0) {
            Some(anchor) => ctes.insert(
                cte.cte_index,
                fixpoint_rows(anchor, input_rows(children, 1)),
            ),
            None => ctes,
        },
        _ => ctes,
    }
}

impl PublishedRows {
    pub fn new() -> (r: PublishedRows)
        ensures
            r.ctes@ == Map::<usize, CardinalityEstimate>::empty(),
            r.delims@ == Map::<usize, CardinalityEstimate>::empty(),
    {
        PublishedRows { ctes: HashMap::new(), delims: HashMap::new() }
    }

    /// Decides the rows of one operator from its completed inputs. Estimation
    /// reads what was known of the inputs, never what this operator proves of
    /// its own output.
    pub fn estimate_plan_cardinality<L: ColumnStatisticsLookup>(
        &mut self,
        operator: &LogicalOperator,
        current: Option<CardinalityEstimate>,
        children: &Vec<LogicalPlan>,
        layouts: &[LogicalOutputLayout],
        inputs: &CardinalityInputs<L>,
    ) -> (r: RowDecision)
        ensures
            decides_rows(
                r,
                *operator,
                current,
                children@,
                layouts_of(layouts@),
                inputs.columns.known(),
                inputs.default_table_rows,
                inputs.vertex_count,
                old(self).ctes@,
                old(self).delims@,
            ),
            final(self).ctes@ == published_after(*operator, children@, old(self).ctes@),
            final(self).delims@ == old(self).delims@,
    {
        broadcast use vstd::std_specs::hash::group_hash_axioms;

        match operator {
            LogicalOperator::DummyScan => RowDecision::Rows(Some(CardinalityEstimate::exact(1))),
            LogicalOperator::SubplanRef(_) => RowDecision::Rows(current),
            LogicalOperator::Get(get) => RowDecision::Rows(
                Some(
                    CardinalityEstimate::exact(
                        get_storage_rows(get, inputs.default_table_rows),
                    ),
                ),
            ),
            LogicalOperator::ExpressionGet(get) => RowDecision::Rows(
                Some(CardinalityEstimate::exact(get.rows.len() as u64)),
            ),
            LogicalOperator::DelimGet(get) => match self.delims.get(&get.table_index) {
                Some(rows) => RowDecision::Rows(Some(*rows)),
                None => RowDecision::Rows(Some(CardinalityEstimate::exact(1))),
            },
            LogicalOperator::TableFunctionGet(_) => RowDecision::Rows(
                Some(CardinalityEstimate::exact(100)),
            ),
            LogicalOperator::ExternalTable(table) => RowDecision::Rows(
                Some(external_table_cardinality(table, rows_of(children, 0))),
            ),
            LogicalOperator::Distinct => {
                let Some(child) = rows_of(children, 0) else {
                    return RowDecision::Rows(None);
                };
                if layouts.len() == 0 {
                    return RowDecision::Rows(None);
                }
                RowDecision::Rows(
                    Some(
                        estimate_distinct_cardinality(&layouts[0].columns, inputs.columns, child),
                    ),
                )
            },
            LogicalOperator::Filter(filter) => {
                let Some(child) = rows_of(children, 0) else {
                    return RowDecision::Rows(None);
                };
                if layouts.len() == 0 {
                    return RowDecision::Rows(None);
                }
                RowDecision::Filtered(
                    estimate_filter_cardinality(
                        &filter.expressions,
                        child,
                        &children[0].stats.finite_domains,
                    ),
                )
            },
            LogicalOperator::Limit(limit) => match rows_of(children, 0) {
                Some(child) => {
                    let offset: usize = match count_of(&limit.offset) {
                        Some(offset) => offset,
                        None => 0,
                    };
                    RowDecision::Rows(
                        Some(apply_limit_estimate(child, count_of(&limit.limit), offset)),
                    )
                },
                None => RowDecision::Rows(None),
            },
            LogicalOperator::TopN(topn) => match rows_of(children, 0) {
                Some(child) => RowDecision::Rows(
                    Some(apply_limit_estimate(child, Some(topn.limit), topn.offset)),
                ),
                None => RowDecision::Rows(None),
            },
            LogicalOperator::Aggregate(aggregate) => match rows_of(children, 0) {
                Some(child) => {
                    let groups = estimate_aggregate_rows(aggregate, inputs.columns, child);
                    if aggregate.post_reduction.is_some() && aggregate.groups.len() > 0 {
                        RowDecision::Reduced { groups }
                    } else {
                        RowDecision::Rows(Some(groups))
                    }
                },
                None => RowDecision::Rows(None),
            },
            LogicalOperator::Join(join) => self.estimate_join_cardinality(
                join,
                children,
                layouts,
                inputs,
            ),
            LogicalOperator::DependentJoin(_) => match (rows_of(children, 0), rows_of(children, 1)) {
                (Some(left), Some(right)) => RowDecision::Rows(
                    Some(product_estimate(left, right)),
                ),
                _ => RowDecision::Rows(None),
            },
            LogicalOperator::SetOperation(set) => match (
                rows_of(children, 0),
                rows_of(children, 1),
            ) {
                (Some(left), Some(right)) => RowDecision::Rows(
                    Some(set_operation_cardinality(set.setop_type, set.setop_all, left, right)),
                ),
                _ => RowDecision::Rows(None),
            },
            LogicalOperator::EmptyResult => RowDecision::Rows(Some(CardinalityEstimate::exact(0))),
            LogicalOperator::MaterializedCTE(cte) => {
                if let Some(rows) = rows_of(children, 0) {
                    self.ctes.insert(cte.cte_index, rows);
                }
                if layouts.len() == 0 {
                    return RowDecision::Rows(None);
                }
                RowDecision::Rows(rows_of(children, 1))
            },
            LogicalOperator::RecursiveCTE(cte) => {
                let Some(anchor) = rows_of(children, 0) else {
                    return RowDecision::Rows(None);
                };
                let recursive = match rows_of(children, 1) {
                    Some(recursive) => recursive,
                    None => anchor,
                };
                let rows = CardinalityEstimate {
                    min: anchor.min,
                    expected: maximum(anchor.expected, recursive.expected),
                    max: saturating_add_u64(anchor.max, recursive.max),
                };
                self.ctes.insert(cte.cte_index, rows);
                if layouts.len() == 0 {
                    return RowDecision::Rows(None);
                }
                RowDecision::Rows(Some(rows))
            },
            LogicalOperator::CTERef(reference) => match self.ctes.get(&reference.cte_index) {
                Some(rows) => RowDecision::Rows(Some(*rows)),
                None => RowDecision::Rows(current),
            },
            LogicalOperator::SearchScan(scan) => RowDecision::Scanned {
                rows: get_storage_rows(&scan.get, inputs.default_table_rows),
                limit: Some(scan.limit),
            },
            LogicalOperator::FullTextFilterScan(scan) => RowDecision::Scanned {
                rows: get_storage_rows(&scan.get, inputs.default_table_rows),
                limit: None,
            },
            LogicalOperator::GraphMatch => RowDecision::Rows(None),
            LogicalOperator::GraphScan(scan) => {
                if scan.filter.is_some() {
                    RowDecision::GraphFiltered {
                        vertices: label_vertices(inputs.vertex_count, true),
                    }
                } else {
                    let vertices: u64 = label_vertices(inputs.vertex_count, false);
                    RowDecision::Rows(Some(graph_scan_rows(vertices, vertices, false)))
                }
            },
            LogicalOperator::GraphExpand(expand) => {
                let child = match rows_of(children, 0) {
                    Some(child) => child,
                    None => CardinalityEstimate::exact(1000),
                };
                let (min_hops, max_hops) = quantifier_bounds(expand.quantifier);
                RowDecision::Expanded {
                    rows: maximum(child.expected, 1),
                    hops: hop_multiplier(min_hops, max_hops),
                }
            },
            LogicalOperator::Statement(statement) => match statement {
                Statement::Insert => RowDecision::Rows(Some(CardinalityEstimate::exact(1))),
                Statement::Delete => RowDecision::Rows(Some(CardinalityEstimate::exact(1))),
                Statement::Update => RowDecision::Rows(Some(CardinalityEstimate::exact(1))),
                Statement::CopyTo => RowDecision::Rows(Some(CardinalityEstimate::exact(1))),
                _ => RowDecision::Rows(None),
            },
            _ => RowDecision::Rows(rows_of(children, 0)),
        }
    }

    fn estimate_join_cardinality<L: ColumnStatisticsLookup>(
        &self,
        join: &Join,
        children: &Vec<LogicalPlan>,
        layouts: &[LogicalOutputLayout],
        inputs: &CardinalityInputs<L>,
    ) -> (r: RowDecision)
        ensures
            forall|current: Option<CardinalityEstimate>, operator: LogicalOperator|
                operator == LogicalOperator::Join(*join) ==> #[trigger] decides_rows(
                    r,
                    operator,
                    current,
                    children@,
                    layouts_of(layouts@),
                    inputs.columns.known(),
                    inputs.default_table_rows,
                    inputs.vertex_count,
                    self.ctes@,
                    self.delims@,
                ),
    {
        let (left, right) = match (rows_of(children, 0), rows_of(children, 1)) {
            (Some(left), Some(right)) => (left, right),
            _ => {
                return RowDecision::Rows(None);
            },
        };
        if layouts.len() < 2 {
            return RowDecision::Rows(None);
        }
        match join {
            Join::Cross(_) => RowDecision::Rows(Some(product_estimate(left, right))),
            Join::Any(_) => RowDecision::Joined { left, right },
            Join::Comparison(comparison) => {
                let left_bindings = layouts[0].bindings();
                let right_bindings = layouts[1].bindings();
                match estimate_comparison_join(
                    comparison,
                    left,
                    right,
                    left_bindings.as_slice(),
                    right_bindings.as_slice(),
                    &children[0].stats.unique_keys,
                    &children[1].stats.unique_keys,
                    inputs.columns,
                ) {
                    JoinDecision::Rows(rows) => RowDecision::Rows(Some(rows)),
                    JoinDecision::BySelectivity => RowDecision::Joined { left, right },
                }
            },
        }
    }
}

/// A union keeps all rows of both inputs, or at least those of the larger one where
/// duplicates go; an intersection has no more rows than either input, a difference no
/// more than the left one. The order of the inputs of a union or an intersection does
/// not matter.
pub proof fn set_operations_are_bounded(left: CardinalityEstimate, right: CardinalityEstimate)
    ensures
        ({
            let all = set_operation_rows(SetOpType::Union, true, left, right);
            &&& left.expected + right.expected <= u64::MAX ==> all.expected == left.expected
                + right.expected
            &&& all == set_operation_rows(SetOpType::Union, true, right, left)
        }),
        ({
            let distinct = set_operation_rows(SetOpType::Union, false, left, right);
            &&& distinct.expected >= left.expected && distinct.expected >= right.expected
            &&& distinct.expected <= left.expected + right.expected
            &&& right.expected == 0 ==> distinct.expected == left.expected
            &&& distinct.min <= distinct.expected
            &&& distinct == set_operation_rows(SetOpType::Union, false, right, left)
        }),
        forall|all: bool|
            {
                let both = #[trigger] set_operation_rows(SetOpType::Intersect, all, left, right);
                &&& both.expected <= left.expected && both.expected <= right.expected
                &&& both.expected == left.expected || both.expected == right.expected
                &&& both.max <= left.max && both.max <= right.max
                &&& both.min == 0
                &&& both == set_operation_rows(SetOpType::Intersect, all, right, left)
            },
        forall|all: bool|
            {
                let rest = #[trigger] set_operation_rows(SetOpType::Except, all, left, right);
                &&& rest.expected == left.expected && rest.max == left.max
                &&& rest.min == 0
            },
{
}

/// A fixpoint has at least the rows of its anchor and expects no fewer than one
/// iteration gives; one whose iteration is unknown repeats its anchor.
pub proof fn fixpoint_covers_its_anchor(
    anchor: CardinalityEstimate,
    recursive: CardinalityEstimate,
)
    ensures
        fixpoint_rows(anchor, Some(recursive)).expected >= anchor.expected,
        fixpoint_rows(anchor, Some(recursive)).expected >= recursive.expected,
        fixpoint_rows(anchor, Some(recursive)).max >= anchor.max,
        fixpoint_rows(anchor, Some(recursive)).max >= recursive.max,
        fixpoint_rows(anchor, Some(recursive)).min == anchor.min,
        fixpoint_rows(anchor, None) == fixpoint_rows(anchor, Some(anchor)),
        fixpoint_rows(anchor, None).expected == anchor.expected,
{
}

/// A literal states a count exactly where it is a whole number that is one.
pub proof fn counts_are_whole_numbers(value: Value)
    ensures
        whole_number(value) matches Some(n) ==> {
            &&& n < 0 ==> literal_count(value@) is None
            &&& 0 <= n <= usize::MAX && !(value is HugeInt) ==> literal_count(value@) == Some(
                n as usize,
            )
        },
        whole_number(value) is None ==> literal_count(value@) is None,
{
}

/// A table has at least one row where its storage counts them, and the count where
/// it has any; without storage it has the rows that are assumed, of which there are
/// some.
pub proof fn tables_have_rows(get: Get, rows: usize, setting: Option<Value>)
    ensures
        get.storage_rows is Some ==> table_rows(get, rows) >= 1,
        get.storage_rows matches Some(known) ==> (known > 0 ==> table_rows(get, rows) == known),
        get.storage_rows is None ==> table_rows(get, rows) == rows,
        setting matches Some(Value::Integer(v)) ==> (v > 0 ==> default_rows(setting) == v),
        setting matches Some(Value::Integer(v)) ==> (v <= 0 ==> default_rows(setting)
            == default_rows(None)),
        default_rows(None) > 0,
{
}

/// A table routine is invoked once for each row of its input: none of an empty one.
pub proof fn routines_run_per_row(table: ExternalTable, child: CardinalityEstimate)
    ensures
        child.expected == 0 ==> routine_rows(table, Some(child)).expected == 0,
        routine_rows(table, Some(CardinalityEstimate::spec_exact(1))) == routine_rows(table, None),
        table.rows_hint matches Some(rows) ==> routine_rows(table, None).expected == rows
            && routine_rows(table, None).max >= rows,
        routine_rows(table, Some(child)).min == 0,
{
    assert(forall|n: u64| #[trigger] (1 * n) == n);
    assert(child.min * 0 == 0);
    let each = match table.rows_hint {
        Some(rows) => rows,
        None => 100,
    };
    if child.expected == 0 {
        assert(child.expected * each == 0) by (nonlinear_arith)
            requires
                child.expected == 0,
        ;
    }
}

/// An operator that puts out each row of its input once keeps the input's rows: a
/// projection, an order, a window. The owner of a definition has its reader's rows,
/// a read those that were published for the definition.
pub proof fn row_preserving_operators_keep_rows(
    operator: LogicalOperator,
    current: Option<CardinalityEstimate>,
    children: Seq<LogicalPlan>,
    layouts: Seq<Seq<OutputColumn>>,
    known: Map<ColumnBinding, ColumnStatistics>,
    default_table_rows: usize,
    ctes: Map<usize, CardinalityEstimate>,
    delims: Map<usize, CardinalityEstimate>,
)
    requires
        children.len() > 0,
    ensures
        ({
            let rows = plain_rows(
                operator,
                current,
                children,
                layouts,
                known,
                default_table_rows,
                ctes,
                delims,
            );
            &&& operator is Projection || operator is Order || operator is Window
                || operator is ExternalProject || operator is RowFetch ==> rows
                == children[0].stats.estimated_cardinality
            &&& operator is MaterializedCTE && layouts.len() > 0 && children.len() == 2 ==> rows
                == children[1].stats.estimated_cardinality
            &&& operator is EmptyResult ==> rows == Some(CardinalityEstimate::spec_exact(0))
            &&& operator matches LogicalOperator::CTERef(reference) ==> (ctes.contains_key(
                reference.cte_index,
            ) ==> rows == Some(ctes[reference.cte_index]))
        }),
{
}

/// A definition that an owner publishes is what its reads find: the rows of the
/// definition, not those of the reader.
pub proof fn published_rows_are_the_definition(
    cte: MaterializedCTE,
    children: Seq<LogicalPlan>,
    rows: CardinalityEstimate,
    ctes: Map<usize, CardinalityEstimate>,
    other: usize,
)
    requires
        children.len() == 2,
        children[0].stats.estimated_cardinality == Some(rows),
        other != cte.cte_index,
    ensures
        ({
            let after = published_after(LogicalOperator::MaterializedCTE(cte), children, ctes);
            &&& published(after, cte.cte_index) == Some(rows)
            &&& published(after, other) == published(ctes, other)
        }),
{
}

/// A limit states a count exactly where it is a whole number that is not negative, and
/// states that number.
pub proof fn only_constants_state_counts(e: ExpressionView, value: Value, ty: LogicalType)
    ensures
        !(e is Constant) ==> constant_count(e) is None,
        whole_number(value) matches Some(n) ==> {
            &&& n < 0 ==> constant_count(ExpressionView::Constant(value@, ty)) is None
            &&& 0 <= n <= usize::MAX && !(value is HugeInt) ==> constant_count(
                ExpressionView::Constant(value@, ty),
            ) == Some(n as usize)
        },
{
    counts_are_whole_numbers(value);
}

} // verus!
