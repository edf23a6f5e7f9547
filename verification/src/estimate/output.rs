//! Statistics of the columns that an operator puts out.

use vstd::prelude::*;

use crate::estimate::finite_filter::{all_conditions, collect_all_conditions};
use crate::expression::analysis::{lemma_view_children, result_type, views};
use crate::expression::equality::{equality_domain, finite_equality_domain, value_views};
use crate::expression::{AggregateFunction, Expression, ExpressionView};
use crate::layout::{bindings_of, picked, projected, LogicalOutputLayout};
use crate::numeric::{
    is_number, is_numeric_value, key_of_value, literal_type, numeric_key, type_of_value,
};
use crate::operator::{Filter, OutputColumn, ProjectionMap};
use crate::statistics::{
    ColumnStatistics, ColumnStatisticsLookup, DistinctEvidence, DistinctProvenance,
};
use crate::types::{ColumnBinding, LogicalType};
use crate::value::{Value, ValueView};

verus! {

/// Statistics of a column; unknown where none are kept.
pub open spec fn known_or_unknown(
    known: Map<ColumnBinding, ColumnStatistics>,
    binding: ColumnBinding,
    logical_type: LogicalType,
) -> ColumnStatistics {
    if known.contains_key(binding) {
        known[binding]
    } else {
        ColumnStatistics::unknown(logical_type)
    }
}

fn statistics_or_unknown<L: ColumnStatisticsLookup>(
    columns: &L,
    binding: ColumnBinding,
    logical_type: LogicalType,
) -> (r: ColumnStatistics)
    ensures
        r == known_or_unknown(columns.known(), binding, logical_type),
{
    match columns.get(&binding) {
        Some(statistics) => statistics.copy(),
        None => ColumnStatistics::create_unknown(logical_type),
    }
}

/// Statistics of all columns of a layout.
pub open spec fn layout_statistics(
    columns: Seq<OutputColumn>,
    known: Map<ColumnBinding, ColumnStatistics>,
) -> Seq<ColumnStatistics> {
    columns.map_values(
        |column: OutputColumn| known_or_unknown(known, column.binding, column.logical_type),
    )
}

pub fn collect_output_stats_for_layout<L: ColumnStatisticsLookup>(
    layout: &LogicalOutputLayout,
    columns: &L,
) -> (r: Vec<ColumnStatistics>)
    ensures
        r@ == layout_statistics(layout.columns@, columns.known()),
{
    let mut r: Vec<ColumnStatistics> = Vec::new();
    let mut i: usize = 0;
    while i < layout.columns.len()
        invariant
            i <= layout.columns@.len(),
            r@ == layout_statistics(layout.columns@, columns.known()).take(i as int),
        decreases layout.columns@.len() - i,
    {
        let column = layout.columns[i];
        r.push(statistics_or_unknown(columns, column.binding, column.logical_type));
        assert(r@ =~= layout_statistics(layout.columns@, columns.known()).take(i + 1));
        i = i + 1;
    }
    assert(r@ =~= layout_statistics(layout.columns@, columns.known()));
    r
}

/// Statistics of columns of which only the types are known.
pub open spec fn unknown_statistics(types: Seq<LogicalType>) -> Seq<ColumnStatistics> {
    types.map_values(|ty: LogicalType| ColumnStatistics::unknown(ty))
}

pub fn unknown_stats_for_types(types: &Vec<LogicalType>) -> (r: Vec<ColumnStatistics>)
    ensures
        r@ == unknown_statistics(types@),
{
    let mut r: Vec<ColumnStatistics> = Vec::new();
    let mut i: usize = 0;
    while i < types.len()
        invariant
            i <= types@.len(),
            r@ == unknown_statistics(types@).take(i as int),
        decreases types@.len() - i,
    {
        r.push(ColumnStatistics::create_unknown(types[i]));
        assert(r@ =~= unknown_statistics(types@).take(i + 1));
        i = i + 1;
    }
    assert(r@ =~= unknown_statistics(types@));
    r
}

/// The bound that one value gives: itself, where it has an order.
pub open spec fn bound_of(value: ValueView) -> Option<Value> {
    match value {
        ValueView::Plain(literal) => if numeric_key(value) is Some {
            Some(literal)
        } else {
            None
        },
        ValueView::Text(_) => None,
    }
}

fn own_bound(value: &Value) -> (r: Option<Value>)
    ensures
        r == bound_of(value@),
{
    match key_of_value(value) {
        Some(_) => Some(value.copy()),
        None => None,
    }
}

/// Statistics of a column that holds one value.
pub open spec fn constant_statistics(value: ValueView) -> ColumnStatistics {
    ColumnStatistics {
        minimum: bound_of(value),
        maximum: bound_of(value),
        ..ColumnStatistics::unknown(literal_type(value))
    }
}

fn statistics_of_constant(value: &Value) -> (r: ColumnStatistics)
    ensures
        r == constant_statistics(value@),
{
    ColumnStatistics {
        logical_type: type_of_value(value),
        minimum: own_bound(value),
        maximum: own_bound(value),
        distinct: DistinctEvidence::default(),
        guaranteed_distinct_upper: None,
        distribution: None,
    }
}

/// The outer one of two bounds; none where they cannot be compared.
pub open spec fn outer_bound(a: Option<Value>, b: Option<Value>, upper: bool) -> Option<Value> {
    match (a, b) {
        (Some(x), Some(y)) => match (numeric_key(x@), numeric_key(y@)) {
            (Some(left), Some(right)) => if left.line != right.line {
                None
            } else if (right.position > left.position) == upper && right.position
                != left.position {
                Some(y)
            } else {
                Some(x)
            },
            _ => None,
        },
        _ => None,
    }
}

fn outer(a: Option<Value>, b: Option<Value>, upper: bool) -> (r: Option<Value>)
    ensures
        r == outer_bound(a, b, upper),
{
    let (Some(x), Some(y)) = (a, b) else {
        return None;
    };
    let (Some(left), Some(right)) = (key_of_value(&x), key_of_value(&y)) else {
        return None;
    };
    if left.line != right.line {
        None
    } else if (right.position > left.position) == upper && right.position != left.position {
        Some(y)
    } else {
        Some(x)
    }
}

/// The outermost bound of the first `k` values.
pub open spec fn bound_among(values: Seq<ValueView>, k: nat, upper: bool) -> Option<Value>
    decreases k,
{
    if k <= 1 {
        bound_of(values[0])
    } else {
        outer_bound(
            bound_among(values, (k - 1) as nat, upper),
            bound_of(values[k - 1]),
            upper,
        )
    }
}

/// Statistics of a column that an equality restricts to the listed values.
pub open spec fn domain_statistics(values: Seq<ValueView>) -> ColumnStatistics {
    ColumnStatistics {
        logical_type: literal_type(values[0]),
        minimum: bound_among(values, values.len(), false),
        maximum: bound_among(values, values.len(), true),
        distinct: DistinctEvidence {
            lower: 0,
            upper: None,
            point: values.len() as u64,
            provenance: DistinctProvenance::Derived,
        },
        guaranteed_distinct_upper: Some(values.len() as u64),
        distribution: None,
    }
}

fn statistics_of_domain(values: &Vec<Value>) -> (r: ColumnStatistics)
    requires
        values@.len() > 0,
    ensures
        r == domain_statistics(value_views(values@)),
{
    let ghost found = value_views(values@);
    let mut minimum: Option<Value> = own_bound(&values[0]);
    let mut maximum: Option<Value> = own_bound(&values[0]);
    let mut i: usize = 1;
    while i < values.len()
        invariant
            found == value_views(values@),
            1 <= i <= values@.len(),
            minimum == bound_among(found, i as nat, false),
            maximum == bound_among(found, i as nat, true),
        decreases values@.len() - i,
    {
        assert(found[i as int] == values@[i as int]@);
        minimum = outer(minimum, own_bound(&values[i]), false);
        maximum = outer(maximum, own_bound(&values[i]), true);
        i = i + 1;
    }
    let count: u64 = values.len() as u64;
    ColumnStatistics {
        logical_type: type_of_value(&values[0]),
        minimum,
        maximum,
        distinct: DistinctEvidence {
            lower: 0,
            upper: None,
            point: count,
            provenance: DistinctProvenance::Derived,
        },
        guaranteed_distinct_upper: Some(count),
        distribution: None,
    }
}

/// Statistics after one condition: an equality restricts its column to the
/// values that it names.
pub open spec fn refined_by(
    statistics: Seq<ColumnStatistics>,
    bindings: Seq<ColumnBinding>,
    condition: ExpressionView,
) -> Seq<ColumnStatistics> {
    match equality_domain(condition) {
        Some((binding, values)) => match bindings.index_of_first(binding) {
            Some(i) => if values.len() > 0 && i < statistics.len() {
                statistics.update(i, domain_statistics(values))
            } else {
                statistics
            },
            None => statistics,
        },
        None => statistics,
    }
}

/// Statistics after the first `k` conditions.
pub open spec fn refined(
    statistics: Seq<ColumnStatistics>,
    bindings: Seq<ColumnBinding>,
    conditions: Seq<ExpressionView>,
    k: nat,
) -> Seq<ColumnStatistics>
    decreases k,
{
    if k == 0 {
        statistics
    } else {
        refined_by(
            refined(statistics, bindings, conditions, (k - 1) as nat),
            bindings,
            conditions[k - 1],
        )
    }
}

pub fn first_position(bindings: &Vec<ColumnBinding>, binding: ColumnBinding) -> (r: Option<usize>)
    ensures
        match r {
            Some(i) => bindings@.index_of_first(binding) == Some(i as int) && i < bindings@.len(),
            None => bindings@.index_of_first(binding) is None,
        },
{
    let mut i: usize = 0;
    while i < bindings.len()
        invariant
            i <= bindings@.len(),
            forall|j: int| 0 <= j < i ==> #[trigger] bindings@[j] != binding,
        decreases bindings@.len() - i,
    {
        if bindings[i] == binding {
            proof {
                bindings@.index_of_first_ensures(binding);
                let found = bindings@.index_of_first(binding)->0;
                assert(bindings@[i as int] == binding);
                if found < i {
                    assert(bindings@[found] != binding);
                }
            }
            return Some(i);
        }
        i = i + 1;
    }
    proof {
        bindings@.index_of_first_ensures(binding);
        assert(!bindings@.contains(binding));
    }
    None
}

/// Statistics of a filter's output: its input's, restricted by its equalities
/// and picked by its projection.
pub open spec fn filter_statistics(
    filter: Filter,
    columns: Seq<OutputColumn>,
    known: Map<ColumnBinding, ColumnStatistics>,
) -> Seq<ColumnStatistics> {
    let conditions = all_conditions(views(filter.expressions@), filter.expressions@.len());
    projected(
        refined(
            layout_statistics(columns, known),
            bindings_of(columns),
            conditions,
            conditions.len(),
        ),
        filter.projection_map,
    )
}

pub fn filter_output_stats<L: ColumnStatisticsLookup>(
    filter: &Filter,
    child_layout: &LogicalOutputLayout,
    columns: &L,
) -> (r: Vec<ColumnStatistics>)
    ensures
        r@ == filter_statistics(*filter, child_layout.columns@, columns.known()),
{
    let mut output = collect_output_stats_for_layout(child_layout, columns);
    let ghost start = output@;
    let bindings = child_layout.bindings();
    let mut conditions: Vec<Expression> = Vec::new();
    collect_all_conditions(&filter.expressions, &mut conditions);
    let ghost found = all_conditions(views(filter.expressions@), filter.expressions@.len());
    assert(views(Seq::<Expression>::empty()) + found =~= found);
    let mut i: usize = 0;
    while i < conditions.len()
        invariant
            i <= conditions@.len(),
            views(conditions@) == found,
            bindings@ == bindings_of(child_layout.columns@),
            output@ == refined(start, bindings@, found, i as nat),
        decreases conditions@.len() - i,
    {
        assert(found[i as int] == conditions@[i as int]@);
        if let Some((binding, values)) = finite_equality_domain(&conditions[i]) {
            if let Some(position) = first_position(&bindings, binding) {
                if values.len() > 0 && position < output.len() {
                    output.set(position, statistics_of_domain(&values));
                }
            }
        }
        i = i + 1;
    }
    project_column_statistics(output, &filter.projection_map)
}

/// The statistics that a projection passes on.
pub fn project_column_statistics(statistics: Vec<ColumnStatistics>, projection: &ProjectionMap) -> (r:
    Vec<ColumnStatistics>)
    ensures
        r@ == projected(statistics@, *projection),
{
    match projection {
        ProjectionMap::All => statistics,
        ProjectionMap::Columns(positions) => {
            let mut r: Vec<ColumnStatistics> = Vec::new();
            let mut i: usize = 0;
            assert(positions@.take(0) =~= Seq::<usize>::empty());
            while i < positions.len()
                invariant
                    i <= positions@.len(),
                    r@ == picked(statistics@, positions@.take(i as int)),
                decreases positions@.len() - i,
            {
                let position: usize = positions[i];
                if position < statistics.len() {
                    r.push(statistics[position].copy());
                }
                assert(positions@.take(i + 1).drop_last() =~= positions@.take(i as int));
                assert(positions@.take(i + 1).last() == position);
                i = i + 1;
            }
            assert(positions@.take(i as int) =~= positions@);
            r
        },
    }
}

/// Statistics of what an expression computes.
pub open spec fn computed_statistics(
    e: ExpressionView,
    known: Map<ColumnBinding, ColumnStatistics>,
) -> ColumnStatistics {
    match e {
        ExpressionView::ColumnRef(column) => known_or_unknown(
            known,
            column.binding,
            column.return_type,
        ),
        ExpressionView::Constant(value, _) => constant_statistics(value).bounded(1),
        _ => ColumnStatistics::unknown(result_type(e)),
    }
}

pub fn expression_statistics<L: ColumnStatisticsLookup>(e: &Expression, columns: &L) -> (r:
    ColumnStatistics)
    ensures
        r == computed_statistics(e@, columns.known()),
{
    match e {
        Expression::ColumnRef(column) => statistics_or_unknown(
            columns,
            column.binding,
            column.return_type,
        ),
        Expression::Constant(constant) => statistics_of_constant(
            &constant.value,
        ).with_guaranteed_distinct_upper(1),
        _ => ColumnStatistics::create_unknown(e.return_type()),
    }
}

pub open spec fn all_computed(
    expressions: Seq<Expression>,
    known: Map<ColumnBinding, ColumnStatistics>,
) -> Seq<ColumnStatistics> {
    expressions.map_values(|e: Expression| computed_statistics(e@, known))
}

pub fn all_expression_statistics<L: ColumnStatisticsLookup>(
    expressions: &Vec<Expression>,
    columns: &L,
) -> (r: Vec<ColumnStatistics>)
    ensures
        r@ == all_computed(expressions@, columns.known()),
{
    let mut r: Vec<ColumnStatistics> = Vec::new();
    let mut i: usize = 0;
    while i < expressions.len()
        invariant
            i <= expressions@.len(),
            r@ == all_computed(expressions@, columns.known()).take(i as int),
        decreases expressions@.len() - i,
    {
        r.push(expression_statistics(&expressions[i], columns));
        assert(r@ =~= all_computed(expressions@, columns.known()).take(i + 1));
        i = i + 1;
    }
    assert(r@ =~= all_computed(expressions@, columns.known()));
    r
}

/// Statistics of an aggregate's result. An aggregate that publishes one of its
/// inputs keeps their domain, with at most one value per output row.
pub open spec fn aggregated_statistics(
    e: ExpressionView,
    known: Map<ColumnBinding, ColumnStatistics>,
    guaranteed_rows: Option<u64>,
) -> ColumnStatistics {
    match e {
        ExpressionView::Aggregate(function, children, _, _, _, return_type) => match function {
            AggregateFunction::Count => ColumnStatistics::unknown(LogicalType::BigInt),
            AggregateFunction::PreservesInputDomain => if children.len() == 1 {
                match guaranteed_rows {
                    Some(rows) => computed_statistics(children[0], known).bounded(rows),
                    None => computed_statistics(children[0], known),
                }
            } else {
                ColumnStatistics::unknown(return_type)
            },
            _ => ColumnStatistics::unknown(return_type),
        },
        _ => computed_statistics(e, known),
    }
}

pub fn aggregate_expression_statistics<L: ColumnStatisticsLookup>(
    e: &Expression,
    columns: &L,
    guaranteed_rows: Option<u64>,
) -> (r: ColumnStatistics)
    ensures
        r == aggregated_statistics(e@, columns.known(), guaranteed_rows),
{
    proof {
        lemma_view_children(*e);
    }
    let Expression::Aggregate(aggregate) = e else {
        return expression_statistics(e, columns);
    };
    match aggregate.function {
        AggregateFunction::Count => ColumnStatistics::create_unknown(LogicalType::BigInt),
        AggregateFunction::PreservesInputDomain => {
            if aggregate.children.len() != 1 {
                return ColumnStatistics::create_unknown(aggregate.return_type);
            }
            assert(views(aggregate.children@)[0] == aggregate.children@[0]@);
            let statistics = expression_statistics(&aggregate.children[0], columns);
            match guaranteed_rows {
                Some(rows) => statistics.with_guaranteed_distinct_upper(rows),
                None => statistics,
            }
        },
        _ => ColumnStatistics::create_unknown(aggregate.return_type),
    }
}

/// What the distribution of a grouped sum is computed from: bounds of the
/// summed column, and the rows of input and groups.
#[derive(Debug)]
pub struct GroupedSum {
    pub minimum: Value,
    pub maximum: Value,
    pub input_type: LogicalType,
    pub input_rows: u64,
    pub group_rows: u64,
}

/// The column that a sum adds up, where it adds up a plain column.
pub open spec fn summed_column(e: ExpressionView, positions: Seq<ColumnBinding>) -> Option<
    (ColumnBinding, LogicalType),
> {
    match e {
        ExpressionView::Aggregate(function, children, distinct, filter, ordered, _) => if function
            == AggregateFunction::Sum && !distinct && filter is None && !ordered && children.len()
            == 1 {
            match children[0] {
                ExpressionView::ColumnRef(column) => if column.depth == 0 {
                    Some((column.binding, column.return_type))
                } else {
                    None
                },
                ExpressionView::Reference(reference) => if reference.index < positions.len() {
                    Some((positions[reference.index as int], reference.return_type))
                } else {
                    None
                },
                _ => None,
            }
        } else {
            None
        },
        _ => None,
    }
}

/// The distribution inputs of a grouped sum; none where the aggregate is no
/// plain sum or its column has no numeric bounds.
pub open spec fn grouped_sum(
    e: ExpressionView,
    input_rows: u64,
    group_rows: u64,
    positions: Seq<ColumnBinding>,
    known: Map<ColumnBinding, ColumnStatistics>,
) -> Option<GroupedSum> {
    match summed_column(e, positions) {
        Some((binding, input_type)) => if known.contains_key(binding) {
            match (known[binding].minimum, known[binding].maximum) {
                (Some(minimum), Some(maximum)) => if is_number(minimum@) && is_number(maximum@) {
                    Some(
                        GroupedSum {
                            minimum,
                            maximum,
                            input_type,
                            input_rows: if input_rows == 0 {
                                1
                            } else {
                                input_rows
                            },
                            group_rows: if group_rows == 0 {
                                1
                            } else {
                                group_rows
                            },
                        },
                    )
                } else {
                    None
                },
                _ => None,
            }
        } else {
            None
        },
        None => None,
    }
}

/// Derives the inputs of a grouped sum's distribution once, at its producer.
pub fn estimate_grouped_sum_distribution<L: ColumnStatisticsLookup>(
    e: &Expression,
    input_rows: u64,
    group_rows: u64,
    positions: &Vec<ColumnBinding>,
    columns: &L,
) -> (r: Option<GroupedSum>)
    ensures
        r == grouped_sum(e@, input_rows, group_rows, positions@, columns.known()),
{
    proof {
        lemma_view_children(*e);
    }
    let Expression::Aggregate(sum) = e else {
        return None;
    };
    match sum.function {
        AggregateFunction::Sum => {},
        _ => {
            return None;
        },
    }
    if sum.distinct || sum.filter.is_some() || sum.ordered || sum.children.len() != 1 {
        return None;
    }
    assert(views(sum.children@)[0] == sum.children@[0]@);
    let (binding, input_type) = match &sum.children[0] {
        Expression::ColumnRef(column) => if column.depth == 0 {
            (column.binding, column.return_type)
        } else {
            return None;
        },
        Expression::Reference(reference) => if reference.index < positions.len() {
            (positions[reference.index], reference.return_type)
        } else {
            return None;
        },
        _ => {
            return None;
        },
    };
    let Some(statistics) = columns.get(&binding) else {
        return None;
    };
    let (Some(minimum), Some(maximum)) = (&statistics.minimum, &statistics.maximum) else {
        return None;
    };
    if !is_numeric_value(minimum) || !is_numeric_value(maximum) {
        return None;
    }
    Some(
        GroupedSum {
            minimum: minimum.copy(),
            maximum: maximum.copy(),
            input_type,
            input_rows: if input_rows == 0 {
                1
            } else {
                input_rows
            },
            group_rows: if group_rows == 0 {
                1
            } else {
                group_rows
            },
        },
    )
}

/// How the statistics of one output column come about.
#[derive(Debug)]
pub enum OutputStatistics {
    Known(ColumnStatistics),
    /// Values of both columns together.
    Merged(ColumnStatistics, ColumnStatistics),
    /// The given statistics, with the distribution of a grouped sum.
    Summed(ColumnStatistics, GroupedSum),
}

/// Statistics of a column of a set operation.
pub open spec fn merged_statistics(
    left: Option<ColumnStatistics>,
    right: Option<ColumnStatistics>,
    logical_type: LogicalType,
) -> OutputStatistics {
    match (left, right) {
        (Some(left), Some(right)) => OutputStatistics::Merged(left, right),
        (Some(left), None) => OutputStatistics::Known(left),
        (None, Some(right)) => OutputStatistics::Known(right),
        (None, None) => OutputStatistics::Known(ColumnStatistics::unknown(logical_type)),
    }
}

pub fn merge_column_statistics(
    left: Option<ColumnStatistics>,
    right: Option<ColumnStatistics>,
    logical_type: LogicalType,
) -> (r: OutputStatistics)
    ensures
        r == merged_statistics(left, right, logical_type),
{
    match (left, right) {
        (Some(left), Some(right)) => OutputStatistics::Merged(left, right),
        (Some(left), None) => OutputStatistics::Known(left),
        (None, Some(right)) => OutputStatistics::Known(right),
        (None, None) => OutputStatistics::Known(ColumnStatistics::create_unknown(logical_type)),
    }
}

/// Statistics of column `i` of an input, where they are kept.
pub open spec fn input_statistics(
    columns: Seq<OutputColumn>,
    i: int,
    known: Map<ColumnBinding, ColumnStatistics>,
) -> Option<ColumnStatistics> {
    if i < columns.len() && known.contains_key(columns[i].binding) {
        Some(known[columns[i].binding])
    } else {
        None
    }
}

fn statistics_of_input<L: ColumnStatisticsLookup>(
    layout: &LogicalOutputLayout,
    i: usize,
    columns: &L,
) -> (r: Option<ColumnStatistics>)
    ensures
        r == input_statistics(layout.columns@, i as int, columns.known()),
{
    if i < layout.columns.len() {
        match columns.get(&layout.columns[i].binding) {
            Some(statistics) => Some(statistics.copy()),
            None => None,
        }
    } else {
        None
    }
}

/// Statistics of a set operation: column by column, of both inputs.
pub open spec fn set_statistics(
    left: Seq<OutputColumn>,
    right: Seq<OutputColumn>,
    types: Seq<LogicalType>,
    known: Map<ColumnBinding, ColumnStatistics>,
) -> Seq<OutputStatistics> {
    Seq::new(
        types.len(),
        |i: int|
            merged_statistics(
                input_statistics(left, i, known),
                input_statistics(right, i, known),
                types[i],
            ),
    )
}

pub fn merge_setop_output_stats<L: ColumnStatisticsLookup>(
    left_layout: &LogicalOutputLayout,
    right_layout: &LogicalOutputLayout,
    types: &Vec<LogicalType>,
    columns: &L,
) -> (r: Vec<OutputStatistics>)
    ensures
        r@ == set_statistics(
            left_layout.columns@,
            right_layout.columns@,
            types@,
            columns.known(),
        ),
{
    let ghost wanted = set_statistics(
        left_layout.columns@,
        right_layout.columns@,
        types@,
        columns.known(),
    );
    let mut r: Vec<OutputStatistics> = Vec::new();
    let mut i: usize = 0;
    while i < types.len()
        invariant
            i <= types@.len(),
            wanted == set_statistics(
                left_layout.columns@,
                right_layout.columns@,
                types@,
                columns.known(),
            ),
            r@ == wanted.take(i as int),
        decreases types@.len() - i,
    {
        r.push(
            merge_column_statistics(
                statistics_of_input(left_layout, i, columns),
                statistics_of_input(right_layout, i, columns),
                types[i],
            ),
        );
        assert(r@ =~= wanted.take(i + 1));
        i = i + 1;
    }
    assert(r@ =~= wanted);
    r
}

/// A bound of some values is one of them and none of them lies beyond it; where
/// there is a bound, all of them are on one line.
pub proof fn bounds_enclose_the_values(values: Seq<ValueView>, k: nat, upper: bool, i: int)
    requires
        0 <= i < k <= values.len(),
        bound_among(values, k, upper) is Some,
    ensures
        ({
            let bound = bound_among(values, k, upper)->0;
            &&& numeric_key(bound@) is Some
            &&& numeric_key(values[i]) is Some
            &&& numeric_key(values[i])->0.line == numeric_key(bound@)->0.line
            &&& upper ==> numeric_key(values[i])->0.position <= numeric_key(bound@)->0.position
            &&& !upper ==> numeric_key(values[i])->0.position >= numeric_key(bound@)->0.position
            &&& exists|j: int| 0 <= j < k && #[trigger] values[j] == bound@
        }),
    decreases k,
{
    if k <= 1 {
        assert(values[0] == (bound_among(values, k, upper)->0)@);
    } else {
        let before = bound_among(values, (k - 1) as nat, upper);
        let last = bound_of(values[k - 1]);
        assert(values[k - 1] == (last->0)@);
        if i < k - 1 {
            bounds_enclose_the_values(values, (k - 1) as nat, upper, i);
        } else {
            bounds_enclose_the_values(values, (k - 1) as nat, upper, 0);
        }
        let j = choose|j: int| 0 <= j < k - 1 && #[trigger] values[j] == (before->0)@;
        assert(values[j] == (before->0)@);
    }
}

/// The statistics of a column that is restricted to some values count them and lie
/// in order.
pub proof fn restricted_statistics_describe_the_values(values: Seq<ValueView>)
    requires
        0 < values.len() <= u64::MAX,
    ensures
        domain_statistics(values).distinct.point == values.len(),
        domain_statistics(values).guaranteed_distinct_upper == Some(values.len() as u64),
        domain_statistics(values).minimum matches Some(low) ==> (
        domain_statistics(values).maximum matches Some(high) ==> numeric_key(low@)->0.position
            <= numeric_key(high@)->0.position),
{
    if bound_among(values, values.len(), false) is Some && bound_among(values, values.len(), true)
        is Some {
        bounds_enclose_the_values(values, values.len(), false, 0);
        bounds_enclose_the_values(values, values.len(), true, 0);
    }
}

/// A condition changes the statistics of no column but the one that it restricts.
pub proof fn conditions_leave_other_columns_alone(
    statistics: Seq<ColumnStatistics>,
    bindings: Seq<ColumnBinding>,
    condition: ExpressionView,
    i: int,
)
    requires
        0 <= i < statistics.len() == bindings.len(),
        equality_domain(condition) matches Some((binding, _)) ==> bindings[i] != binding,
    ensures
        refined_by(statistics, bindings, condition).len() == statistics.len(),
        refined_by(statistics, bindings, condition)[i] == statistics[i],
{
    if let Some((binding, _)) = equality_domain(condition) {
        bindings.index_of_first_ensures(binding);
    }
}

/// A condition restricts the first column with the binding that it fixes.
pub proof fn conditions_restrict_their_column(
    statistics: Seq<ColumnStatistics>,
    bindings: Seq<ColumnBinding>,
    condition: ExpressionView,
    i: int,
)
    requires
        0 <= i < statistics.len() == bindings.len(),
        equality_domain(condition) is Some,
        (equality_domain(condition)->0).1.len() > 0,
        bindings[i] == (equality_domain(condition)->0).0,
        forall|j: int| 0 <= j < i ==> #[trigger] bindings[j] != bindings[i],
    ensures
        refined_by(statistics, bindings, condition)[i] == domain_statistics(
            (equality_domain(condition)->0).1,
        ),
{
    let binding = (equality_domain(condition)->0).0;
    bindings.index_of_first_ensures(binding);
    assert(bindings.contains(binding));
    let k = bindings.index_of_first(binding)->0;
    if k < i {
        assert(bindings[k] != bindings[i]);
    }
}

/// Only a plain sum has the distribution of a sum: one over all rows of its input,
/// each once and in any order.
pub proof fn only_plain_sums_have_a_distribution(
    function: AggregateFunction,
    children: Seq<ExpressionView>,
    distinct: bool,
    filter: Option<Box<ExpressionView>>,
    ordered: bool,
    ty: LogicalType,
    positions: Seq<ColumnBinding>,
)
    requires
        distinct || ordered || filter is Some || !(function is Sum) || children.len() != 1,
    ensures
        summed_column(
            ExpressionView::Aggregate(function, children, distinct, filter, ordered, ty),
            positions,
        ) is None,
{
}

/// A result that is one of its inputs keeps their bounds and has no more different
/// values than there are rows; any other result of an aggregate has no bounds of its
/// input's.
pub proof fn only_preserved_values_keep_their_bounds(
    function: AggregateFunction,
    children: Seq<ExpressionView>,
    distinct: bool,
    filter: Option<Box<ExpressionView>>,
    ordered: bool,
    ty: LogicalType,
    known: Map<ColumnBinding, ColumnStatistics>,
    rows: u64,
)
    ensures
        ({
            let result = aggregated_statistics(
                ExpressionView::Aggregate(function, children, distinct, filter, ordered, ty),
                known,
                Some(rows),
            );
            let input = computed_statistics(children[0], known);
            if function is PreservesInputDomain && children.len() == 1 {
                &&& result.minimum == input.minimum
                &&& result.maximum == input.maximum
                &&& result.guaranteed_distinct_upper matches Some(upper) && upper <= rows
                &&& result.distinct.point <= input.distinct.point
                &&& result.distinct.point <= rows
            } else {
                &&& result.minimum is None
                &&& result.maximum is None
                &&& result.guaranteed_distinct_upper is None
                &&& result.distribution is None
                &&& result.distinct.point == 0
            }
        }),
{
}

/// A column of a set operation is described by what is known of either input, and by
/// both where both are known.
pub proof fn set_operation_columns_come_from_both_inputs(
    left: Option<ColumnStatistics>,
    right: Option<ColumnStatistics>,
    ty: LogicalType,
)
    ensures
        left is Some && right is Some <==> merged_statistics(left, right, ty) is Merged,
        merged_statistics(left, right, ty) matches OutputStatistics::Merged(a, b) ==> left == Some(
            a,
        ) && right == Some(b),
        merged_statistics(left, right, ty) matches OutputStatistics::Known(only) ==> Some(only)
            == left || Some(only) == right || left is None && right is None,
{
}

/// A column of a set operation merges the columns at its position in both inputs.
pub proof fn set_operations_merge_by_position(
    left: Seq<OutputColumn>,
    right: Seq<OutputColumn>,
    types: Seq<LogicalType>,
    known: Map<ColumnBinding, ColumnStatistics>,
    i: int,
)
    requires
        0 <= i < types.len(),
        i < left.len(),
        i < right.len(),
        known.contains_key(left[i].binding),
        known.contains_key(right[i].binding),
    ensures
        set_statistics(left, right, types, known).len() == types.len(),
        set_statistics(left, right, types, known)[i] == OutputStatistics::Merged(
            known[left[i].binding],
            known[right[i].binding],
        ),
{
}

} // verus!
