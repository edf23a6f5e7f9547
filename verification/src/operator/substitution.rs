//! Replacing column references in all expressions of an operator.

use vstd::prelude::*;

use crate::expression::analysis::{result_type, views};
use crate::expression::substitution::{
    all_substituted, substitute, substitute_all, substituted, ColumnReplacement, ReplacementView,
};
use crate::expression::{Expression, ExpressionView};
use crate::layout::{expression_types, operator_columns};
use crate::operator::{
    Aggregate, AnyJoin, ComparisonJoin, ExpressionGet, ExternalProject, Filter, FullTextFilterScan,
    Get, GraphScan, Join, JoinCondition, Limit, LogicalOperator, OutputColumn, Projection,
    SearchScan,
};

verus! {

/// `after` lists the expressions of `before` with their references replaced.
pub open spec fn list_replaced(
    before: Seq<Expression>,
    replacement: ReplacementView,
    after: Seq<Expression>,
) -> bool {
    views(after) == all_substituted(views(before), replacement)
}

pub open spec fn option_replaced(
    before: Option<Expression>,
    replacement: ReplacementView,
    after: Option<Expression>,
) -> bool {
    match (before, after) {
        (Some(old_e), Some(new_e)) => new_e@ == substituted(old_e@, replacement),
        (None, None) => true,
        _ => false,
    }
}

pub open spec fn rows_replaced(
    before: Seq<Vec<Expression>>,
    replacement: ReplacementView,
    after: Seq<Vec<Expression>>,
) -> bool {
    &&& before.len() == after.len()
    &&& forall|i: int|
        #![trigger before[i]]
        #![trigger after[i]]
        0 <= i < before.len() ==> list_replaced(before[i]@, replacement, after[i]@)
}

pub open spec fn conditions_replaced(
    before: Seq<JoinCondition>,
    replacement: ReplacementView,
    after: Seq<JoinCondition>,
) -> bool {
    &&& before.len() == after.len()
    &&& forall|i: int|
        #![trigger before[i]]
        #![trigger after[i]]
        0 <= i < before.len() ==> {
            &&& after[i].left@ == substituted(before[i].left@, replacement)
            &&& after[i].right@ == substituted(before[i].right@, replacement)
            &&& after[i].comparison == before[i].comparison
        }
}

/// `after` is the operator `before` with all column references replaced.
pub open spec fn is_replaced(
    before: LogicalOperator,
    replacement: ReplacementView,
    after: LogicalOperator,
) -> bool {
    match (before, after) {
        (LogicalOperator::Get(a), LogicalOperator::Get(b)) => b == (Get {
            runtime_filter_expressions: b.runtime_filter_expressions,
            ..a
        }) && list_replaced(
            a.runtime_filter_expressions@,
            replacement,
            b.runtime_filter_expressions@,
        ),
        (LogicalOperator::ExpressionGet(a), LogicalOperator::ExpressionGet(b)) => b == (
        ExpressionGet { rows: b.rows, ..a }) && rows_replaced(a.rows@, replacement, b.rows@),
        (LogicalOperator::Projection(a), LogicalOperator::Projection(b)) => b.table_index
            == a.table_index && list_replaced(a.expressions@, replacement, b.expressions@),
        (LogicalOperator::ExternalProject(a), LogicalOperator::ExternalProject(b)) => b.table_index
            == a.table_index && list_replaced(a.expressions@, replacement, b.expressions@),
        (LogicalOperator::Filter(a), LogicalOperator::Filter(b)) => b.projection_map
            == a.projection_map && list_replaced(a.expressions@, replacement, b.expressions@),
        (LogicalOperator::Limit(a), LogicalOperator::Limit(b)) => option_replaced(
            a.limit,
            replacement,
            b.limit,
        ) && option_replaced(a.offset, replacement, b.offset),
        (LogicalOperator::Aggregate(a), LogicalOperator::Aggregate(b)) => {
            &&& b == (Aggregate {
                groups: b.groups,
                aggregates: b.aggregates,
                post_reduction: b.post_reduction,
                ..a
            })
            &&& list_replaced(a.groups@, replacement, b.groups@)
            &&& list_replaced(a.aggregates@, replacement, b.aggregates@)
            &&& option_replaced(a.post_reduction, replacement, b.post_reduction)
        },
        (
            LogicalOperator::Join(Join::Comparison(a)),
            LogicalOperator::Join(Join::Comparison(b)),
        ) => {
            &&& b == (ComparisonJoin {
                conditions: b.conditions,
                duplicate_eliminated_columns: b.duplicate_eliminated_columns,
                ..a
            })
            &&& conditions_replaced(a.conditions@, replacement, b.conditions@)
            &&& list_replaced(
                a.duplicate_eliminated_columns@,
                replacement,
                b.duplicate_eliminated_columns@,
            )
        },
        (LogicalOperator::Join(Join::Any(a)), LogicalOperator::Join(Join::Any(b))) => b == (
        AnyJoin { condition: b.condition, ..a }) && b.condition@ == substituted(
            a.condition@,
            replacement,
        ),
        (LogicalOperator::SearchScan(a), LogicalOperator::SearchScan(b)) => {
            &&& b == (SearchScan {
                absorbed_predicates: b.absorbed_predicates,
                residual_predicates: b.residual_predicates,
                projections: b.projections,
                ..a
            })
            &&& list_replaced(a.absorbed_predicates@, replacement, b.absorbed_predicates@)
            &&& list_replaced(a.residual_predicates@, replacement, b.residual_predicates@)
            &&& list_replaced(a.projections@, replacement, b.projections@)
        },
        (LogicalOperator::FullTextFilterScan(a), LogicalOperator::FullTextFilterScan(b)) => {
            &&& b == (FullTextFilterScan {
                match_expression: b.match_expression,
                other_predicates: b.other_predicates,
                residual_predicates: b.residual_predicates,
                ..a
            })
            &&& b.match_expression@ == substituted(a.match_expression@, replacement)
            &&& list_replaced(a.other_predicates@, replacement, b.other_predicates@)
            &&& list_replaced(a.residual_predicates@, replacement, b.residual_predicates@)
        },
        (LogicalOperator::GraphScan(a), LogicalOperator::GraphScan(b)) => b == (GraphScan {
            filter: b.filter,
            ..a
        }) && option_replaced(a.filter, replacement, b.filter),
        _ => !has_expressions(before) && after == before,
    }
}

pub open spec fn has_expressions(operator: LogicalOperator) -> bool {
    match operator {
        LogicalOperator::Get(_) => true,
        LogicalOperator::ExpressionGet(_) => true,
        LogicalOperator::Projection(_) => true,
        LogicalOperator::ExternalProject(_) => true,
        LogicalOperator::Filter(_) => true,
        LogicalOperator::Limit(_) => true,
        LogicalOperator::Aggregate(_) => true,
        LogicalOperator::Join(Join::Comparison(_)) => true,
        LogicalOperator::Join(Join::Any(_)) => true,
        LogicalOperator::SearchScan(_) => true,
        LogicalOperator::FullTextFilterScan(_) => true,
        LogicalOperator::GraphScan(_) => true,
        _ => false,
    }
}

fn replace_option(e: &Option<Expression>, replacement: &ColumnReplacement) -> (r: Option<
    Expression,
>)
    ensures
        option_replaced(*e, replacement@, r),
{
    match e {
        Some(e) => Some(substitute(e, replacement)),
        None => None,
    }
}

fn replace_conditions(conditions: &Vec<JoinCondition>, replacement: &ColumnReplacement) -> (r: Vec<
    JoinCondition,
>)
    ensures
        conditions_replaced(conditions@, replacement@, r@),
{
    let mut r: Vec<JoinCondition> = Vec::new();
    let mut i: usize = 0;
    while i < conditions.len()
        invariant
            i <= conditions@.len(),
            r@.len() == i,
            forall|k: int|
                0 <= k < i ==> {
                    &&& (#[trigger] r@[k]).left@ == substituted(
                        conditions@[k].left@,
                        replacement@,
                    )
                    &&& r@[k].right@ == substituted(conditions@[k].right@, replacement@)
                    &&& r@[k].comparison == conditions@[k].comparison
                },
        decreases conditions@.len() - i,
    {
        r.push(
            JoinCondition {
                left: substitute(&conditions[i].left, replacement),
                right: substitute(&conditions[i].right, replacement),
                comparison: conditions[i].comparison,
            },
        );
        i = i + 1;
    }
    r
}

fn replace_rows(rows: &Vec<Vec<Expression>>, replacement: &ColumnReplacement) -> (r: Vec<
    Vec<Expression>,
>)
    ensures
        rows_replaced(rows@, replacement@, r@),
{
    let mut r: Vec<Vec<Expression>> = Vec::new();
    let mut i: usize = 0;
    while i < rows.len()
        invariant
            i <= rows@.len(),
            r@.len() == i,
            forall|k: int|
                0 <= k < i ==> list_replaced(rows@[k]@, replacement@, (#[trigger] r@[k])@),
        decreases rows@.len() - i,
    {
        r.push(substitute_all(&rows[i], replacement));
        i = i + 1;
    }
    r
}

/// Replaces the column references in all expressions of an operator.
pub fn replace_columns(operator: LogicalOperator, replacement: &ColumnReplacement) -> (r:
    LogicalOperator)
    ensures
        is_replaced(operator, replacement@, r),
{
    match operator {
        LogicalOperator::Get(get) => {
            let mut get = get;
            get.runtime_filter_expressions = substitute_all(
                &get.runtime_filter_expressions,
                replacement,
            );
            LogicalOperator::Get(get)
        },
        LogicalOperator::ExpressionGet(get) => {
            let mut get = get;
            get.rows = replace_rows(&get.rows, replacement);
            LogicalOperator::ExpressionGet(get)
        },
        LogicalOperator::Projection(projection) => LogicalOperator::Projection(
            Projection {
                table_index: projection.table_index,
                expressions: substitute_all(&projection.expressions, replacement),
            },
        ),
        LogicalOperator::ExternalProject(projection) => LogicalOperator::ExternalProject(
            ExternalProject {
                table_index: projection.table_index,
                expressions: substitute_all(&projection.expressions, replacement),
            },
        ),
        LogicalOperator::Filter(filter) => LogicalOperator::Filter(
            Filter {
                expressions: substitute_all(&filter.expressions, replacement),
                projection_map: filter.projection_map,
            },
        ),
        LogicalOperator::Limit(limit) => LogicalOperator::Limit(
            Limit {
                limit: replace_option(&limit.limit, replacement),
                offset: replace_option(&limit.offset, replacement),
            },
        ),
        LogicalOperator::Aggregate(aggregate) => {
            let mut aggregate = aggregate;
            aggregate.groups = substitute_all(&aggregate.groups, replacement);
            aggregate.aggregates = substitute_all(&aggregate.aggregates, replacement);
            aggregate.post_reduction = replace_option(&aggregate.post_reduction, replacement);
            LogicalOperator::Aggregate(aggregate)
        },
        LogicalOperator::Join(Join::Comparison(join)) => {
            let mut join = join;
            join.conditions = replace_conditions(&join.conditions, replacement);
            join.duplicate_eliminated_columns = substitute_all(
                &join.duplicate_eliminated_columns,
                replacement,
            );
            LogicalOperator::Join(Join::Comparison(join))
        },
        LogicalOperator::Join(Join::Any(join)) => {
            let mut join = join;
            join.condition = substitute(&join.condition, replacement);
            LogicalOperator::Join(Join::Any(join))
        },
        LogicalOperator::SearchScan(scan) => {
            let mut scan = scan;
            scan.absorbed_predicates = substitute_all(&scan.absorbed_predicates, replacement);
            scan.residual_predicates = substitute_all(&scan.residual_predicates, replacement);
            scan.projections = substitute_all(&scan.projections, replacement);
            LogicalOperator::SearchScan(scan)
        },
        LogicalOperator::FullTextFilterScan(scan) => {
            let mut scan = scan;
            scan.match_expression = substitute(&scan.match_expression, replacement);
            scan.other_predicates = substitute_all(&scan.other_predicates, replacement);
            scan.residual_predicates = substitute_all(&scan.residual_predicates, replacement);
            LogicalOperator::FullTextFilterScan(scan)
        },
        LogicalOperator::GraphScan(scan) => {
            let mut scan = scan;
            scan.filter = replace_option(&scan.filter, replacement);
            LogicalOperator::GraphScan(scan)
        },
        other => other,
    }
}

/// A replaced expression has the type that it had.
pub proof fn replacing_keeps_types(e: ExpressionView, replacement: ReplacementView)
    ensures
        result_type(substituted(e, replacement)) == result_type(e),
{
}

proof fn lemma_list_types(
    before: Seq<Expression>,
    replacement: ReplacementView,
    after: Seq<Expression>,
)
    requires
        list_replaced(before, replacement, after),
    ensures
        expression_types(after) == expression_types(before),
{
    assert(views(after).len() == after.len());
    assert(views(before).len() == before.len());
    assert(all_substituted(views(before), replacement).len() == before.len());
    assert forall|i: int| 0 <= i < before.len() implies expression_types(after)[i]
        == expression_types(before)[i] by {
        assert(views(after)[i] == after[i]@);
        assert(all_substituted(views(before), replacement)[i] == substituted(
            before[i]@,
            replacement,
        ));
        replacing_keeps_types(before[i]@, replacement);
    }
    assert(expression_types(after) =~= expression_types(before));
}

/// An operator puts out the same columns after its references are replaced.
pub proof fn replacing_keeps_columns(
    before: LogicalOperator,
    replacement: ReplacementView,
    after: LogicalOperator,
    inputs: Seq<Seq<OutputColumn>>,
)
    requires
        is_replaced(before, replacement, after),
    ensures
        operator_columns(after, inputs) == operator_columns(before, inputs),
{
    match (before, after) {
        (LogicalOperator::Projection(a), LogicalOperator::Projection(b)) => {
            lemma_list_types(a.expressions@, replacement, b.expressions@);
        },
        (LogicalOperator::ExternalProject(a), LogicalOperator::ExternalProject(b)) => {
            lemma_list_types(a.expressions@, replacement, b.expressions@);
        },
        (LogicalOperator::Aggregate(a), LogicalOperator::Aggregate(b)) => {
            lemma_list_types(a.groups@, replacement, b.groups@);
            lemma_list_types(a.aggregates@, replacement, b.aggregates@);
        },
        (LogicalOperator::SearchScan(a), LogicalOperator::SearchScan(b)) => {
            lemma_list_types(a.projections@, replacement, b.projections@);
        },
        _ => {},
    }
}

/// Whether an operator evaluates an expression itself.
pub open spec fn evaluates(operator: LogicalOperator, e: ExpressionView) -> bool {
    match operator {
        LogicalOperator::Get(get) => views(get.runtime_filter_expressions@).contains(e),
        LogicalOperator::ExpressionGet(get) => exists|i: int|
            0 <= i < get.rows@.len() && views((#[trigger] get.rows@[i])@).contains(e),
        LogicalOperator::Projection(project) => views(project.expressions@).contains(e),
        LogicalOperator::ExternalProject(project) => views(project.expressions@).contains(e),
        LogicalOperator::Filter(filter) => views(filter.expressions@).contains(e),
        LogicalOperator::Limit(limit) => is_given(limit.limit, e) || is_given(limit.offset, e),
        LogicalOperator::Aggregate(aggregate) => {
            ||| views(aggregate.groups@).contains(e)
            ||| views(aggregate.aggregates@).contains(e)
            ||| is_given(aggregate.post_reduction, e)
        },
        LogicalOperator::Join(Join::Comparison(join)) => {
            ||| views(join.duplicate_eliminated_columns@).contains(e)
            ||| exists|i: int|
                0 <= i < join.conditions@.len() && ((#[trigger] join.conditions@[i]).left@ == e
                    || join.conditions@[i].right@ == e)
        },
        LogicalOperator::Join(Join::Any(join)) => join.condition@ == e,
        LogicalOperator::SearchScan(scan) => {
            ||| views(scan.absorbed_predicates@).contains(e)
            ||| views(scan.residual_predicates@).contains(e)
            ||| views(scan.projections@).contains(e)
        },
        LogicalOperator::FullTextFilterScan(scan) => {
            ||| scan.match_expression@ == e
            ||| views(scan.other_predicates@).contains(e)
            ||| views(scan.residual_predicates@).contains(e)
        },
        LogicalOperator::GraphScan(scan) => is_given(scan.filter, e),
        _ => false,
    }
}

/// Whether an optional expression is the given one.
pub open spec fn is_given(option: Option<Expression>, e: ExpressionView) -> bool {
    option matches Some(found) && found@ == e
}

proof fn lemma_list_evaluates(
    before: Seq<Expression>,
    replacement: ReplacementView,
    after: Seq<Expression>,
    e: ExpressionView,
)
    requires
        list_replaced(before, replacement, after),
    ensures
        views(before).contains(e) ==> views(after).contains(substituted(e, replacement)),
{
    if views(before).contains(e) {
        let i = choose|i: int| 0 <= i < views(before).len() && views(before)[i] == e;
        assert(views(after)[i] == substituted(e, replacement));
    }
}

/// Every expression that an operator evaluates is replaced, whatever the operator.
pub proof fn every_expression_is_replaced(
    before: LogicalOperator,
    replacement: ReplacementView,
    after: LogicalOperator,
    e: ExpressionView,
)
    requires
        is_replaced(before, replacement, after),
        evaluates(before, e),
    ensures
        evaluates(after, substituted(e, replacement)),
{
    match (before, after) {
        (LogicalOperator::Get(a), LogicalOperator::Get(b)) => {
            lemma_list_evaluates(
                a.runtime_filter_expressions@,
                replacement,
                b.runtime_filter_expressions@,
                e,
            );
        },
        (LogicalOperator::ExpressionGet(a), LogicalOperator::ExpressionGet(b)) => {
            let i = choose|i: int|
                0 <= i < a.rows@.len() && views((#[trigger] a.rows@[i])@).contains(e);
            lemma_list_evaluates(a.rows@[i]@, replacement, b.rows@[i]@, e);
        },
        (LogicalOperator::Projection(a), LogicalOperator::Projection(b)) => {
            lemma_list_evaluates(a.expressions@, replacement, b.expressions@, e);
        },
        (LogicalOperator::ExternalProject(a), LogicalOperator::ExternalProject(b)) => {
            lemma_list_evaluates(a.expressions@, replacement, b.expressions@, e);
        },
        (LogicalOperator::Filter(a), LogicalOperator::Filter(b)) => {
            lemma_list_evaluates(a.expressions@, replacement, b.expressions@, e);
        },
        (LogicalOperator::Aggregate(a), LogicalOperator::Aggregate(b)) => {
            lemma_list_evaluates(a.groups@, replacement, b.groups@, e);
            lemma_list_evaluates(a.aggregates@, replacement, b.aggregates@, e);
        },
        (
            LogicalOperator::Join(Join::Comparison(a)),
            LogicalOperator::Join(Join::Comparison(b)),
        ) => {
            lemma_list_evaluates(
                a.duplicate_eliminated_columns@,
                replacement,
                b.duplicate_eliminated_columns@,
                e,
            );
            if exists|i: int|
                0 <= i < a.conditions@.len() && ((#[trigger] a.conditions@[i]).left@ == e
                    || a.conditions@[i].right@ == e) {
                let i = choose|i: int|
                    0 <= i < a.conditions@.len() && ((#[trigger] a.conditions@[i]).left@ == e
                        || a.conditions@[i].right@ == e);
                assert(b.conditions@[i].left@ == substituted(a.conditions@[i].left@, replacement));
            }
        },
        (LogicalOperator::SearchScan(a), LogicalOperator::SearchScan(b)) => {
            lemma_list_evaluates(a.absorbed_predicates@, replacement, b.absorbed_predicates@, e);
            lemma_list_evaluates(a.residual_predicates@, replacement, b.residual_predicates@, e);
            lemma_list_evaluates(a.projections@, replacement, b.projections@, e);
        },
        (LogicalOperator::FullTextFilterScan(a), LogicalOperator::FullTextFilterScan(b)) => {
            lemma_list_evaluates(a.other_predicates@, replacement, b.other_predicates@, e);
            lemma_list_evaluates(a.residual_predicates@, replacement, b.residual_predicates@, e);
        },
        _ => {},
    }
}

} // verus!
