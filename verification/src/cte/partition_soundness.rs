//! Why a reader of a partitioned definition finds all its rows in one branch.

use vstd::prelude::*;

use crate::cte::demand_producer::union_rows;
use crate::cte::partition_recognition::{
    agreed_value, assignment, column_source, constant_column, filtered_columns, first_partition,
    fixed_among, fixed_columns, fixed_to, input_supplies_null, listing, literal_position,
    literals_at, own_columns, partition_at, position_of, readers_of, recognized, safe_among,
    safe_readers, union_branches, PartitionView,
};
use crate::cte::predicate_domain::respects_connectives;
use crate::expression::analysis::views;
use crate::expression::equality::fixed_value;
use crate::expression::meaning::{
    fixed_column_has_the_literal, reads_columns, reads_comparisons, reads_literals,
};
use crate::expression::{ColumnRefExpression, Expression, ExpressionView};
use crate::index_list::{increasing, increasing_list_exists};
use crate::layout::{bindings_of, plan_columns};
use crate::operator::{DependentJoinKind, Filter, Join, LogicalOperator, MaterializedCTE};
use crate::plan::{
    count_among, count_parts, has_sound_arity, is_part, lemma_input_is_part, lemma_part_of_part,
    read_of, LogicalPlan,
};
use crate::types::{ColumnBinding, ConjunctionType, JoinType, LogicalType};
use crate::value::{Value, ValueView};

verus! {

/// A row comes out of nested unions exactly where it comes out of one of their
/// branches.
pub proof fn branches_are_the_union<T>(
    plan: LogicalPlan,
    rows: spec_fn(LogicalPlan) -> Set<T>,
    row: T,
)
    ensures
        union_branches(plan).len() > 0,
        union_rows(plan, rows).contains(row) <==> exists|i: int|
            0 <= i < union_branches(plan).len() && rows(#[trigger] union_branches(plan)[i]).contains(
                row,
            ),
    decreases plan,
{
    let all = union_branches(plan);
    if plan.operator matches LogicalOperator::SetOperation(set) && set.setop_type is Union
        && set.setop_all && plan.children@.len() == 2 {
        let left = union_branches(plan.children@[0]);
        let right = union_branches(plan.children@[1]);
        branches_are_the_union(plan.children@[0], rows, row);
        branches_are_the_union(plan.children@[1], rows, row);
        assert(all == left + right);
        if exists|i: int| 0 <= i < left.len() && rows(#[trigger] left[i]).contains(row) {
            let i = choose|i: int| 0 <= i < left.len() && rows(#[trigger] left[i]).contains(row);
            assert(all[i] == left[i]);
        }
        if exists|i: int| 0 <= i < right.len() && rows(#[trigger] right[i]).contains(row) {
            let i = choose|i: int| 0 <= i < right.len() && rows(#[trigger] right[i]).contains(row);
            assert(all[left.len() + i] == right[i]);
        }
        if exists|i: int| 0 <= i < all.len() && rows(#[trigger] all[i]).contains(row) {
            let i = choose|i: int| 0 <= i < all.len() && rows(#[trigger] all[i]).contains(row);
            if i < left.len() {
                assert(rows(left[i]).contains(row));
            } else {
                assert(rows(right[i - left.len()]).contains(row));
            }
        }
    } else {
        assert(all[0] == plan);
    }
}

/// Whether a join puts out rows of one input without a match, with NULLs in place
/// of the other input at position `i`.
pub open spec fn pads_input(join_type: JoinType, i: int) -> bool {
    match join_type {
        JoinType::Left => i == 1,
        JoinType::Single => i == 1,
        JoinType::Right => i == 0,
        JoinType::Outer => i == 0 || i == 1,
        _ => false,
    }
}

/// Whether an operator puts NULLs in place of the rows of its input at position `i`.
pub open spec fn pads_with_nulls(operator: LogicalOperator, i: int) -> bool {
    match operator {
        LogicalOperator::Join(Join::Comparison(join)) => pads_input(join.join_type, i),
        LogicalOperator::Join(Join::Any(join)) => pads_input(join.join_type, i),
        LogicalOperator::DependentJoin(DependentJoinKind::Scalar) => i == 1,
        LogicalOperator::DependentJoin(DependentJoinKind::Lateral { join_type }) => pads_input(
            join_type,
            i,
        ),
        _ => false,
    }
}

/// Where NULLs may come in from above, no reader is safe: there is none.
proof fn lemma_no_read_below_nulls(plan: LogicalPlan, cte_index: usize, part: LogicalPlan)
    requires
        has_sound_arity(plan),
        safe_readers(plan, cte_index, true) is Some,
        is_part(part, plan),
    ensures
        !read_of(cte_index)(part),
    decreases plan,
{
    if part != plan {
        let i = choose|i: int|
            #![trigger plan.children@[i]]
            0 <= i < plan.children@.len() && is_part(part, plan.children@[i]);
        lemma_safe_input(plan, cte_index, true, plan.children@.len(), i);
        lemma_no_read_below_nulls(plan.children@[i], cte_index, part);
    }
}

proof fn lemma_safe_input(
    plan: LogicalPlan,
    cte_index: usize,
    below_nulls: bool,
    n: nat,
    i: int,
)
    requires
        !(plan.operator is CTERef),
        0 <= i < n <= plan.children@.len(),
        safe_among(plan.operator, plan.children@, cte_index, below_nulls, n) is Some,
    ensures
        safe_readers(
            plan.children@[i],
            cte_index,
            below_nulls || input_supplies_null(plan.operator, i),
        ) is Some,
    decreases n,
{
    if i < n - 1 {
        lemma_safe_input(plan, cte_index, below_nulls, (n - 1) as nat, i);
    }
}

/// A definition is partitioned only where no read of it lies, however deep, in an
/// input that an operator may replace by NULLs.
pub proof fn readers_are_never_padded(
    plan: LogicalPlan,
    cte_index: usize,
    operator: LogicalPlan,
    i: int,
    part: LogicalPlan,
)
    requires
        has_sound_arity(plan),
        safe_readers(plan, cte_index, false) is Some,
        is_part(operator, plan),
        0 <= i < operator.children@.len(),
        pads_with_nulls(operator.operator, i),
        is_part(part, operator.children@[i]),
    ensures
        !read_of(cte_index)(part),
    decreases plan,
{
    if operator == plan {
        lemma_safe_input(plan, cte_index, false, plan.children@.len(), i);
        lemma_no_read_below_nulls(plan.children@[i], cte_index, part);
    } else {
        let k = choose|k: int|
            #![trigger plan.children@[k]]
            0 <= k < plan.children@.len() && is_part(operator, plan.children@[k]);
        lemma_safe_input(plan, cte_index, false, plan.children@.len(), k);
        if input_supplies_null(plan.operator, k) {
            lemma_input_is_part(operator, i);
            lemma_part_of_part(part, operator.children@[i], operator);
            lemma_part_of_part(part, operator, plan.children@[k]);
            lemma_no_read_below_nulls(plan.children@[k], cte_index, part);
        } else {
            readers_are_never_padded(plan.children@[k], cte_index, operator, i, part);
        }
    }
}

/// Every read of a definition is among its readers, and there are as many readers
/// as reads.
pub proof fn readers_are_the_reads(plan: LogicalPlan, cte_index: usize, below_nulls: bool)
    requires
        has_sound_arity(plan),
        safe_readers(plan, cte_index, below_nulls) is Some,
    ensures
        (safe_readers(plan, cte_index, below_nulls)->0).len() == count_parts(
            plan,
            read_of(cte_index),
        ),
        forall|part: LogicalPlan| #[trigger]
            is_part(part, plan) && read_of(cte_index)(part) ==> (
            part.operator matches LogicalOperator::CTERef(reference) && (safe_readers(
                plan,
                cte_index,
                below_nulls,
            )->0).contains(reference.table_index)),
    decreases plan, 0nat,
{
    let readers = safe_readers(plan, cte_index, below_nulls)->0;
    match plan.operator {
        LogicalOperator::CTERef(reference) => {
            assert(count_among(plan.children@, read_of(cte_index), 0) == 0);
            if reference.cte_index == cte_index {
                assert(readers[0] == reference.table_index);
            }
        },
        _ => {
            lemma_readers_among(
                plan.operator,
                plan.children@,
                cte_index,
                below_nulls,
                plan.children@.len(),
            );
            assert forall|part: LogicalPlan| #[trigger]
                is_part(part, plan) && read_of(cte_index)(part) implies (
            part.operator matches LogicalOperator::CTERef(reference) && readers.contains(
                reference.table_index,
            )) by {
                let i = choose|i: int|
                    #![trigger plan.children@[i]]
                    0 <= i < plan.children@.len() && is_part(part, plan.children@[i]);
                assert(is_part(part, plan.children@[i]));
            }
        },
    }
}

proof fn lemma_readers_among(
    operator: LogicalOperator,
    plans: Seq<LogicalPlan>,
    cte_index: usize,
    below_nulls: bool,
    n: nat,
)
    requires
        n <= plans.len(),
        forall|i: int| 0 <= i < plans.len() ==> has_sound_arity(#[trigger] plans[i]),
        safe_among(operator, plans, cte_index, below_nulls, n) is Some,
    ensures
        (safe_among(operator, plans, cte_index, below_nulls, n)->0).len() == count_among(
            plans,
            read_of(cte_index),
            n,
        ),
        forall|i: int, part: LogicalPlan|
            #![trigger is_part(part, plans[i])]
            0 <= i < n && is_part(part, plans[i]) && read_of(cte_index)(part) ==> (
            part.operator matches LogicalOperator::CTERef(reference) && (safe_among(
                operator,
                plans,
                cte_index,
                below_nulls,
                n,
            )->0).contains(reference.table_index)),
    decreases plans, n,
{
    if n > 0 {
        lemma_readers_among(operator, plans, cte_index, below_nulls, (n - 1) as nat);
        let below = below_nulls || input_supplies_null(
            operator,
            n - 1,
        );
        readers_are_the_reads(plans[n - 1], cte_index, below);
        let before = safe_among(operator, plans, cte_index, below_nulls, (n - 1) as nat)->0;
        let more = safe_readers(plans[n - 1], cte_index, below)->0;
        let all = safe_among(operator, plans, cte_index, below_nulls, n)->0;
        assert(all == before + more);
        assert forall|i: int, part: LogicalPlan|
            #![trigger is_part(part, plans[i])]
            0 <= i < n && is_part(part, plans[i]) && read_of(cte_index)(part) implies (
        part.operator matches LogicalOperator::CTERef(reference) && all.contains(
            reference.table_index,
        )) by {
            if let LogicalOperator::CTERef(reference) = part.operator {
                if i < n - 1 {
                    let k = choose|k: int| 0 <= k < before.len() && before[k]
                        == reference.table_index;
                    assert(all[k] == reference.table_index);
                } else {
                    let k = choose|k: int| 0 <= k < more.len() && more[k] == reference.table_index;
                    assert(all[before.len() + k] == reference.table_index);
                }
            }
        }
    }
}

/// The columns that a true predicate fixes have the values of their literals.
pub proof fn fixed_columns_have_their_literals(
    e: ExpressionView,
    holds: spec_fn(ExpressionView) -> bool,
    value: spec_fn(ExpressionView) -> Option<int>,
    row: spec_fn(ColumnBinding) -> Option<int>,
    literal: spec_fn(ValueView) -> Option<int>,
)
    requires
        respects_connectives(holds),
        reads_comparisons(holds, value),
        reads_columns(value, row),
        reads_literals(value, literal),
        holds(e),
    ensures
        forall|k: int|
            0 <= k < fixed_columns(e).len() ==> row((#[trigger] fixed_columns(e)[k]).0) == literal(
                fixed_columns(e)[k].1,
            ) && row(fixed_columns(e)[k].0) is Some,
    decreases e, 0nat,
{
    match e {
        ExpressionView::Conjunction(ConjunctionType::And, children) => {
            assert forall|i: int| 0 <= i < children.len() implies holds(#[trigger] children[i]) by {
                assert(holds(ExpressionView::Conjunction(ConjunctionType::And, children)));
            }
            lemma_fixed_among(children, children.len(), holds, value, row, literal);
        },
        _ => {
            if let ExpressionView::Comparison(kind, left, right) = e {
                if fixed_value(e) is Some {
                    assert(holds(ExpressionView::Comparison(kind, left, right)));
                    fixed_column_has_the_literal(kind, *left, *right, value, row, literal);
                }
            }
        },
    }
}

proof fn lemma_fixed_among(
    children: Seq<ExpressionView>,
    n: nat,
    holds: spec_fn(ExpressionView) -> bool,
    value: spec_fn(ExpressionView) -> Option<int>,
    row: spec_fn(ColumnBinding) -> Option<int>,
    literal: spec_fn(ValueView) -> Option<int>,
)
    requires
        n <= children.len(),
        respects_connectives(holds),
        reads_comparisons(holds, value),
        reads_columns(value, row),
        reads_literals(value, literal),
        forall|i: int| 0 <= i < children.len() ==> holds(#[trigger] children[i]),
    ensures
        forall|k: int|
            0 <= k < fixed_among(children, n).len() ==> row((#[trigger] fixed_among(children, n)[k]).0)
                == literal(fixed_among(children, n)[k].1) && row(fixed_among(children, n)[k].0)
                is Some,
    decreases children, n,
{
    if n > 0 {
        lemma_fixed_among(children, (n - 1) as nat, holds, value, row, literal);
        fixed_columns_have_their_literals(children[n - 1], holds, value, row, literal);
        let before = fixed_among(children, (n - 1) as nat);
        let last = fixed_columns(children[n - 1]);
        let all = fixed_among(children, n);
        assert forall|k: int| 0 <= k < all.len() implies row((#[trigger] all[k]).0) == literal(
            all[k].1,
        ) && row(all[k].0) is Some by {
            if k < before.len() {
                assert(all[k] == before[k]);
            } else {
                assert(all[k] == last[k - before.len()]);
            }
        }
    }
}

/// A row that passes a filter has the literals of all columns that the filter fixes.
pub proof fn filter_fixes_its_columns(
    filter: Filter,
    holds: spec_fn(ExpressionView) -> bool,
    value: spec_fn(ExpressionView) -> Option<int>,
    row: spec_fn(ColumnBinding) -> Option<int>,
    literal: spec_fn(ValueView) -> Option<int>,
)
    requires
        respects_connectives(holds),
        reads_comparisons(holds, value),
        reads_columns(value, row),
        reads_literals(value, literal),
        forall|i: int|
            0 <= i < filter.expressions@.len() ==> holds((#[trigger] filter.expressions@[i])@),
    ensures
        ({
            let pairs = own_columns(LogicalOperator::Filter(filter));
            forall|k: int|
                0 <= k < pairs.len() ==> row((#[trigger] pairs[k]).0) == literal(pairs[k].1) && row(
                    pairs[k].0,
                ) is Some
        }),
{
    let all = views(filter.expressions@);
    assert forall|i: int| 0 <= i < all.len() implies holds(#[trigger] all[i]) by {
        assert(all[i] == filter.expressions@[i]@);
    }
    lemma_fixed_among(all, all.len(), holds, value, row, literal);
}

proof fn lemma_agreed(
    pairs: Seq<(ColumnBinding, ValueView)>,
    binding: ColumnBinding,
    n: nat,
)
    requires
        n <= pairs.len(),
    ensures
        match agreed_value(pairs, binding, n) {
            None => exists|i: int, j: int|
                0 <= i < n && 0 <= j < n && (#[trigger] pairs[i]).0 == binding && (
                #[trigger] pairs[j]).0 == binding && pairs[i].1 != pairs[j].1,
            Some(None) => forall|i: int| 0 <= i < n ==> (#[trigger] pairs[i]).0 != binding,
            Some(Some(v)) => (forall|i: int|
                0 <= i < n && (#[trigger] pairs[i]).0 == binding ==> pairs[i].1 == v) && exists|
                i: int,
            |
                0 <= i < n && #[trigger] pairs[i] == (binding, v),
        },
    decreases n,
{
    if n > 0 {
        lemma_agreed(pairs, binding, (n - 1) as nat);
        if pairs[n - 1].0 == binding {
            assert(pairs[n - 1] == (binding, pairs[n - 1].1));
        }
    }
}

/// A column is fixed to a literal where something fixes it to that one and nothing
/// to another.
pub proof fn fixed_to_what_all_agree_on(
    pairs: Seq<(ColumnBinding, ValueView)>,
    binding: ColumnBinding,
    v: ValueView,
)
    ensures
        fixed_to(pairs, binding) == Some(v) <==> (exists|i: int|
            0 <= i < pairs.len() && #[trigger] pairs[i] == (binding, v)) && forall|i: int|
            0 <= i < pairs.len() && (#[trigger] pairs[i]).0 == binding ==> pairs[i].1 == v,
{
    lemma_agreed(pairs, binding, pairs.len());
}

/// What an expression comes to on a row, where columns have the values of the row and
/// literals what they denote.
pub open spec fn evaluates(
    value: spec_fn(ExpressionView, spec_fn(ColumnBinding) -> Option<int>) -> Option<int>,
    literal: spec_fn(ValueView) -> Option<int>,
) -> bool {
    &&& forall|c: ColumnRefExpression, row: spec_fn(ColumnBinding) -> Option<int>|
        c.depth == 0 ==> #[trigger] value(ExpressionView::ColumnRef(c), row) == row(c.binding)
    &&& forall|v: ValueView, ty: LogicalType, row: spec_fn(ColumnBinding) -> Option<int>| #[trigger]
        value(ExpressionView::Constant(v, ty), row) == literal(v)
}

/// Whether `row` follows a row up through projections and groupings: each output
/// column has the value of its expression on the row below.
pub open spec fn is_followed(
    plan: LogicalPlan,
    row: spec_fn(LogicalPlan) -> spec_fn(ColumnBinding) -> Option<int>,
    value: spec_fn(ExpressionView, spec_fn(ColumnBinding) -> Option<int>) -> Option<int>,
) -> bool
    decreases plan,
{
    plan.children@.len() == 1 ==> {
        let below = row(plan.children@[0]);
        &&& is_followed(plan.children@[0], row, value)
        &&& match plan.operator {
            LogicalOperator::Projection(projection) => forall|i: usize|
                i < projection.expressions@.len() ==> #[trigger] row(plan)(
                    ColumnBinding { table_index: projection.table_index, column_index: i },
                ) == value(projection.expressions@[i as int]@, below),
            LogicalOperator::Aggregate(aggregate) => forall|i: usize|
                i < aggregate.groups@.len() ==> #[trigger] row(plan)(
                    ColumnBinding { table_index: aggregate.group_index, column_index: i },
                ) == value(aggregate.groups@[i as int]@, below),
            _ => true,
        }
    }
}

proof fn lemma_position(bindings: Seq<ColumnBinding>, binding: ColumnBinding, from: nat)
    ensures
        position_of(bindings, binding, from) matches Some(at) ==> from <= at < bindings.len()
            && bindings[at as int] == binding,
    decreases bindings.len() - from,
{
    if from < bindings.len() && bindings[from as int] != binding {
        lemma_position(bindings, binding, from + 1);
    }
}

/// A column that a plan shows to be constant has the value of that literal in every
/// row, and it is not NULL.
pub proof fn constant_columns_have_their_literal(
    plan: LogicalPlan,
    ordinal: nat,
    row: spec_fn(LogicalPlan) -> spec_fn(ColumnBinding) -> Option<int>,
    value: spec_fn(ExpressionView, spec_fn(ColumnBinding) -> Option<int>) -> Option<int>,
    literal: spec_fn(ValueView) -> Option<int>,
)
    requires
        evaluates(value, literal),
        is_followed(plan, row, value),
        constant_column(plan, ordinal) is Some,
    ensures
        ordinal < plan_columns(plan).len(),
        row(plan)(plan_columns(plan)[ordinal as int].binding) == literal(
            constant_column(plan, ordinal)->0,
        ),
        constant_column(plan, ordinal)->0 != ValueView::Plain(Value::Null),
    decreases plan,
{
    let e = column_source(plan, ordinal)->0;
    let binding = plan_columns(plan)[ordinal as int].binding;
    let below = row(plan.children@[0]);
    assert(row(plan)(binding) == value(e@, below)) by {
        match plan.operator {
            LogicalOperator::Projection(projection) => {
                assert(binding == (ColumnBinding {
                    table_index: projection.table_index,
                    column_index: binding.column_index,
                }));
            },
            LogicalOperator::Aggregate(aggregate) => {
                assert(binding == (ColumnBinding {
                    table_index: aggregate.group_index,
                    column_index: binding.column_index,
                }));
            },
            _ => {},
        }
    }
    match e {
        Expression::Constant(constant) => {
            assert(value(ExpressionView::Constant(constant.value@, constant.return_type), below)
                == literal(constant.value@));
        },
        Expression::ColumnRef(column) => {
            assert(value(ExpressionView::ColumnRef(*column), below) == below(column.binding));
            let bindings = bindings_of(plan_columns(plan.children@[0]));
            lemma_position(bindings, column.binding, 0);
            let position = position_of(bindings, column.binding, 0)->0;
            constant_columns_have_their_literal(
                plan.children@[0],
                position,
                row,
                value,
                literal,
            );
            assert(bindings[position as int] == plan_columns(
                plan.children@[0],
            )[position as int].binding);
        },
        _ => {},
    }
}

proof fn lemma_literals(branches: Seq<LogicalPlan>, ordinal: nat, n: nat)
    requires
        n <= branches.len(),
        literals_at(branches, ordinal, n) is Some,
    ensures
        (literals_at(branches, ordinal, n)->0).len() == n,
        forall|b: int|
            0 <= b < n ==> constant_column(branches[b], ordinal) == Some(
                #[trigger] (literals_at(branches, ordinal, n)->0)[b],
            ),
    decreases n,
{
    if n > 0 {
        lemma_literals(branches, ordinal, (n - 1) as nat);
    }
}

proof fn lemma_literal_position(values: Seq<ValueView>, v: ValueView, from: nat)
    ensures
        literal_position(values, v, from) matches Some(at) ==> from <= at < values.len()
            && values[at as int] == v,
    decreases values.len() - from,
{
    if from < values.len() && values[from as int] != v {
        lemma_literal_position(values, v, from + 1);
    }
}

proof fn lemma_assignment(
    readers: Seq<usize>,
    pairs: Seq<(ColumnBinding, ValueView)>,
    values: Seq<ValueView>,
    ordinal: nat,
    n: nat,
)
    requires
        n <= readers.len(),
        values.len() <= usize::MAX,
        assignment(readers, pairs, values, ordinal, n) is Some,
    ensures
        (assignment(readers, pairs, values, ordinal, n)->0).len() == n,
        forall|i: int|
            0 <= i < n ==> {
                let (reader, branch) = #[trigger] (assignment(
                    readers,
                    pairs,
                    values,
                    ordinal,
                    n,
                )->0)[i];
                &&& reader == readers[i]
                &&& branch < values.len()
                &&& fixed_to(
                    pairs,
                    ColumnBinding { table_index: reader, column_index: ordinal as usize },
                ) == Some(values[branch as int])
            },
    decreases n,
{
    if n > 0 {
        lemma_assignment(readers, pairs, values, ordinal, (n - 1) as nat);
        if let Some(v) = fixed_to(
            pairs,
            ColumnBinding { table_index: readers[n - 1], column_index: ordinal as usize },
        ) {
            lemma_literal_position(values, v, 0);
        }
    }
}

proof fn lemma_first_partition(
    branches: Seq<LogicalPlan>,
    readers: Seq<usize>,
    pairs: Seq<(ColumnBinding, ValueView)>,
    width: nat,
    from: nat,
)
    ensures
        first_partition(branches, readers, pairs, width, from) matches Some(found) ==> found.ordinal
            < width && partition_at(branches, readers, pairs, found.ordinal) == Some(found),
    decreases width - from,
{
    if from < width && partition_at(branches, readers, pairs, from) is None {
        lemma_first_partition(branches, readers, pairs, width, from + 1);
    }
}

/// A recognized partitioning tells the branches apart by different literals, each
/// constant in its branch, and every branch has a reader.
pub proof fn branches_have_different_literals(
    plan: LogicalPlan,
    cte: MaterializedCTE,
    partition: PartitionView,
)
    requires
        plan.operator == LogicalOperator::MaterializedCTE(cte),
        recognized(plan) == Some(partition),
    ensures
        cte.materialized is Default,
        ({
            let branches = union_branches(plan.children@[0]);
            &&& branches.len() >= 2
            &&& partition.values.len() == branches.len()
            &&& partition.values.no_duplicates()
            &&& forall|b: int|
                0 <= b < branches.len() ==> constant_column(branches[b], partition.ordinal) == Some(
                    #[trigger] partition.values[b],
                )
            &&& forall|b: int|
                0 <= b < branches.len() ==> #[trigger] has_reader(partition.assigned, b)
        }),
{
    let branches = union_branches(plan.children@[0]);
    let readers = listing((safe_readers(plan.children@[1], cte.cte_index, false)->0).to_set());
    let pairs = filtered_columns(plan.children@[1]);
    lemma_first_partition(branches, readers, pairs, cte.column_types@.len(), 0);
    lemma_literals(branches, partition.ordinal, branches.len());
    assert forall|b: int| 0 <= b < branches.len() implies #[trigger] has_reader(
        partition.assigned,
        b,
    ) by {
        assert(readers_of(partition.assigned, b, partition.assigned.len()) > 0);
        let i = lemma_has_reader(partition.assigned, b, partition.assigned.len());
        assert(partition.assigned[i].1 == b);
    }
}

/// Whether some reader is assigned to a branch.
pub open spec fn has_reader(assigned: Seq<(usize, usize)>, branch: int) -> bool {
    exists|i: int| 0 <= i < assigned.len() && (#[trigger] assigned[i]).1 == branch
}

proof fn lemma_has_reader(assigned: Seq<(usize, usize)>, b: int, n: nat) -> (i: int)
    requires
        n <= assigned.len(),
        readers_of(assigned, b, n) > 0,
    ensures
        0 <= i < n,
        assigned[i].1 == b,
    decreases n,
{
    if assigned[n - 1].1 == b {
        n - 1
    } else {
        lemma_has_reader(assigned, b, (n - 1) as nat)
    }
}

/// Every read of a partitioned definition is assigned to a branch, and the filters
/// of its plan fix the discriminating column of that read to the branch's literal and
/// to no other.
pub proof fn every_read_is_assigned_its_branch(
    plan: LogicalPlan,
    cte: MaterializedCTE,
    partition: PartitionView,
    part: LogicalPlan,
) -> (i: int)
    requires
        plan.operator == LogicalOperator::MaterializedCTE(cte),
        recognized(plan) == Some(partition),
        has_sound_arity(plan.children@[1]),
        partition.values.len() <= usize::MAX,
        is_part(part, plan.children@[1]),
        read_of(cte.cte_index)(part),
    ensures
        0 <= i < partition.assigned.len(),
        partition.assigned[i].1 < partition.values.len(),
        part.operator matches LogicalOperator::CTERef(reference) && partition.assigned[i].0
            == reference.table_index && fixed_to(
            filtered_columns(plan.children@[1]),
            ColumnBinding {
                table_index: reference.table_index,
                column_index: partition.ordinal as usize,
            },
        ) == Some(partition.values[partition.assigned[i].1 as int]),
{
    let branches = union_branches(plan.children@[0]);
    let reader = plan.children@[1];
    let found = safe_readers(reader, cte.cte_index, false)->0;
    let readers = listing(found.to_set());
    let pairs = filtered_columns(reader);
    readers_are_the_reads(reader, cte.cte_index, false);
    let s = increasing_list_exists(found);
    assert(increasing(s) && s.to_set() == found.to_set());
    assert(readers.to_set() == found.to_set());
    lemma_first_partition(branches, readers, pairs, cte.column_types@.len(), 0);
    lemma_literals(branches, partition.ordinal, branches.len());
    lemma_assignment(readers, pairs, partition.values, partition.ordinal, readers.len());
    if let LogicalOperator::CTERef(reference) = part.operator {
        assert(found.contains(reference.table_index));
        assert(found.to_set().contains(reference.table_index));
        assert(readers.to_set().contains(reference.table_index));
        let i = choose|i: int| 0 <= i < readers.len() && readers[i] == reference.table_index;
        assert(partition.assigned[i].0 == reference.table_index);
        i
    } else {
        0
    }
}

/// A row that a reader wants comes from the branch that the reader is assigned to:
/// a row of another branch has another value in the discriminating column, as long as
/// different literals of the branches denote different values.
pub proof fn wanted_rows_are_in_the_assigned_branch(
    plan: LogicalPlan,
    cte: MaterializedCTE,
    partition: PartitionView,
    wanted: int,
    from: int,
    row: spec_fn(LogicalPlan) -> spec_fn(ColumnBinding) -> Option<int>,
    value: spec_fn(ExpressionView, spec_fn(ColumnBinding) -> Option<int>) -> Option<int>,
    literal: spec_fn(ValueView) -> Option<int>,
)
    requires
        plan.operator == LogicalOperator::MaterializedCTE(cte),
        recognized(plan) == Some(partition),
        0 <= wanted < partition.values.len(),
        0 <= from < partition.values.len(),
        evaluates(value, literal),
        is_followed(union_branches(plan.children@[0])[from], row, value),
        forall|a: int, b: int|
            0 <= a < partition.values.len() && 0 <= b < partition.values.len() && literal(
                #[trigger] partition.values[a],
            ) == literal(#[trigger] partition.values[b]) ==> partition.values[a]
                == partition.values[b],
        ({
            let branch = union_branches(plan.children@[0])[from];
            row(branch)(plan_columns(branch)[partition.ordinal as int].binding) == literal(
                partition.values[wanted],
            )
        }),
    ensures
        from == wanted,
{
    let branches = union_branches(plan.children@[0]);
    branches_have_different_literals(plan, cte, partition);
    assert(constant_column(branches[from], partition.ordinal) == Some(partition.values[from]));
    constant_columns_have_their_literal(branches[from], partition.ordinal, row, value, literal);
    assert(literal(partition.values[from]) == literal(partition.values[wanted]));
}

/// Only a definition that is shared by default is partitioned, with two branches and two
/// readers at least; one that has to be materialized stays whole.
pub proof fn only_default_definitions_are_partitioned(plan: LogicalPlan)
    requires
        recognized(plan) is Some,
    ensures
        plan.operator matches LogicalOperator::MaterializedCTE(cte) && cte.materialized is Default,
        plan.children@.len() == 2,
        union_branches(plan.children@[0]).len() >= 2,
{
}

} // verus!
