//! Output columns of operators and plans.

use vstd::prelude::*;

use crate::expression::analysis::result_type;
use crate::expression::Expression;
use crate::operator::{Aggregate, Join, LogicalOperator, OutputColumn, ProjectionMap};
use crate::plan::LogicalPlan;
use crate::types::{ColumnBinding, JoinType, LogicalType};

verus! {

/// The output columns of one operator, in order.
#[derive(Debug)]
pub struct LogicalOutputLayout {
    pub columns: Vec<OutputColumn>,
}

/// The bindings of a list of columns.
pub open spec fn bindings_of(columns: Seq<OutputColumn>) -> Seq<ColumnBinding> {
    columns.map_values(|c: OutputColumn| c.binding)
}

/// The types of a list of columns.
pub open spec fn types_of(columns: Seq<OutputColumn>) -> Seq<LogicalType> {
    columns.map_values(|c: OutputColumn| c.logical_type)
}

impl LogicalOutputLayout {
    pub fn len(&self) -> (r: usize)
        ensures
            r == self.columns@.len(),
    {
        self.columns.len()
    }

    pub fn bindings(&self) -> (r: Vec<ColumnBinding>)
        ensures
            r@ == bindings_of(self.columns@),
    {
        let mut r: Vec<ColumnBinding> = Vec::new();
        let mut i: usize = 0;
        while i < self.columns.len()
            invariant
                i <= self.columns@.len(),
                r@ == bindings_of(self.columns@).take(i as int),
            decreases self.columns@.len() - i,
        {
            r.push(self.columns[i].binding);
            assert(r@ =~= bindings_of(self.columns@).take(i as int + 1));
            i = i + 1;
        }
        assert(r@ =~= bindings_of(self.columns@));
        r
    }

    pub fn types(&self) -> (r: Vec<LogicalType>)
        ensures
            r@ == types_of(self.columns@),
    {
        let mut r: Vec<LogicalType> = Vec::new();
        let mut i: usize = 0;
        while i < self.columns.len()
            invariant
                i <= self.columns@.len(),
                r@ == types_of(self.columns@).take(i as int),
            decreases self.columns@.len() - i,
        {
            r.push(self.columns[i].logical_type);
            assert(r@ =~= types_of(self.columns@).take(i as int + 1));
            i = i + 1;
        }
        assert(r@ =~= types_of(self.columns@));
        r
    }
}

/// Columns `0, 1, ..` of a relation.
pub open spec fn table_columns(table_index: usize, types: Seq<LogicalType>) -> Seq<OutputColumn> {
    Seq::new(
        types.len(),
        |i: int|
            OutputColumn {
                binding: ColumnBinding { table_index, column_index: i as usize },
                logical_type: types[i],
            },
    )
}

/// The types that a list of expressions computes.
pub open spec fn expression_types(expressions: Seq<Expression>) -> Seq<LogicalType> {
    expressions.map_values(|e: Expression| result_type(e@))
}

/// The items at the listed positions; positions past the end are skipped.
pub open spec fn picked<T>(items: Seq<T>, positions: Seq<usize>) -> Seq<T>
    decreases positions.len(),
{
    if positions.len() == 0 {
        Seq::empty()
    } else {
        let prefix = picked(items, positions.drop_last());
        if positions.last() < items.len() {
            prefix.push(items[positions.last() as int])
        } else {
            prefix
        }
    }
}

/// The items that a projection map passes on.
pub open spec fn projected<T>(items: Seq<T>, map: ProjectionMap) -> Seq<T> {
    match map {
        ProjectionMap::All => items,
        ProjectionMap::Columns(positions) => picked(items, positions@),
    }
}

/// Columns of a join, given those that it keeps of either input.
pub open spec fn join_columns(
    join_type: JoinType,
    mark_index: usize,
    left: Seq<OutputColumn>,
    right: Seq<OutputColumn>,
) -> Seq<OutputColumn> {
    match join_type {
        JoinType::Semi => left,
        JoinType::Anti => left,
        JoinType::RightSemi => right,
        JoinType::RightAnti => right,
        JoinType::Mark => left + table_columns(mark_index, seq![LogicalType::Boolean]),
        _ => left + right,
    }
}

/// The columns of input `i`; none where the operator has no such input.
pub open spec fn input(inputs: Seq<Seq<OutputColumn>>, i: int) -> Seq<OutputColumn> {
    if 0 <= i < inputs.len() {
        inputs[i]
    } else {
        Seq::empty()
    }
}

/// The columns that an operator puts out over inputs with the given columns.
pub open spec fn operator_columns(operator: LogicalOperator, inputs: Seq<Seq<OutputColumn>>) -> Seq<
    OutputColumn,
> {
    match operator {
        LogicalOperator::DummyScan => Seq::empty(),
        LogicalOperator::SubplanRef(reference) => reference.columns@,
        LogicalOperator::Get(get) => table_columns(get.table_index, get.returned_types@),
        LogicalOperator::ExpressionGet(get) => table_columns(get.table_index, get.types@),
        LogicalOperator::DelimGet(get) => table_columns(get.table_index, get.chunk_types@),
        LogicalOperator::TableFunctionGet(get) => table_columns(
            get.table_index,
            get.returned_types@,
        ),
        LogicalOperator::Projection(projection) => table_columns(
            projection.table_index,
            expression_types(projection.expressions@),
        ),
        LogicalOperator::ExternalProject(project) => input(inputs, 0) + table_columns(
            project.table_index,
            expression_types(project.expressions@),
        ),
        LogicalOperator::ExternalTable(table) => table_columns(
            table.table_index,
            table.returned_types@,
        ),
        LogicalOperator::Window(window) => input(inputs, 0) + table_columns(
            window.window_index,
            window.types@,
        ),
        LogicalOperator::Filter(filter) => projected(input(inputs, 0), filter.projection_map),
        LogicalOperator::Aggregate(aggregate) => table_columns(
            aggregate.group_index,
            expression_types(aggregate.groups@),
        ) + table_columns(aggregate.aggregate_index, expression_types(aggregate.aggregates@))
            + table_columns(
            aggregate.groupings_index,
            Seq::new(aggregate.grouping_functions as nat, |i: int| LogicalType::BigInt),
        ),
        LogicalOperator::Join(Join::Comparison(join)) => join_columns(
            join.join_type,
            join.mark_index,
            projected(input(inputs, 0), join.left_projection_map),
            projected(input(inputs, 1), join.right_projection_map),
        ),
        LogicalOperator::Join(Join::Any(join)) => join_columns(
            join.join_type,
            join.mark_index,
            projected(input(inputs, 0), join.left_projection_map),
            projected(input(inputs, 1), join.right_projection_map),
        ),
        LogicalOperator::Join(Join::Cross(_)) => input(inputs, 0) + input(inputs, 1),
        LogicalOperator::DependentJoin(_) => input(inputs, 0) + input(inputs, 1),
        LogicalOperator::SetOperation(set) => table_columns(set.table_index, set.types@),
        LogicalOperator::MaterializedCTE(_) => input(inputs, 1),
        LogicalOperator::RecursiveCTE(cte) => table_columns(cte.cte_index, cte.column_types@),
        LogicalOperator::CTERef(reference) => table_columns(
            reference.table_index,
            reference.column_types@,
        ),
        LogicalOperator::SearchScan(scan) => table_columns(
            scan.table_index,
            expression_types(scan.projections@),
        ),
        LogicalOperator::FullTextFilterScan(scan) => projected(
            table_columns(scan.get.table_index, scan.get.returned_types@),
            scan.projection_map,
        ),
        LogicalOperator::GraphMatch => Seq::empty(),
        LogicalOperator::GraphScan(scan) => table_columns(scan.table_index, scan.types@),
        LogicalOperator::GraphExpand(expand) => input(inputs, 0) + table_columns(
            expand.table_index,
            expand.types@,
        ),
        LogicalOperator::Statement(_) => Seq::empty(),
        _ => input(inputs, 0),
    }
}

/// The columns that a plan puts out.
pub open spec fn plan_columns(plan: LogicalPlan) -> Seq<OutputColumn>
    decreases plan,
{
    operator_columns(
        plan.operator,
        Seq::new(
            plan.children@.len(),
            |i: int|
                if 0 <= i < plan.children@.len() {
                    plan_columns(plan.children@[i])
                } else {
                    arbitrary()
                },
        ),
    )
}

/// The columns of each input.
pub open spec fn child_columns(children: Seq<LogicalPlan>) -> Seq<Seq<OutputColumn>> {
    children.map_values(|child: LogicalPlan| plan_columns(child))
}

/// The columns of a plan follow from its operator and those of its inputs.
pub proof fn lemma_plan_columns(plan: LogicalPlan)
    ensures
        plan_columns(plan) == operator_columns(plan.operator, child_columns(plan.children@)),
{
    let inputs = Seq::new(
        plan.children@.len(),
        |i: int|
            if 0 <= i < plan.children@.len() {
                plan_columns(plan.children@[i])
            } else {
                arbitrary()
            },
    );
    assert(plan_columns(plan) == operator_columns(plan.operator, inputs));
    assert(inputs =~= child_columns(plan.children@));
}

fn table_layout(table_index: usize, types: &Vec<LogicalType>) -> (r: Vec<OutputColumn>)
    ensures
        r@ == table_columns(table_index, types@),
{
    let mut r: Vec<OutputColumn> = Vec::new();
    let mut i: usize = 0;
    while i < types.len()
        invariant
            i <= types@.len(),
            r@ == table_columns(table_index, types@).take(i as int),
        decreases types@.len() - i,
    {
        r.push(
            OutputColumn {
                binding: ColumnBinding::new(table_index, i),
                logical_type: types[i],
            },
        );
        assert(r@ =~= table_columns(table_index, types@).take(i as int + 1));
        i = i + 1;
    }
    assert(r@ =~= table_columns(table_index, types@));
    r
}

fn expression_layout(table_index: usize, expressions: &Vec<Expression>) -> (r: Vec<OutputColumn>)
    ensures
        r@ == table_columns(table_index, expression_types(expressions@)),
{
    let mut types: Vec<LogicalType> = Vec::new();
    let mut i: usize = 0;
    while i < expressions.len()
        invariant
            i <= expressions@.len(),
            types@ == expression_types(expressions@).take(i as int),
        decreases expressions@.len() - i,
    {
        types.push(expressions[i].return_type());
        assert(types@ =~= expression_types(expressions@).take(i as int + 1));
        i = i + 1;
    }
    assert(types@ =~= expression_types(expressions@));
    table_layout(table_index, &types)
}

fn copy_columns(columns: &Vec<OutputColumn>) -> (r: Vec<OutputColumn>)
    ensures
        r@ == columns@,
{
    let mut r: Vec<OutputColumn> = Vec::new();
    extend_columns(&mut r, columns);
    assert(r@ =~= columns@);
    r
}

fn extend_columns(columns: &mut Vec<OutputColumn>, more: &Vec<OutputColumn>)
    ensures
        final(columns)@ == old(columns)@ + more@,
{
    let mut i: usize = 0;
    while i < more.len()
        invariant
            i <= more@.len(),
            columns@ == old(columns)@ + more@.take(i as int),
        decreases more@.len() - i,
    {
        columns.push(more[i]);
        assert(columns@ =~= old(columns)@ + more@.take(i as int + 1));
        i = i + 1;
    }
    assert(more@.take(i as int) =~= more@);
}

fn project_columns(columns: &Vec<OutputColumn>, map: &ProjectionMap) -> (r: Vec<OutputColumn>)
    ensures
        r@ == projected(columns@, *map),
{
    match map {
        ProjectionMap::All => copy_columns(columns),
        ProjectionMap::Columns(positions) => {
            let mut r: Vec<OutputColumn> = Vec::new();
            let mut i: usize = 0;
            assert(positions@.take(0) =~= Seq::empty());
            while i < positions.len()
                invariant
                    i <= positions@.len(),
                    r@ == picked(columns@, positions@.take(i as int)),
                decreases positions@.len() - i,
            {
                proof {
                    let next = positions@.take(i as int + 1);
                    assert(next.drop_last() =~= positions@.take(i as int));
                    assert(next.last() == positions@[i as int]);
                }
                if positions[i] < columns.len() {
                    r.push(columns[positions[i]]);
                }
                i = i + 1;
            }
            assert(positions@.take(i as int) =~= positions@);
            r
        },
    }
}

fn join_layout(
    join_type: JoinType,
    mark_index: usize,
    left: Vec<OutputColumn>,
    right: Vec<OutputColumn>,
) -> (r: Vec<OutputColumn>)
    ensures
        r@ == join_columns(join_type, mark_index, left@, right@),
{
    match join_type {
        JoinType::Semi => left,
        JoinType::Anti => left,
        JoinType::RightSemi => right,
        JoinType::RightAnti => right,
        JoinType::Mark => {
            let mut r = left;
            let mut types: Vec<LogicalType> = Vec::new();
            types.push(LogicalType::Boolean);
            assert(types@ =~= seq![LogicalType::Boolean]);
            extend_columns(&mut r, &table_layout(mark_index, &types));
            r
        },
        _ => {
            let mut r = left;
            extend_columns(&mut r, &right);
            r
        },
    }
}

/// What each layout of a list holds.
pub open spec fn layouts_of(layouts: Seq<LogicalOutputLayout>) -> Seq<Seq<OutputColumn>> {
    layouts.map_values(|l: LogicalOutputLayout| l.columns@)
}

fn input_columns(layouts: &[LogicalOutputLayout], i: usize) -> (r: Vec<OutputColumn>)
    ensures
        r@ == input(layouts_of(layouts@), i as int),
{
    if i < layouts.len() {
        copy_columns(&layouts[i].columns)
    } else {
        Vec::new()
    }
}

impl LogicalOperator {
    /// The columns that this operator puts out over inputs with the given
    /// layouts.
    pub fn output_layout_from_children(&self, inputs: &[LogicalOutputLayout]) -> (r:
        LogicalOutputLayout)
        ensures
            r.columns@ == operator_columns(*self, layouts_of(inputs@)),
    {
        let columns: Vec<OutputColumn> = match self {
            LogicalOperator::DummyScan => Vec::new(),
            LogicalOperator::SubplanRef(reference) => copy_columns(&reference.columns),
            LogicalOperator::Get(get) => table_layout(get.table_index, &get.returned_types),
            LogicalOperator::ExpressionGet(get) => table_layout(get.table_index, &get.types),
            LogicalOperator::DelimGet(get) => table_layout(get.table_index, &get.chunk_types),
            LogicalOperator::TableFunctionGet(get) => table_layout(
                get.table_index,
                &get.returned_types,
            ),
            LogicalOperator::Projection(projection) => expression_layout(
                projection.table_index,
                &projection.expressions,
            ),
            LogicalOperator::ExternalProject(project) => {
                let mut r = input_columns(inputs, 0);
                extend_columns(
                    &mut r,
                    &expression_layout(project.table_index, &project.expressions),
                );
                r
            },
            LogicalOperator::ExternalTable(table) => table_layout(
                table.table_index,
                &table.returned_types,
            ),
            LogicalOperator::Window(window) => {
                let mut r = input_columns(inputs, 0);
                extend_columns(&mut r, &table_layout(window.window_index, &window.types));
                r
            },
            LogicalOperator::Filter(filter) => project_columns(
                &input_columns(inputs, 0),
                &filter.projection_map,
            ),
            LogicalOperator::Aggregate(aggregate) => {
                let mut r = expression_layout(aggregate.group_index, &aggregate.groups);
                extend_columns(
                    &mut r,
                    &expression_layout(aggregate.aggregate_index, &aggregate.aggregates),
                );
                let mut types: Vec<LogicalType> = Vec::new();
                let ghost all = Seq::new(
                    aggregate.grouping_functions as nat,
                    |i: int| LogicalType::BigInt,
                );
                let mut i: usize = 0;
                while i < aggregate.grouping_functions
                    invariant
                        i <= aggregate.grouping_functions,
                        all == Seq::new(
                            aggregate.grouping_functions as nat,
                            |i: int| LogicalType::BigInt,
                        ),
                        types@ =~= all.take(i as int),
                    decreases aggregate.grouping_functions - i,
                {
                    types.push(LogicalType::BigInt);
                    i = i + 1;
                }
                assert(types@ =~= all);
                extend_columns(&mut r, &table_layout(aggregate.groupings_index, &types));
                r
            },
            LogicalOperator::Join(Join::Comparison(join)) => join_layout(
                join.join_type,
                join.mark_index,
                project_columns(&input_columns(inputs, 0), &join.left_projection_map),
                project_columns(&input_columns(inputs, 1), &join.right_projection_map),
            ),
            LogicalOperator::Join(Join::Any(join)) => join_layout(
                join.join_type,
                join.mark_index,
                project_columns(&input_columns(inputs, 0), &join.left_projection_map),
                project_columns(&input_columns(inputs, 1), &join.right_projection_map),
            ),
            LogicalOperator::Join(Join::Cross(_)) => {
                let mut r = input_columns(inputs, 0);
                extend_columns(&mut r, &input_columns(inputs, 1));
                r
            },
            LogicalOperator::DependentJoin(_) => {
                let mut r = input_columns(inputs, 0);
                extend_columns(&mut r, &input_columns(inputs, 1));
                r
            },
            LogicalOperator::SetOperation(set) => table_layout(set.table_index, &set.types),
            LogicalOperator::MaterializedCTE(_) => input_columns(inputs, 1),
            LogicalOperator::RecursiveCTE(cte) => table_layout(cte.cte_index, &cte.column_types),
            LogicalOperator::CTERef(reference) => table_layout(
                reference.table_index,
                &reference.column_types,
            ),
            LogicalOperator::SearchScan(scan) => expression_layout(
                scan.table_index,
                &scan.projections,
            ),
            LogicalOperator::FullTextFilterScan(scan) => project_columns(
                &table_layout(scan.get.table_index, &scan.get.returned_types),
                &scan.projection_map,
            ),
            LogicalOperator::GraphMatch => Vec::new(),
            LogicalOperator::GraphScan(scan) => table_layout(scan.table_index, &scan.types),
            LogicalOperator::GraphExpand(expand) => {
                let mut r = input_columns(inputs, 0);
                extend_columns(&mut r, &table_layout(expand.table_index, &expand.types));
                r
            },
            LogicalOperator::Statement(_) => Vec::new(),
            _ => input_columns(inputs, 0),
        };
        LogicalOutputLayout { columns }
    }
}

impl LogicalPlan {
    /// The columns that this plan puts out.
    pub fn output_layout(&self) -> (r: LogicalOutputLayout)
        ensures
            r.columns@ == plan_columns(*self),
        decreases self,
    {
        let mut layouts: Vec<LogicalOutputLayout> = Vec::new();
        let mut i: usize = 0;
        while i < self.children.len()
            invariant
                i <= self.children@.len(),
                layouts@.len() == i,
                forall|k: int|
                    0 <= k < i ==> (#[trigger] layouts@[k]).columns@ == plan_columns(
                        self.children@[k],
                    ),
            decreases self.children@.len() - i,
        {
            layouts.push(self.children[i].output_layout());
            i = i + 1;
        }
        let ghost inputs = Seq::new(
            self.children@.len(),
            |i: int|
                if 0 <= i < self.children@.len() {
                    plan_columns(self.children@[i])
                } else {
                    arbitrary()
                },
        );
        assert(layouts_of(layouts@) =~= inputs);
        self.operator.output_layout_from_children(layouts.as_slice())
    }

    pub fn get_column_bindings(&self) -> (r: Vec<ColumnBinding>)
        ensures
            r@ == bindings_of(plan_columns(*self)),
    {
        self.output_layout().bindings()
    }

    pub fn types(&self) -> (r: Vec<LogicalType>)
        ensures
            r@ == types_of(plan_columns(*self)),
    {
        self.output_layout().types()
    }
}

/// Picking positions that all exist gives one item for each, in the order of the
/// positions.
pub proof fn picked_items_follow_the_positions<T>(items: Seq<T>, positions: Seq<usize>)
    requires
        forall|i: int| 0 <= i < positions.len() ==> #[trigger] positions[i] < items.len(),
    ensures
        picked(items, positions).len() == positions.len(),
        forall|i: int|
            0 <= i < positions.len() ==> #[trigger] picked(items, positions)[i]
                == items[positions[i] as int],
    decreases positions.len(),
{
    if positions.len() > 0 {
        let before = positions.drop_last();
        assert forall|i: int| 0 <= i < before.len() implies #[trigger] before[i] < items.len() by {
            assert(positions[i] < items.len());
        }
        picked_items_follow_the_positions(items, before);
        assert(positions[positions.len() - 1] < items.len());
        assert forall|i: int| 0 <= i < positions.len() implies #[trigger] picked(
            items,
            positions,
        )[i] == items[positions[i] as int] by {
            if i < before.len() {
                assert(picked(items, before)[i] == items[before[i] as int]);
            }
        }
    }
}

/// A join that only filters one input puts out that input's columns. One that marks
/// rows adds a single truth value. All others put out both inputs' columns, left
/// before right.
pub proof fn join_columns_come_from_its_inputs(
    mark_index: usize,
    left: Seq<OutputColumn>,
    right: Seq<OutputColumn>,
)
    ensures
        join_columns(JoinType::Semi, mark_index, left, right) == left,
        join_columns(JoinType::Anti, mark_index, left, right) == left,
        join_columns(JoinType::RightSemi, mark_index, left, right) == right,
        join_columns(JoinType::RightAnti, mark_index, left, right) == right,
        ({
            let marked = join_columns(JoinType::Mark, mark_index, left, right);
            &&& marked.len() == left.len() + 1
            &&& marked.take(left.len() as int) == left
            &&& marked.last().logical_type is Boolean
            &&& marked.last().binding.table_index == mark_index
        }),
        forall|join_type: JoinType|
            join_type is Inner || join_type is Left || join_type is Right || join_type is Outer
                || join_type is Single ==> {
                let both = #[trigger] join_columns(join_type, mark_index, left, right);
                &&& both.len() == left.len() + right.len()
                &&& both.take(left.len() as int) == left
                &&& both.skip(left.len() as int) == right
            },
{
    let marked = join_columns(JoinType::Mark, mark_index, left, right);
    assert(marked.take(left.len() as int) =~= left);
    assert((left + right).take(left.len() as int) =~= left);
    assert((left + right).skip(left.len() as int) =~= right);
}

/// An operator that only orders, limits or deduplicates rows puts out the columns
/// of its input, and so does a filter that projects nothing away. The owner of a
/// definition puts out its reader's.
pub proof fn row_operators_keep_columns(plan: LogicalPlan)
    requires
        plan.children@.len() > 0,
    ensures
        plan.operator is Limit || plan.operator is TopN || plan.operator is Order
            || plan.operator is Distinct ==> plan_columns(plan) == plan_columns(plan.children@[0]),
        plan.operator matches LogicalOperator::Filter(filter) ==> (filter.projection_map is All
            ==> plan_columns(plan) == plan_columns(plan.children@[0])),
        plan.operator is MaterializedCTE && plan.children@.len() == 2 ==> plan_columns(plan)
            == plan_columns(plan.children@[1]),
{
    lemma_plan_columns(plan);
}

/// The columns of a relation carry its index, are numbered from zero and have the
/// relation's types.
pub proof fn table_columns_are_numbered(table_index: usize, types: Seq<LogicalType>, i: int)
    requires
        0 <= i < types.len() <= usize::MAX,
    ensures
        table_columns(table_index, types).len() == types.len(),
        table_columns(table_index, types)[i].binding.table_index == table_index,
        table_columns(table_index, types)[i].binding.column_index == i,
        table_columns(table_index, types)[i].logical_type == types[i],
{
}

/// An aggregation puts out its groups, its aggregates and its grouping functions,
/// in that order.
pub proof fn aggregate_columns_start_with_the_groups(
    aggregate: Aggregate,
    inputs: Seq<Seq<OutputColumn>>,
)
    ensures
        ({
            let columns = operator_columns(LogicalOperator::Aggregate(aggregate), inputs);
            let groups = aggregate.groups@.len() as int;
            let aggregates = aggregate.aggregates@.len() as int;
            &&& columns.len() == groups + aggregates + aggregate.grouping_functions
            &&& forall|i: int|
                0 <= i < groups ==> (#[trigger] columns[i]).logical_type == result_type(
                    aggregate.groups@[i]@,
                ) && columns[i].binding.table_index == aggregate.group_index
            &&& forall|i: int|
                groups <= i < groups + aggregates ==> (#[trigger] columns[i]).logical_type
                    == result_type(aggregate.aggregates@[i - groups]@)
                    && columns[i].binding.table_index == aggregate.aggregate_index
        }),
{
}

/// A read of a definition, a recursive definition and a set operation put out one column
/// per type that they list, under their own index.
pub proof fn listed_types_are_columns(
    operator: LogicalOperator,
    inputs: Seq<Seq<OutputColumn>>,
    i: int,
)
    ensures
        operator matches LogicalOperator::CTERef(reference) ==> {
            &&& operator_columns(operator, inputs).len() == reference.column_types@.len()
            &&& 0 <= i < reference.column_types@.len() ==> is_numbered(
                operator_columns(operator, inputs)[i],
                reference.table_index,
                i,
                reference.column_types@[i],
            )
        },
        operator matches LogicalOperator::RecursiveCTE(cte) ==> {
            &&& operator_columns(operator, inputs).len() == cte.column_types@.len()
            &&& 0 <= i < cte.column_types@.len() ==> is_numbered(
                operator_columns(operator, inputs)[i],
                cte.cte_index,
                i,
                cte.column_types@[i],
            )
        },
        operator matches LogicalOperator::SetOperation(set) ==> {
            &&& operator_columns(operator, inputs).len() == set.types@.len()
            &&& 0 <= i < set.types@.len() ==> is_numbered(
                operator_columns(operator, inputs)[i],
                set.table_index,
                i,
                set.types@[i],
            )
        },
{
}

/// Whether a column is the one at a position of a relation, with the given type.
pub open spec fn is_numbered(
    column: OutputColumn,
    table_index: usize,
    i: int,
    logical_type: LogicalType,
) -> bool {
    &&& column.binding.table_index == table_index
    &&& i <= usize::MAX ==> column.binding.column_index == i
    &&& column.logical_type == logical_type
}

} // verus!
