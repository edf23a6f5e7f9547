//! Restricting a shared definition to what its readers join it with.

use std::sync::Arc;
use vstd::prelude::*;

use crate::cte::demand_pushdown::{
    copy_join_demand, demand_sites, is_bounded_root, is_constraint, is_demand_of, sites_of,
    JoinedDemand,
};
use crate::cte::predicate_domain::{mention_only, only_mention};
use crate::expression::analysis::{
    any_mentions, extract_all_column_bindings, reorder_fence, result_type, views,
};
use crate::expression::meaning::reads_columns;
use crate::expression::{ColumnRefExpression, Expression, ExpressionView};
use crate::layout::{bindings_of, child_columns, lemma_plan_columns, operator_columns, plan_columns};
use crate::operator::{
    Aggregate, ComparisonJoin, Join, JoinCondition, LogicalOperator, OutputColumn, Projection,
    ProjectionMap, SetOperation,
};
use crate::plan::{is_copy, is_part, referents, reversed, LogicalPlan, PlanCopier};
use crate::types::{
    copy_types, CTEMaterialize, ColumnBinding, JoinBuildSideConstraint, JoinComparisonType,
    JoinType, LogicalType, SetOpType,
};

verus! {

/// Source of relation indices that nothing else uses.
#[derive(Clone, Copy, Debug, PartialEq, Eq, Structural)]
pub struct TableIndexes {
    pub next: usize,
}

impl TableIndexes {
    pub fn generate(&mut self) -> (r: usize)
        requires
            old(self).next < usize::MAX,
        ensures
            r == old(self).next,
            final(self).next == old(self).next + 1,
    {
        let r: usize = self.next;
        self.next = self.next + 1;
        r
    }
}

/// Whether all demands ask for the same columns with the same types.
pub open spec fn agree(demands: Seq<JoinedDemand>) -> bool {
    forall|i: int|
        0 <= i < demands.len() ==> (#[trigger] demands[i]).key_ordinals@ == demands[0].key_ordinals@
            && demands[i].key_types@ == demands[0].key_types@
}

/// Whether a plan computes the keys of one demand.
pub open spec fn is_key_branch(plan: LogicalPlan, table_index: int, demand: JoinedDemand) -> bool {
    &&& plan.stats.is_unknown()
    &&& plan.operator matches LogicalOperator::Projection(projection) && projection.table_index
        == table_index && projection.expressions == demand.expressions
    &&& plan.children@ == seq![demand.plan]
}

/// Whether a plan is the union of the keys of the first `n` demands. Indices
/// count up from the first one.
pub open spec fn is_demand_union(
    plan: LogicalPlan,
    demands: Seq<JoinedDemand>,
    first: int,
    n: nat,
) -> bool
    decreases n,
{
    if n <= 1 {
        n == 1 && is_key_branch(plan, first, demands[0])
    } else {
        &&& plan.stats.is_unknown()
        &&& plan.operator matches LogicalOperator::SetOperation(set) && set.table_index == first + 2
            * (n - 1) && set.setop_type is Union && set.setop_all && set.types@
            == demands[0].key_types@
        &&& plan.children@.len() == 2
        &&& is_demand_union(plan.children@[0], demands, first, (n - 1) as nat)
        &&& is_key_branch(plan.children@[1], first + 2 * n - 3, demands[n - 1])
    }
}

fn same_indices(a: &Vec<usize>, b: &Vec<usize>) -> (r: bool)
    ensures
        r == (a@ == b@),
{
    if a.len() != b.len() {
        return false;
    }
    let mut i: usize = 0;
    while i < a.len()
        invariant
            i <= a@.len(),
            a@.len() == b@.len(),
            forall|k: int| 0 <= k < i ==> #[trigger] a@[k] == b@[k],
        decreases a@.len() - i,
    {
        if a[i] != b[i] {
            return false;
        }
        i = i + 1;
    }
    assert(a@ =~= b@);
    true
}

fn same_types(a: &Vec<LogicalType>, b: &Vec<LogicalType>) -> (r: bool)
    ensures
        r == (a@ == b@),
{
    if a.len() != b.len() {
        return false;
    }
    let mut i: usize = 0;
    while i < a.len()
        invariant
            i <= a@.len(),
            a@.len() == b@.len(),
            forall|k: int| 0 <= k < i ==> #[trigger] a@[k] == b@[k],
        decreases a@.len() - i,
    {
        if a[i] != b[i] {
            return false;
        }
        i = i + 1;
    }
    assert(a@ =~= b@);
    true
}

fn copy_indices(indices: &Vec<usize>) -> (r: Vec<usize>)
    ensures
        r@ == indices@,
{
    let mut r: Vec<usize> = Vec::new();
    let mut i: usize = 0;
    while i < indices.len()
        invariant
            i <= indices@.len(),
            r@ == indices@.take(i as int),
        decreases indices@.len() - i,
    {
        r.push(indices[i]);
        assert(r@ =~= indices@.take(i + 1));
        i = i + 1;
    }
    assert(r@ =~= indices@);
    r
}

fn key_branch(demand: JoinedDemand, table_index: usize) -> (r: LogicalPlan)
    ensures
        is_key_branch(r, table_index as int, demand),
{
    let ghost whole = demand;
    let JoinedDemand { key_ordinals: _, key_types: _, plan, expressions } = demand;
    let mut children: Vec<LogicalPlan> = Vec::new();
    children.push(plan);
    assert(children@ =~= seq![whole.plan]);
    LogicalPlan::synthetic(
        LogicalOperator::Projection(Projection { table_index, expressions }),
        children,
    )
}

/// The keys of all demands as one relation, and the columns of the definition
/// that they are for; none where the demands do not agree on these.
pub fn build_demand_relation(demands: Vec<JoinedDemand>, indexes: &mut TableIndexes) -> (r: Option<
    (Vec<usize>, LogicalPlan),
>)
    requires
        old(indexes).next + 2 * demands@.len() <= usize::MAX,
    ensures
        match r {
            Some((ordinals, relation)) => {
                &&& demands@.len() > 0
                &&& agree(demands@)
                &&& ordinals@ == demands@[0].key_ordinals@
                &&& is_demand_union(
                    relation,
                    demands@,
                    old(indexes).next as int,
                    demands@.len(),
                )
                &&& final(indexes).next == old(indexes).next + 2 * demands@.len() - 1
            },
            None => (demands@.len() == 0 || !agree(demands@)) && *final(indexes) == *old(indexes),
        },
{
    let ghost all = demands@;
    let ghost first = indexes.next as int;
    if demands.len() == 0 {
        return None;
    }
    let ordinals = copy_indices(&demands[0].key_ordinals);
    let types = copy_types(&demands[0].key_types);
    let mut i: usize = 0;
    while i < demands.len()
        invariant
            i <= demands@.len(),
            demands@ == all,
            all.len() > 0,
            ordinals@ == all[0].key_ordinals@,
            types@ == all[0].key_types@,
            forall|k: int|
                0 <= k < i ==> (#[trigger] all[k]).key_ordinals@ == all[0].key_ordinals@
                    && all[k].key_types@ == all[0].key_types@,
        decreases demands@.len() - i,
    {
        if !same_indices(&demands[i].key_ordinals, &ordinals) || !same_types(
            &demands[i].key_types,
            &types,
        ) {
            assert(!agree(all)) by {
                assert(!(all[i as int].key_ordinals@ == all[0].key_ordinals@
                    && all[i as int].key_types@ == all[0].key_types@));
            }
            return None;
        }
        i = i + 1;
    }
    let mut rest = reversed(demands);
    let mut relation: Option<LogicalPlan> = None;
    while rest.len() > 0
        invariant
            rest@.len() <= all.len(),
            all.len() > 0,
            rest@ == all.reverse().take(rest@.len() as int),
            first + 2 * all.len() <= usize::MAX,
            types@ == all[0].key_types@,
            relation is None <==> rest@.len() == all.len(),
            rest@.len() == all.len() ==> indexes.next == first,
            rest@.len() < all.len() ==> indexes.next == first + 2 * (all.len() - rest@.len()) - 1,
            relation matches Some(plan) ==> is_demand_union(
                plan,
                all,
                first,
                (all.len() - rest@.len()) as nat,
            ),
        decreases rest@.len(),
    {
        let ghost n = rest@.len();
        let ghost taken = (all.len() - n + 1) as nat;
        if let Some(demand) = rest.pop() {
            proof {
                assert(demand == all[all.len() - n]);
                assert(rest@ =~= all.reverse().take(n - 1));
            }
            let projection_index: usize = indexes.generate();
            let branch = key_branch(demand, projection_index);
            relation = match relation {
                None => Some(branch),
                Some(left) => {
                    let set_index: usize = indexes.generate();
                    let mut children: Vec<LogicalPlan> = Vec::new();
                    children.push(left);
                    children.push(branch);
                    let plan = LogicalPlan::synthetic(
                        LogicalOperator::SetOperation(
                            SetOperation {
                                table_index: set_index,
                                setop_type: SetOpType::Union,
                                setop_all: true,
                                types: copy_types(&types),
                            },
                        ),
                        children,
                    );
                    assert(is_demand_union(plan, all, first, taken));
                    Some(plan)
                },
            };
        }
    }
    match relation {
        Some(plan) => Some((ordinals, plan)),
        None => None,
    }
}

/// A column of a definition with its type.
pub type KeyColumn = (ColumnBinding, LogicalType);

/// The columns at the given positions; none where one is missing.
pub open spec fn key_columns(columns: Seq<OutputColumn>, ordinals: Seq<usize>, n: nat) -> Option<
    Seq<KeyColumn>,
>
    decreases n,
{
    if n == 0 {
        Some(Seq::empty())
    } else {
        match key_columns(columns, ordinals, (n - 1) as nat) {
            Some(before) => if ordinals[n - 1] < columns.len() {
                let column = columns[ordinals[n - 1] as int];
                Some(before.push((column.binding, column.logical_type)))
            } else {
                None
            },
            None => None,
        }
    }
}

/// The columns below a projection that the first `n` keys pass on.
pub open spec fn projected_keys(projection: Projection, keys: Seq<KeyColumn>, n: nat) -> Option<
    Seq<KeyColumn>,
>
    decreases n,
{
    if n == 0 {
        Some(Seq::empty())
    } else {
        let (binding, key_type) = keys[n - 1];
        match projected_keys(projection, keys, (n - 1) as nat) {
            None => None,
            Some(before) => if binding.table_index != projection.table_index || binding.column_index
                >= projection.expressions@.len() {
                None
            } else {
                match projection.expressions@[binding.column_index as int] {
                    Expression::ColumnRef(c) => if c.depth == 0 && c.return_type == key_type {
                        Some(before.push((c.binding, key_type)))
                    } else {
                        None
                    },
                    _ => None,
                }
            },
        }
    }
}

/// The group expressions behind the first `n` keys.
pub open spec fn grouped_keys(aggregate: Aggregate, keys: Seq<KeyColumn>, n: nat) -> Option<
    Seq<Expression>,
>
    decreases n,
{
    if n == 0 {
        Some(Seq::empty())
    } else {
        let (binding, key_type) = keys[n - 1];
        match grouped_keys(aggregate, keys, (n - 1) as nat) {
            None => None,
            Some(before) => if binding.table_index != aggregate.group_index || binding.column_index
                >= aggregate.groups@.len() {
                None
            } else {
                let group = aggregate.groups@[binding.column_index as int];
                if result_type(group@) == key_type && !reorder_fence(group@) {
                    Some(before.push(group))
                } else {
                    None
                }
            },
        }
    }
}

/// Whether an aggregate has plain groups only.
pub open spec fn groups_plainly(aggregate: Aggregate) -> bool {
    aggregate.grouping_sets@.len() == 0 && aggregate.grouping_functions == 0
        && aggregate.groups@.len() > 0
}

pub open spec fn mention_something(expressions: Seq<ExpressionView>) -> bool {
    exists|b: ColumnBinding| #[trigger] any_mentions(expressions, expressions.len(), b)
}

/// Whether a plan has all columns that the expressions mention.
pub open spec fn owns(plan: LogicalPlan, keys: Seq<Expression>) -> bool {
    only_mention(views(keys), bindings_of(plan_columns(plan)))
}

/// The only side of an inner join that owns the keys: its position.
pub open spec fn owning_side(plan: LogicalPlan, keys: Seq<Expression>) -> Option<int> {
    match plan.operator {
        LogicalOperator::Join(Join::Comparison(join)) => if join.join_type is Inner
            && plan.children@.len() == 2 && owns(plan.children@[0], keys) != owns(
            plan.children@[1],
            keys,
        ) {
            if owns(plan.children@[0], keys) {
                Some(0)
            } else {
                Some(1)
            }
        } else {
            None
        },
        _ => None,
    }
}

/// Whether group expressions can be compared with a demand.
pub open spec fn owner_accepts(keys: Seq<Expression>, columns: nat) -> bool {
    mention_something(views(keys)) && keys.len() == columns
}

/// Whether a definition can be restricted to given keys: projections pass them
/// on, and an aggregate groups by them.
pub open spec fn accepts(plan: LogicalPlan, keys: Seq<KeyColumn>, columns: nat) -> bool
    decreases plan,
{
    plan.children@.len() == 1 && match plan.operator {
        LogicalOperator::Projection(projection) => match projected_keys(
            projection,
            keys,
            keys.len(),
        ) {
            Some(inner) => accepts(plan.children@[0], inner, columns),
            None => false,
        },
        LogicalOperator::Aggregate(aggregate) => groups_plainly(aggregate) && match grouped_keys(
            aggregate,
            keys,
            keys.len(),
        ) {
            Some(groups) => owner_accepts(groups, columns),
            None => false,
        },
        _ => false,
    }
}

/// Whether a condition equates a key with a demanded column.
pub open spec fn is_key_condition(
    condition: JoinCondition,
    key: Expression,
    column: OutputColumn,
) -> bool {
    &&& condition.left == key
    &&& condition.right == Expression::ColumnRef(Arc::new(
        ColumnRefExpression { binding: column.binding, depth: 0, return_type: column.logical_type },
    ))
    &&& condition.comparison is Equal
}

/// Whether a plan keeps of `before` what the demand has.
pub open spec fn is_semi_join(
    plan: LogicalPlan,
    before: LogicalPlan,
    keys: Seq<Expression>,
    demand: LogicalPlan,
) -> bool {
    &&& plan.stats.is_unknown()
    &&& plan.children@ == seq![before, demand]
    &&& plan.operator matches LogicalOperator::Join(Join::Comparison(join)) && {
        &&& join.join_type is Semi
        &&& join.conditions@.len() == keys.len()
        &&& forall|i: int|
            0 <= i < keys.len() ==> is_key_condition(
                #[trigger] join.conditions@[i],
                keys[i],
                plan_columns(demand)[i],
            )
        &&& join.left_projection_map is All
        &&& join.right_projection_map is All
        &&& join.duplicate_eliminated_columns@.len() == 0
        &&& join.build_side_constraint is Free
    }
}

/// `after` is `before` with the narrowest part that owns the keys restricted.
pub open spec fn is_owner_restricted(
    before: LogicalPlan,
    keys: Seq<Expression>,
    demand: LogicalPlan,
    after: LogicalPlan,
) -> bool
    decreases before,
{
    match owning_side(before, keys) {
        Some(side) => {
            &&& after.stats.is_unknown()
            &&& after.operator == before.operator
            &&& after.children@.len() == 2
            &&& after.children@[1 - side] == before.children@[1 - side]
            &&& before.children@.len() == 2 && 0 <= side < 2 && is_owner_restricted(
                before.children@[side],
                keys,
                demand,
                after.children@[side],
            )
        },
        None => is_semi_join(after, before, keys, demand),
    }
}

/// `after` is the definition `before` restricted to the demanded keys. Old
/// facts about the changed plans are gone.
pub open spec fn is_restricted(
    before: LogicalPlan,
    keys: Seq<KeyColumn>,
    demand: LogicalPlan,
    after: LogicalPlan,
) -> bool
    decreases before,
{
    &&& after.stats.is_unknown()
    &&& after.operator == before.operator
    &&& after.children@.len() == 1
    &&& before.children@.len() == 1
    &&& match before.operator {
        LogicalOperator::Projection(projection) => is_restricted(
            before.children@[0],
            projected_keys(projection, keys, keys.len())->0,
            demand,
            after.children@[0],
        ),
        LogicalOperator::Aggregate(aggregate) => is_owner_restricted(
            before.children@[0],
            grouped_keys(aggregate, keys, keys.len())->0,
            demand,
            after.children@[0],
        ),
        _ => false,
    }
}

fn find_projected_keys(projection: &Projection, keys: &Vec<KeyColumn>) -> (r: Option<
    Vec<KeyColumn>,
>)
    ensures
        match r {
            Some(inner) => projected_keys(*projection, keys@, keys@.len()) == Some(inner@),
            None => projected_keys(*projection, keys@, keys@.len()) is None,
        },
{
    let mut inner: Vec<KeyColumn> = Vec::new();
    assert(inner@ =~= Seq::empty());
    let mut i: usize = 0;
    while i < keys.len()
        invariant
            i <= keys@.len(),
            projected_keys(*projection, keys@, i as nat) == Some(inner@),
        decreases keys@.len() - i,
    {
        let (binding, key_type) = keys[i];
        let mut found: bool = false;
        if binding.table_index == projection.table_index && binding.column_index
            < projection.expressions.len() {
            if let Expression::ColumnRef(c) = &projection.expressions[binding.column_index] {
                if c.depth == 0 && c.return_type == key_type {
                    inner.push((c.binding, key_type));
                    found = true;
                }
            }
        }
        if !found {
            proof {
                lemma_projected_stays_none(*projection, keys@, (i + 1) as nat, keys@.len());
            }
            return None;
        }
        i = i + 1;
    }
    Some(inner)
}

proof fn lemma_projected_stays_none(projection: Projection, keys: Seq<KeyColumn>, n: nat, m: nat)
    requires
        n <= m,
        projected_keys(projection, keys, n) is None,
    ensures
        projected_keys(projection, keys, m) is None,
    decreases m,
{
    if n < m {
        lemma_projected_stays_none(projection, keys, n, (m - 1) as nat);
    }
}

proof fn lemma_grouped_stays_none(aggregate: Aggregate, keys: Seq<KeyColumn>, n: nat, m: nat)
    requires
        n <= m,
        grouped_keys(aggregate, keys, n) is None,
    ensures
        grouped_keys(aggregate, keys, m) is None,
    decreases m,
{
    if n < m {
        lemma_grouped_stays_none(aggregate, keys, n, (m - 1) as nat);
    }
}

fn find_grouped_keys(aggregate: &Aggregate, keys: &Vec<KeyColumn>) -> (r: Option<Vec<Expression>>)
    ensures
        match r {
            Some(groups) => grouped_keys(*aggregate, keys@, keys@.len()) == Some(groups@),
            None => grouped_keys(*aggregate, keys@, keys@.len()) is None,
        },
{
    let mut groups: Vec<Expression> = Vec::new();
    assert(groups@ =~= Seq::empty());
    let mut i: usize = 0;
    while i < keys.len()
        invariant
            i <= keys@.len(),
            grouped_keys(*aggregate, keys@, i as nat) == Some(groups@),
        decreases keys@.len() - i,
    {
        let (binding, key_type) = keys[i];
        let mut found: bool = false;
        if binding.table_index == aggregate.group_index && binding.column_index
            < aggregate.groups.len() {
            let group = &aggregate.groups[binding.column_index];
            if group.return_type() == key_type && !group.is_reorder_fence() {
                groups.push(group.copy());
                found = true;
            }
        }
        if !found {
            proof {
                lemma_grouped_stays_none(*aggregate, keys@, (i + 1) as nat, keys@.len());
            }
            return None;
        }
        i = i + 1;
    }
    Some(groups)
}

fn mentions_columns(expressions: &Vec<Expression>) -> (r: bool)
    ensures
        r == mention_something(views(expressions@)),
{
    let mut mentioned: Vec<ColumnBinding> = Vec::new();
    extract_all_column_bindings(expressions, &mut mentioned);
    proof {
        let v = views(expressions@);
        assert(v.len() == expressions@.len());
        if mentioned@.len() > 0 {
            assert(mentioned@.contains(mentioned@[0]));
            assert(any_mentions(v, v.len(), mentioned@[0]));
        } else {
            assert forall|b: ColumnBinding| !#[trigger] any_mentions(v, v.len(), b) by {
                assert(!mentioned@.contains(b));
            }
        }
    }
    mentioned.len() > 0
}

/// Whether a definition can be restricted to given keys.
fn can_restrict(plan: &LogicalPlan, keys: &Vec<KeyColumn>, columns: usize) -> (r: bool)
    ensures
        r == accepts(*plan, keys@, columns as nat),
    decreases plan,
{
    if plan.children.len() != 1 {
        return false;
    }
    match &plan.operator {
        LogicalOperator::Projection(projection) => match find_projected_keys(projection, keys) {
            Some(inner) => can_restrict(&plan.children[0], &inner, columns),
            None => false,
        },
        LogicalOperator::Aggregate(aggregate) => {
            if aggregate.grouping_sets.len() != 0 || aggregate.grouping_functions != 0
                || aggregate.groups.len() == 0 {
                return false;
            }
            match find_grouped_keys(aggregate, keys) {
                Some(groups) => mentions_columns(&groups) && groups.len() == columns,
                None => false,
            }
        },
        _ => false,
    }
}

fn find_owning_side(plan: &LogicalPlan, keys: &Vec<Expression>) -> (r: Option<usize>)
    ensures
        match r {
            Some(side) => side < 2 && owning_side(*plan, keys@) == Some(side as int),
            None => owning_side(*plan, keys@) is None,
        },
{
    let LogicalOperator::Join(Join::Comparison(join)) = &plan.operator else {
        return None;
    };
    if join.join_type != JoinType::Inner || plan.children.len() != 2 {
        return None;
    }
    let left = mention_only(keys, &plan.children[0].get_column_bindings());
    let right = mention_only(keys, &plan.children[1].get_column_bindings());
    if left == right {
        None
    } else if left {
        Some(0)
    } else {
        Some(1)
    }
}

/// Restricts the narrowest part of a plan that owns the keys.
fn push_to_key_owner(plan: LogicalPlan, keys: &Vec<Expression>, demand: LogicalPlan) -> (r:
    LogicalPlan)
    requires
        keys@.len() == plan_columns(demand).len(),
    ensures
        is_owner_restricted(plan, keys@, demand, r),
    decreases plan,
{
    if let Some(side) = find_owning_side(&plan, keys) {
        let LogicalPlan { stats: _, operator, children } = plan;
        let mut children = children;
        let right = children.pop();
        let left = children.pop();
        let mut inputs: Vec<LogicalPlan> = Vec::new();
        if let (Some(left), Some(right)) = (left, right) {
            if side == 0 {
                inputs.push(push_to_key_owner(left, keys, demand));
                inputs.push(right);
            } else {
                inputs.push(left);
                inputs.push(push_to_key_owner(right, keys, demand));
            }
        }
        return LogicalPlan::synthetic(operator, inputs);
    }
    let layout = demand.output_layout();
    let mut conditions: Vec<JoinCondition> = Vec::new();
    let mut i: usize = 0;
    while i < keys.len()
        invariant
            i <= keys@.len(),
            keys@.len() == layout.columns@.len(),
            conditions@.len() == i,
            forall|k: int|
                0 <= k < i ==> is_key_condition(
                    #[trigger] conditions@[k],
                    keys@[k],
                    layout.columns@[k],
                ),
        decreases keys@.len() - i,
    {
        let column = layout.columns[i];
        conditions.push(
            JoinCondition {
                left: keys[i].copy(),
                right: Expression::ColumnRef(Arc::new(
                    ColumnRefExpression {
                        binding: column.binding,
                        depth: 0,
                        return_type: column.logical_type,
                    },
                )),
                comparison: JoinComparisonType::Equal,
            },
        );
        i = i + 1;
    }
    let ghost before = plan;
    let ghost wanted = demand;
    let mut children: Vec<LogicalPlan> = Vec::new();
    children.push(plan);
    children.push(demand);
    assert(children@ =~= seq![before, wanted]);
    LogicalPlan::synthetic(
        LogicalOperator::Join(
            Join::Comparison(
                ComparisonJoin {
                    join_type: JoinType::Semi,
                    conditions,
                    left_projection_map: ProjectionMap::All,
                    right_projection_map: ProjectionMap::All,
                    duplicate_eliminated_columns: Vec::new(),
                    mark_index: 0,
                    build_side_constraint: JoinBuildSideConstraint::Free,
                },
            ),
        ),
        children,
    )
}

fn push_group_demand_inner(plan: LogicalPlan, keys: &Vec<KeyColumn>, demand: LogicalPlan) -> (r:
    LogicalPlan)
    requires
        accepts(plan, keys@, plan_columns(demand).len()),
    ensures
        is_restricted(plan, keys@, demand, r),
    decreases plan,
{
    let LogicalPlan { stats: _, operator, children } = plan;
    let mut children = children;
    let child = children.pop();
    let mut inputs: Vec<LogicalPlan> = Vec::new();
    if let Some(child) = child {
        match &operator {
            LogicalOperator::Projection(projection) => {
                if let Some(inner) = find_projected_keys(projection, keys) {
                    inputs.push(push_group_demand_inner(child, &inner, demand));
                }
            },
            LogicalOperator::Aggregate(aggregate) => {
                if let Some(groups) = find_grouped_keys(aggregate, keys) {
                    inputs.push(push_to_key_owner(child, &groups, demand));
                }
            },
            _ => {},
        }
    }
    LogicalPlan::synthetic(operator, inputs)
}

fn find_key_columns(columns: &Vec<OutputColumn>, ordinals: &Vec<usize>) -> (r: Option<
    Vec<KeyColumn>,
>)
    ensures
        match r {
            Some(keys) => key_columns(columns@, ordinals@, ordinals@.len()) == Some(keys@),
            None => key_columns(columns@, ordinals@, ordinals@.len()) is None,
        },
{
    let mut keys: Vec<KeyColumn> = Vec::new();
    assert(keys@ =~= Seq::empty());
    let mut i: usize = 0;
    while i < ordinals.len()
        invariant
            i <= ordinals@.len(),
            key_columns(columns@, ordinals@, i as nat) == Some(keys@),
        decreases ordinals@.len() - i,
    {
        if ordinals[i] >= columns.len() {
            proof {
                lemma_key_columns_stay_none(columns@, ordinals@, (i + 1) as nat, ordinals@.len());
            }
            return None;
        }
        let column = columns[ordinals[i]];
        keys.push((column.binding, column.logical_type));
        i = i + 1;
    }
    Some(keys)
}

proof fn lemma_key_columns_stay_none(
    columns: Seq<OutputColumn>,
    ordinals: Seq<usize>,
    n: nat,
    m: nat,
)
    requires
        n <= m,
        key_columns(columns, ordinals, n) is None,
    ensures
        key_columns(columns, ordinals, m) is None,
    decreases m,
{
    if n < m {
        lemma_key_columns_stay_none(columns, ordinals, n, (m - 1) as nat);
    }
}

/// Whether a definition can be restricted to a demand for some of its columns,
/// given how many columns the demand has.
pub open spec fn is_restrictable(producer: LogicalPlan, ordinals: Seq<usize>, columns: nat) -> bool {
    match key_columns(plan_columns(producer), ordinals, ordinals.len()) {
        Some(keys) => accepts(producer, keys, columns),
        None => false,
    }
}

/// Restricts a definition to a demand for some of its columns, and tells
/// whether that was possible.
pub fn push_group_demand(
    producer: LogicalPlan,
    key_ordinals: &Vec<usize>,
    demand: LogicalPlan,
) -> (r: (LogicalPlan, bool))
    ensures
        r.1 == is_restrictable(producer, key_ordinals@, plan_columns(demand).len()),
        r.1 ==> is_restricted(
            producer,
            key_columns(plan_columns(producer), key_ordinals@, key_ordinals@.len())->0,
            demand,
            r.0,
        ),
        !r.1 ==> r.0 == producer,
{
    let columns = producer.output_layout().columns;
    let Some(keys) = find_key_columns(&columns, key_ordinals) else {
        return (producer, false);
    };
    let width: usize = demand.output_layout().columns.len();
    if !can_restrict(&producer, &keys, width) {
        return (producer, false);
    }
    (push_group_demand_inner(producer, &keys, demand), true)
}

/// Restricting the owner of keys leaves its columns as they are.
pub proof fn restricting_an_owner_keeps_columns(
    before: LogicalPlan,
    keys: Seq<Expression>,
    demand: LogicalPlan,
    after: LogicalPlan,
)
    requires
        is_owner_restricted(before, keys, demand, after),
    ensures
        plan_columns(after) == plan_columns(before),
    decreases before,
{
    let old_inputs = child_columns(before.children@);
    let new_inputs = child_columns(after.children@);
    assert(plan_columns(before) == operator_columns(before.operator, old_inputs)) by {
        lemma_plan_columns(before);
    }
    assert(plan_columns(after) == operator_columns(after.operator, new_inputs)) by {
        lemma_plan_columns(after);
    }
    match owning_side(before, keys) {
        Some(side) => {
            restricting_an_owner_keeps_columns(
                before.children@[side],
                keys,
                demand,
                after.children@[side],
            );
            assert(old_inputs =~= new_inputs);
        },
        None => {
            assert(after.children@[0] == before);
            assert(new_inputs[0] == plan_columns(before));
        },
    }
}

/// A restricted definition has the columns that it had before.
pub proof fn restricting_keeps_columns(
    before: LogicalPlan,
    keys: Seq<KeyColumn>,
    demand: LogicalPlan,
    after: LogicalPlan,
)
    requires
        is_restricted(before, keys, demand, after),
    ensures
        plan_columns(after) == plan_columns(before),
{
    lemma_plan_columns(before);
    lemma_plan_columns(after);
}

/// `after` is `before` with the definition at its root restricted to the
/// demands, where it can be.
pub open spec fn is_root_restricted(
    before: LogicalPlan,
    demands: Seq<JoinedDemand>,
    relation: LogicalPlan,
    after: LogicalPlan,
) -> bool {
    &&& after.stats == before.stats
    &&& after.operator == crate::cte::filter_pusher::materialized(before.operator)
    &&& after.children@.len() == 2
    &&& after.children@[1] == before.children@[1]
    &&& is_restricted(
        before.children@[0],
        key_columns(
            plan_columns(before.children@[0]),
            demands[0].key_ordinals@,
            demands[0].key_ordinals@.len(),
        )->0,
        relation,
        after.children@[0],
    )
}

/// How many columns the union of all demands has.
pub open spec fn demand_width(demands: Seq<JoinedDemand>) -> nat {
    if demands.len() == 1 {
        demands[0].expressions@.len()
    } else {
        demands[0].key_types@.len()
    }
}

proof fn lemma_demand_width(
    relation: LogicalPlan,
    demands: Seq<JoinedDemand>,
    first: int,
    n: nat,
)
    requires
        n == demands.len(),
        is_demand_union(relation, demands, first, n),
    ensures
        plan_columns(relation).len() == demand_width(demands),
{
    lemma_plan_columns(relation);
}

/// Whether the definition at a root is shared by default.
pub open spec fn is_default_root(plan: LogicalPlan) -> bool {
    plan.operator matches LogicalOperator::MaterializedCTE(cte) && cte.materialized is Default
        && plan.children@.len() == 2
}

/// Restricts the definition at the root of a plan to the demands of all its
/// readers. The result is kept explicitly, so that it is not restricted again.
pub fn push_current_cte(
    plan: LogicalPlan,
    demands: Vec<JoinedDemand>,
    indexes: &mut TableIndexes,
) -> (r: (LogicalPlan, bool))
    requires
        old(indexes).next + 2 * demands@.len() <= usize::MAX,
    ensures
        r.1 == (is_default_root(plan) && demands@.len() > 0 && agree(demands@) && is_restrictable(
            plan.children@[0],
            demands@[0].key_ordinals@,
            demand_width(demands@),
        )),
        r.1 ==> exists|relation: LogicalPlan| #[trigger]
            is_demand_union(relation, demands@, old(indexes).next as int, demands@.len())
                && is_root_restricted(plan, demands@, relation, r.0),
        !r.1 ==> r.0.stats == plan.stats && r.0.operator == plan.operator && r.0.children@
            == plan.children@,
        final(indexes).next == if is_default_root(plan) && demands@.len() > 0 && agree(demands@) {
            old(indexes).next + 2 * demands@.len() - 1
        } else {
            old(indexes).next as int
        },
{
    let is_default = match &plan.operator {
        LogicalOperator::MaterializedCTE(cte) => match cte.materialized {
            CTEMaterialize::Default => true,
            _ => false,
        },
        _ => false,
    };
    if !is_default || plan.children.len() != 2 {
        return (plan, false);
    }
    let ghost all = demands@;
    let ghost indexes_before = indexes.next as int;
    let Some((ordinals, relation)) = build_demand_relation(demands, indexes) else {
        return (plan, false);
    };
    let ghost given = plan.children@;
    proof {
        lemma_demand_width(relation, all, indexes_before, all.len());
    }
    let LogicalPlan { stats, operator, children } = plan;
    let mut children = children;
    let reader = children.pop();
    let definition = children.pop();
    if let (Some(definition), Some(reader)) = (definition, reader) {
        let (restricted, changed) = push_group_demand(definition, &ordinals, relation);
        children.push(restricted);
        children.push(reader);
        if changed {
            let operator = match operator {
                LogicalOperator::MaterializedCTE(cte) => {
                    let mut cte = cte;
                    cte.materialized = CTEMaterialize::Materialized;
                    LogicalOperator::MaterializedCTE(cte)
                },
                other => other,
            };
            return (LogicalPlan { stats, operator, children }, true);
        }
        assert(children@ =~= given);
        return (LogicalPlan { stats, operator, children }, false);
    }
    assert(false);
    (LogicalPlan { stats, operator, children }, false)
}

/// Whether each demand is that of a copy of a join.
pub open spec fn are_demands_of(demands: Seq<JoinedDemand>, copies: Seq<LogicalPlan>) -> bool {
    &&& demands.len() == copies.len()
    &&& forall|i: int|
        0 <= i < demands.len() ==> is_demand_of(#[trigger] demands[i], copies[i])
}

/// Whether a copier of this kind gave the copies for the first joins.
pub open spec fn are_copies<C: PlanCopier>(
    joins: Seq<LogicalPlan>,
    copies: Seq<LogicalPlan>,
) -> bool {
    &&& copies.len() <= joins.len()
    &&& forall|i: int| 0 <= i < copies.len() ==> is_copy::<C>(joins[i], #[trigger] copies[i])
}

/// Whether every copy of the `n` joins bounds the definition.
pub open spec fn all_constrain(copies: Seq<LogicalPlan>, n: nat) -> bool {
    &&& copies.len() == n
    &&& forall|i: int| 0 <= i < copies.len() ==> is_constraint(#[trigger] copies[i])
}

/// Whether the last copy is the first that does not bound the definition, so
/// that no further join is copied.
pub open spec fn last_fails(copies: Seq<LogicalPlan>) -> bool {
    &&& copies.len() > 0
    &&& !is_constraint(copies.last())
    &&& forall|i: int| 0 <= i < copies.len() - 1 ==> is_constraint(#[trigger] copies[i])
}

/// Whether the demands of copies that all bound the definition decide if it is
/// restricted, by the union of exactly these demands, and how many indices are
/// taken.
pub open spec fn is_pushed_by(
    plan: LogicalPlan,
    copies: Seq<LogicalPlan>,
    first: usize,
    result: (LogicalPlan, bool),
    next: usize,
) -> bool {
    exists|demands: Seq<JoinedDemand>| #[trigger]
        are_demands_of(demands, copies) && result.1 == (is_default_root(plan) && agree(demands)
            && is_restrictable(
            plan.children@[0],
            demands[0].key_ordinals@,
            demand_width(demands),
        )) && (result.1 ==> exists|relation: LogicalPlan| #[trigger]
            is_demand_union(relation, demands, first as int, demands.len())
                && is_root_restricted(plan, demands, relation, result.0)) && next
            == if is_default_root(plan) && agree(demands) {
            first + 2 * demands.len() - 1
        } else {
            first as int
        }
}

/// Restricts definitions to what their readers join with.
pub struct CTEDemandPusher<C> {
    pub copier: C,
}

impl<C: PlanCopier> CTEDemandPusher<C> {
    pub fn new(copier: C) -> (r: CTEDemandPusher<C>)
        ensures
            r.copier == copier,
    {
        CTEDemandPusher { copier }
    }

    /// The demands of copies of all joins, as far as the copies bound the
    /// definition as the joins do.
    fn copy_demands(&mut self, sites: &Vec<&LogicalPlan>) -> (r: Option<Vec<JoinedDemand>>)
        ensures
            exists|copies: Seq<LogicalPlan>| #[trigger]
                are_copies::<C>(referents(sites@), copies) && match r {
                    Some(demands) => all_constrain(copies, sites@.len()) && are_demands_of(
                        demands@,
                        copies,
                    ),
                    None => last_fails(copies),
                },
    {
        let mut demands: Vec<JoinedDemand> = Vec::new();
        let ghost joins = referents(sites@);
        let ghost mut copies = Seq::<LogicalPlan>::empty();
        let mut i: usize = 0;
        while i < sites.len()
            invariant
                i <= sites@.len(),
                joins == referents(sites@),
                demands@.len() == i,
                are_copies::<C>(joins, copies),
                all_constrain(copies, i as nat),
                are_demands_of(demands@, copies),
            decreases sites@.len() - i,
        {
            let copy = self.copier.deep_copy_plan(sites[i]);
            let ghost before = copies;
            let ghost earlier = demands@;
            proof {
                assert(joins[i as int] == *sites@[i as int]);
                assert(is_copy::<C>(joins[i as int], copy));
                copies = copies.push(copy);
                assert forall|k: int| 0 <= k < copies.len() implies is_copy::<C>(
                    joins[k],
                    #[trigger] copies[k],
                ) by {
                    if k < before.len() {
                        assert(copies[k] == before[k]);
                    }
                }
                assert(are_copies::<C>(joins, copies));
            }
            match copy_join_demand(copy) {
                Some(demand) => {
                    demands.push(demand);
                    assert forall|k: int| 0 <= k < demands@.len() implies is_demand_of(
                        #[trigger] demands@[k],
                        copies[k],
                    ) by {
                        if k < earlier.len() {
                            assert(is_demand_of(earlier[k], before[k]));
                        }
                    }
                    assert forall|k: int| 0 <= k < copies.len() implies is_constraint(
                        #[trigger] copies[k],
                    ) by {
                        if k < before.len() {
                            assert(is_constraint(before[k]));
                        }
                    }
                },
                None => {
                    assert forall|k: int| 0 <= k < copies.len() - 1 implies is_constraint(
                        #[trigger] copies[k],
                    ) by {
                        assert(is_constraint(before[k]));
                    }
                    assert(last_fails(copies));
                    return None;
                },
            }
            i = i + 1;
        }
        Some(demands)
    }

    /// Restricts the definition at the root of a plan, if it is shared by
    /// default and read only through joins that bound it, and tells whether
    /// that was done.
    pub fn optimize_default_root_with_change(
        &mut self,
        plan: LogicalPlan,
        indexes: &mut TableIndexes,
    ) -> (r: (LogicalPlan, bool))
        requires
            old(indexes).next + 2 * sites_of(plan).len() <= usize::MAX,
        ensures
            !r.1 ==> r.0.stats == plan.stats && r.0.operator == plan.operator && r.0.children@
                == plan.children@,
            !is_bounded_root(plan) ==> !r.1 && *final(indexes) == *old(indexes),
            is_bounded_root(plan) ==> exists|copies: Seq<LogicalPlan>| #[trigger]
                are_copies::<C>(sites_of(plan), copies) && (if all_constrain(
                    copies,
                    sites_of(plan).len(),
                ) {
                    is_pushed_by(plan, copies, old(indexes).next, r, final(indexes).next)
                } else {
                    last_fails(copies) && !r.1 && *final(indexes) == *old(indexes)
                }),
            old(indexes).next <= final(indexes).next <= old(indexes).next + 2 * sites_of(
                plan,
            ).len(),
    {
        let Some(sites) = demand_sites(&plan) else {
            return (plan, false);
        };
        assert(referents(sites@).len() == sites@.len());
        let Some(demands) = self.copy_demands(&sites) else {
            return (plan, false);
        };
        let ghost copies = choose|copies: Seq<LogicalPlan>| #[trigger]
            are_copies::<C>(sites_of(plan), copies) && all_constrain(copies, sites@.len())
                && are_demands_of(demands@, copies);
        let ghost whole = plan;
        let ghost given = demands@;
        let ghost first = indexes.next;
        let r = push_current_cte(plan, demands, indexes);
        proof {
            assert(are_demands_of(given, copies));
            assert(is_pushed_by(whole, copies, first, r, indexes.next));
        }
        r
    }
}

/// A definition is restricted at most once.
pub proof fn root_is_restricted_once(
    before: LogicalPlan,
    demands: Seq<JoinedDemand>,
    relation: LogicalPlan,
    after: LogicalPlan,
)
    requires
        is_bounded_root(before),
        is_root_restricted(before, demands, relation, after),
    ensures
        !is_bounded_root(after),
        !is_default_root(after),
{
}

/// Restricting the definition at a root leaves the columns of the plan as they
/// are.
pub proof fn restricting_a_root_keeps_columns(
    before: LogicalPlan,
    demands: Seq<JoinedDemand>,
    relation: LogicalPlan,
    after: LogicalPlan,
)
    requires
        is_default_root(before),
        is_root_restricted(before, demands, relation, after),
    ensures
        plan_columns(after) == plan_columns(before),
{
    restricting_keeps_columns(
        before.children@[0],
        key_columns(
            plan_columns(before.children@[0]),
            demands[0].key_ordinals@,
            demands[0].key_ordinals@.len(),
        )->0,
        relation,
        after.children@[0],
    );
    lemma_plan_columns(before);
    lemma_plan_columns(after);
    assert(child_columns(before.children@) =~= child_columns(after.children@));
}

/// What the nested unions of a plan yield, given what their branches yield.
pub open spec fn union_rows<T>(plan: LogicalPlan, rows: spec_fn(LogicalPlan) -> Set<T>) -> Set<T>
    decreases plan,
{
    match plan.operator {
        LogicalOperator::SetOperation(set) => if set.setop_type is Union && set.setop_all
            && plan.children@.len() == 2 {
            union_rows(plan.children@[0], rows).union(union_rows(plan.children@[1], rows))
        } else {
            rows(plan)
        },
        _ => rows(plan),
    }
}

/// The table index of the keys of demand `k`, in a union that counts from
/// `first`.
pub open spec fn branch_index(first: int, k: int) -> int {
    if k == 0 {
        first
    } else {
        first + 2 * k - 1
    }
}

/// Whether `branch` computes the keys of demand `k`.
pub open spec fn is_branch(
    branch: LogicalPlan,
    demands: Seq<JoinedDemand>,
    first: int,
    k: int,
) -> bool {
    is_key_branch(branch, branch_index(first, k), demands[k])
}

/// Whether `yielded` holds the keys of demand `k`, however its branch computes
/// them.
pub open spec fn holds_keys<T>(
    yielded: Set<T>,
    demands: Seq<JoinedDemand>,
    first: int,
    k: int,
    rows: spec_fn(LogicalPlan) -> Set<T>,
) -> bool {
    exists|branch: LogicalPlan| #[trigger]
        is_branch(branch, demands, first, k) && rows(branch).subset_of(yielded)
}

/// The union of demands yields the keys of every demand, and no others,
/// whatever the rows of each of them are.
pub proof fn union_yields_every_demand<T>(
    relation: LogicalPlan,
    demands: Seq<JoinedDemand>,
    first: int,
    n: nat,
    rows: spec_fn(LogicalPlan) -> Set<T>,
)
    requires
        n <= demands.len(),
        is_demand_union(relation, demands, first, n),
    ensures
        forall|k: int|
            0 <= k < n ==> #[trigger] holds_keys(
                union_rows(relation, rows),
                demands,
                first,
                k,
                rows,
            ),
        forall|row: T| #[trigger]
            union_rows(relation, rows).contains(row) ==> exists|k: int, branch: LogicalPlan|
                0 <= k < n && #[trigger] is_branch(branch, demands, first, k) && rows(
                    branch,
                ).contains(row),
    decreases n,
{
    if n <= 1 {
        assert(is_branch(relation, demands, first, 0));
    } else {
        let left = relation.children@[0];
        let right = relation.children@[1];
        union_yields_every_demand(left, demands, first, (n - 1) as nat, rows);
        assert(is_branch(right, demands, first, n - 1));
        assert(union_rows(right, rows) == rows(right));
        assert forall|k: int| 0 <= k < n implies #[trigger] holds_keys(
            union_rows(relation, rows),
            demands,
            first,
            k,
            rows,
        ) by {
            if k == n - 1 {
                assert(rows(right).subset_of(union_rows(relation, rows)));
            } else {
                assert(holds_keys(union_rows(left, rows), demands, first, k, rows));
                let branch = choose|branch: LogicalPlan| #[trigger]
                    is_branch(branch, demands, first, k) && rows(branch).subset_of(
                        union_rows(left, rows),
                    );
                assert(rows(branch).subset_of(union_rows(relation, rows)));
            }
        }
        assert forall|row: T| #[trigger] union_rows(relation, rows).contains(row) implies exists|
            k: int,
            branch: LogicalPlan,
        |
            0 <= k < n && #[trigger] is_branch(branch, demands, first, k) && rows(branch).contains(
                row,
            ) by {
            if union_rows(left, rows).contains(row) {
                let (k, branch) = choose|k: int, branch: LogicalPlan|
                    0 <= k < n - 1 && #[trigger] is_branch(branch, demands, first, k) && rows(
                        branch,
                    ).contains(row);
                assert(is_branch(branch, demands, first, k));
            }
        }
    }
}

/// A restricted plan keeps the rows of which some row of the demand has the same
/// keys: the conditions are true of a pair of rows exactly where each key is the
/// demanded value and not NULL.
pub proof fn semi_join_keeps_rows_with_demanded_keys(
    plan: LogicalPlan,
    before: LogicalPlan,
    keys: Seq<Expression>,
    demand: LogicalPlan,
    join: ComparisonJoin,
    value: spec_fn(ExpressionView) -> Option<int>,
    row: spec_fn(ColumnBinding) -> Option<int>,
)
    requires
        is_semi_join(plan, before, keys, demand),
        plan.operator == LogicalOperator::Join(Join::Comparison(join)),
        reads_columns(value, row),
    ensures
        join.join_type is Semi,
        plan.children@[0] == before,
        plan.children@[1] == demand,
        (forall|i: int|
            0 <= i < join.conditions@.len() ==> (#[trigger] join.conditions@[i]).is_true_in(value))
            <==> forall|i: int|
            0 <= i < keys.len() ==> value((#[trigger] keys[i])@) is Some && value(keys[i]@) == row(
                plan_columns(demand)[i].binding,
            ),
{
    assert forall|i: int| 0 <= i < keys.len() implies (
    #[trigger] join.conditions@[i]).is_true_in(value) == (value(keys[i]@) is Some && value(
        keys[i]@,
    ) == row(plan_columns(demand)[i].binding)) by {
        let column = plan_columns(demand)[i];
        assert(is_key_condition(join.conditions@[i], keys[i], column));
        let c = ColumnRefExpression {
            binding: column.binding,
            depth: 0,
            return_type: column.logical_type,
        };
        assert(value(ExpressionView::ColumnRef(c)) == row(c.binding));
    }
    if forall|i: int|
        0 <= i < join.conditions@.len() ==> (#[trigger] join.conditions@[i]).is_true_in(value) {
        assert forall|i: int| 0 <= i < keys.len() implies value((#[trigger] keys[i])@) is Some
            && value(keys[i]@) == row(plan_columns(demand)[i].binding) by {
            assert(join.conditions@[i].is_true_in(value));
        }
    }
}

/// The keys of a definition below a projection are the columns that the projection
/// passes on as they are: a row has the same values in both. `outer` is the row that
/// the projection puts out.
pub proof fn projected_keys_carry_the_same_values(
    projection: Projection,
    keys: Seq<KeyColumn>,
    n: nat,
    value: spec_fn(ExpressionView) -> Option<int>,
    inner: spec_fn(ColumnBinding) -> Option<int>,
    outer: spec_fn(ColumnBinding) -> Option<int>,
)
    requires
        n <= keys.len(),
        reads_columns(value, inner),
        forall|i: usize|
            i < projection.expressions@.len() ==> #[trigger] outer(
                ColumnBinding { table_index: projection.table_index, column_index: i },
            ) == value(projection.expressions@[i as int]@),
        projected_keys(projection, keys, n) is Some,
    ensures
        (projected_keys(projection, keys, n)->0).len() == n,
        forall|i: int|
            0 <= i < n ==> inner((#[trigger] (projected_keys(projection, keys, n)->0)[i]).0)
                == outer(keys[i].0) && (projected_keys(projection, keys, n)->0)[i].1 == keys[i].1,
    decreases n,
{
    if n > 0 {
        projected_keys_carry_the_same_values(
            projection,
            keys,
            (n - 1) as nat,
            value,
            inner,
            outer,
        );
        let (binding, _) = keys[n - 1];
        let at = binding.column_index;
        assert(binding == (ColumnBinding {
            table_index: projection.table_index,
            column_index: at,
        }));
        assert(outer(binding) == value(projection.expressions@[at as int]@));
        if let Expression::ColumnRef(c) = projection.expressions@[at as int] {
            assert(value(ExpressionView::ColumnRef(*c)) == inner(c.binding));
        }
    }
}

/// The keys of a definition that groups are the expressions that it groups by: each
/// group has their values in its key columns. None of them may fail or change.
pub proof fn grouped_keys_carry_the_same_values(
    aggregate: Aggregate,
    keys: Seq<KeyColumn>,
    n: nat,
    value: spec_fn(ExpressionView) -> Option<int>,
    outer: spec_fn(ColumnBinding) -> Option<int>,
)
    requires
        n <= keys.len(),
        forall|i: usize|
            i < aggregate.groups@.len() ==> #[trigger] outer(
                ColumnBinding { table_index: aggregate.group_index, column_index: i },
            ) == value(aggregate.groups@[i as int]@),
        grouped_keys(aggregate, keys, n) is Some,
    ensures
        (grouped_keys(aggregate, keys, n)->0).len() == n,
        forall|i: int|
            0 <= i < n ==> value((#[trigger] (grouped_keys(aggregate, keys, n)->0)[i])@) == outer(
                keys[i].0,
            ) && !reorder_fence((grouped_keys(aggregate, keys, n)->0)[i]@),
    decreases n,
{
    if n > 0 {
        grouped_keys_carry_the_same_values(aggregate, keys, (n - 1) as nat, value, outer);
        let (binding, _) = keys[n - 1];
        assert(binding == (ColumnBinding {
            table_index: aggregate.group_index,
            column_index: binding.column_index,
        }));
    }
}

/// A join is restricted on one side only where it is an inner join and that side
/// alone has all columns that the keys mention.
pub proof fn restricted_side_owns_the_keys(
    plan: LogicalPlan,
    keys: Seq<Expression>,
    join: ComparisonJoin,
)
    requires
        plan.operator == LogicalOperator::Join(Join::Comparison(join)),
        owning_side(plan, keys) is Some,
    ensures
        join.join_type is Inner,
        owning_side(plan, keys)->0 == 0 || owning_side(plan, keys)->0 == 1,
        forall|b: ColumnBinding| #[trigger]
            any_mentions(views(keys), keys.len(), b) ==> bindings_of(
                plan_columns(plan.children@[owning_side(plan, keys)->0]),
            ).contains(b),
        exists|b: ColumnBinding| #[trigger]
            any_mentions(views(keys), keys.len(), b) && !bindings_of(
                plan_columns(plan.children@[1 - owning_side(plan, keys)->0]),
            ).contains(b),
{
    let side = owning_side(plan, keys)->0;
    assert(owns(plan.children@[side], keys) && !owns(plan.children@[1 - side], keys));
    assert(views(keys).len() == keys.len());
}

/// A definition accepts keys only through projections down to a plain grouping.
pub proof fn restricted_definition_groups(plan: LogicalPlan, keys: Seq<KeyColumn>, columns: nat)
    requires
        accepts(plan, keys, columns),
    ensures
        exists|part: LogicalPlan| #[trigger]
            is_part(part, plan) && (part.operator matches LogicalOperator::Aggregate(aggregate)
                && aggregate.groups@.len() > 0 && aggregate.grouping_sets@.len() == 0
                && aggregate.grouping_functions == 0),
    decreases plan,
{
    assert(is_part(plan, plan));
    if let LogicalOperator::Projection(projection) = plan.operator {
        let inner = projected_keys(projection, keys, keys.len())->0;
        restricted_definition_groups(plan.children@[0], inner, columns);
        let part = choose|part: LogicalPlan| #[trigger]
            is_part(part, plan.children@[0]) && (
            part.operator matches LogicalOperator::Aggregate(aggregate)
                && aggregate.groups@.len() > 0 && aggregate.grouping_sets@.len() == 0
                && aggregate.grouping_functions == 0);
        assert(is_part(part, plan));
    }
}

/// Demands that agree ask for the same columns with the same types, each of each other.
pub proof fn agreeing_demands_have_the_same_keys(demands: Seq<JoinedDemand>, i: int, j: int)
    requires
        agree(demands),
        0 <= i < demands.len(),
        0 <= j < demands.len(),
    ensures
        demands[i].key_ordinals@ == demands[j].key_ordinals@,
        demands[i].key_types@ == demands[j].key_types@,
{
}

} // verus!
