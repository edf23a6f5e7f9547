//! What the readers of a shared definition join it with.
//!
//! A definition that is read only through inner equality joins needs no rows
//! outside the union of the keys that it is joined with.

use vstd::prelude::*;

use crate::cte::predicate_domain::{mention_only, only_mention};
use crate::expression::analysis::{
    any_mentions, any_reorder_fence, contains_reorder_fence, extract_column_bindings,
    lemma_any_reorder_fence, mentions, reorder_fence, result_type, views,
};
use crate::expression::meaning::{
    calls_unstable, fences_call_unstable_functions, has_part, reads_columns,
};
use crate::expression::{Expression, ExpressionView};
use crate::layout::{bindings_of, plan_columns};
use crate::operator::substitution::evaluates;
use crate::operator::{
    CTERef, ComparisonJoin, Join, JoinCondition, LogicalOperator, MaterializedCTE,
};
use crate::plan::{
    count_among, count_parts, has_sound_arity, is_part, lemma_input_is_part, lemma_part_of_part,
    read_of, referents, LogicalPlan,
};
use crate::types::{CTEMaterialize, ColumnBinding, JoinComparisonType, JoinType, LogicalType};

verus! {

/// What a definition is joined with: one expression of a plan for each of some
/// columns of the definition.
#[derive(Debug)]
pub struct JoinedDemand {
    pub key_ordinals: Vec<usize>,
    pub key_types: Vec<LogicalType>,
    pub plan: LogicalPlan,
    pub expressions: Vec<Expression>,
}

/// One column of a definition and the expression that it must equal.
pub struct DemandKey {
    pub ordinal: usize,
    pub key_type: LogicalType,
    pub expression: Expression,
}

/// The definition that one side of a join reads directly, and whether that is
/// the left side. There is none where both sides do.
pub open spec fn direct_side(plan: LogicalPlan) -> Option<(usize, bool)> {
    if !(plan.operator matches LogicalOperator::Join(Join::Comparison(_)))
        || plan.children@.len() != 2 {
        None
    } else {
        match (plan.children@[0].operator, plan.children@[1].operator) {
            (LogicalOperator::CTERef(_), LogicalOperator::CTERef(_)) => None,
            (LogicalOperator::CTERef(reference), _) => Some((reference.cte_index, true)),
            (_, LogicalOperator::CTERef(reference)) => Some((reference.cte_index, false)),
            _ => None,
        }
    }
}

pub fn direct_cte_side(plan: &LogicalPlan) -> (r: Option<(usize, bool)>)
    ensures
        r == direct_side(*plan),
{
    match &plan.operator {
        LogicalOperator::Join(Join::Comparison(_)) => {},
        _ => {
            return None;
        },
    }
    if plan.children.len() != 2 {
        return None;
    }
    match (&plan.children[0].operator, &plan.children[1].operator) {
        (LogicalOperator::CTERef(_), LogicalOperator::CTERef(_)) => None,
        (LogicalOperator::CTERef(reference), _) => Some((reference.cte_index, true)),
        (_, LogicalOperator::CTERef(reference)) => Some((reference.cte_index, false)),
        _ => None,
    }
}

/// Whether an expression mentions any column.
pub open spec fn mentions_any(e: ExpressionView) -> bool {
    exists|b: ColumnBinding| #[trigger] mentions(e, b)
}

/// Whether an expression mentions only the given columns.
pub open spec fn mentions_only(e: ExpressionView, bindings: Seq<ColumnBinding>) -> bool {
    forall|b: ColumnBinding| #[trigger] mentions(e, b) ==> bindings.contains(b)
}

/// The column of the definition and the other operand of a join condition.
pub open spec fn operands(condition: JoinCondition, cte_is_left: bool) -> (Expression, Expression) {
    if cte_is_left {
        (condition.left, condition.right)
    } else {
        (condition.right, condition.left)
    }
}

/// Whether a condition equates a column of the definition with something that
/// the other side computes by itself.
pub open spec fn is_demand(
    condition: JoinCondition,
    cte_is_left: bool,
    table_index: usize,
    others: Seq<ColumnBinding>,
) -> bool {
    let (column, demand) = operands(condition, cte_is_left);
    &&& condition.comparison is Equal
    &&& column matches Expression::ColumnRef(c) && c.depth == 0 && c.binding.table_index
        == table_index
    &&& mentions_any(demand@)
    &&& mentions_only(demand@, others)
    &&& !reorder_fence(demand@)
}

pub open spec fn demanded_ordinal(condition: JoinCondition, cte_is_left: bool) -> usize {
    match operands(condition, cte_is_left).0 {
        Expression::ColumnRef(c) => c.binding.column_index,
        _ => 0,
    }
}

/// The keys of the first `n` conditions; none where one asks for a column that
/// the definition does not have.
pub open spec fn demand_keys(
    conditions: Seq<JoinCondition>,
    cte_is_left: bool,
    reference: CTERef,
    others: Seq<ColumnBinding>,
    n: nat,
) -> Option<Seq<DemandKey>>
    decreases n,
{
    if n == 0 {
        Some(Seq::empty())
    } else {
        let condition = conditions[n - 1];
        match demand_keys(conditions, cte_is_left, reference, others, (n - 1) as nat) {
            None => None,
            Some(before) => if !is_demand(condition, cte_is_left, reference.table_index, others) {
                Some(before)
            } else {
                let ordinal = demanded_ordinal(condition, cte_is_left);
                let demand = operands(condition, cte_is_left).1;
                if ordinal >= reference.column_types@.len() {
                    None
                } else if result_type(demand@) != reference.column_types@[ordinal as int] {
                    Some(before)
                } else {
                    Some(
                        before.push(
                            DemandKey {
                                ordinal,
                                key_type: reference.column_types@[ordinal as int],
                                expression: demand,
                            },
                        ),
                    )
                }
            },
        }
    }
}

/// The first key from position `from` on for a column.
pub open spec fn first_key(keys: Seq<DemandKey>, ordinal: nat, from: nat) -> Option<nat>
    decreases keys.len() - from,
{
    if from >= keys.len() {
        None
    } else if keys[from as int].ordinal == ordinal {
        Some(from)
    } else {
        first_key(keys, ordinal, from + 1)
    }
}

/// The first key of each column below `n`, in the order of the columns.
pub open spec fn keys_by_column(keys: Seq<DemandKey>, n: nat) -> Seq<DemandKey>
    decreases n,
{
    if n == 0 {
        Seq::empty()
    } else {
        let before = keys_by_column(keys, (n - 1) as nat);
        match first_key(keys, (n - 1) as nat, 0) {
            Some(at) => before.push(keys[at as int]),
            None => before,
        }
    }
}

/// Whether a plan may be evaluated again: it reads stored or literal rows, and
/// nothing in it fails or changes between evaluations.
pub open spec fn is_replay_safe(plan: LogicalPlan) -> bool
    decreases plan,
{
    &&& match plan.operator {
        LogicalOperator::Get(get) => get.has_table && !any_reorder_fence(
            views(get.runtime_filter_expressions@),
            get.runtime_filter_expressions@.len(),
        ),
        LogicalOperator::ExpressionGet(get) => forall|i: int|
            0 <= i < get.rows@.len() ==> !any_reorder_fence(
                views(#[trigger] get.rows@[i]@),
                get.rows@[i]@.len(),
            ),
        LogicalOperator::EmptyResult => true,
        LogicalOperator::Filter(filter) => !any_reorder_fence(
            views(filter.expressions@),
            filter.expressions@.len(),
        ),
        LogicalOperator::Projection(projection) => !any_reorder_fence(
            views(projection.expressions@),
            projection.expressions@.len(),
        ),
        _ => false,
    }
    &&& forall|i: int|
        #![trigger plan.children@[i]]
        0 <= i < plan.children@.len() ==> is_replay_safe(plan.children@[i])
}

pub fn replay_safe_demand(plan: &LogicalPlan) -> (r: bool)
    ensures
        r == is_replay_safe(*plan),
    decreases plan,
{
    let safe = match &plan.operator {
        LogicalOperator::Get(get) => get.has_table && !contains_reorder_fence(
            &get.runtime_filter_expressions,
        ),
        LogicalOperator::ExpressionGet(get) => {
            let mut i: usize = 0;
            let mut all: bool = true;
            while i < get.rows.len()
                invariant
                    i <= get.rows@.len(),
                    all == (forall|k: int|
                        0 <= k < i ==> !any_reorder_fence(
                            views(#[trigger] get.rows@[k]@),
                            get.rows@[k]@.len(),
                        )),
                decreases get.rows@.len() - i,
            {
                let fence = contains_reorder_fence(&get.rows[i]);
                if fence {
                    assert(any_reorder_fence(
                        views(get.rows@[i as int]@),
                        get.rows@[i as int]@.len(),
                    ));
                    all = false;
                }
                i = i + 1;
            }
            all
        },
        LogicalOperator::EmptyResult => true,
        LogicalOperator::Filter(filter) => !contains_reorder_fence(&filter.expressions),
        LogicalOperator::Projection(projection) => !contains_reorder_fence(
            &projection.expressions,
        ),
        _ => false,
    };
    if !safe {
        return false;
    }
    let mut i: usize = 0;
    while i < plan.children.len()
        invariant
            i <= plan.children@.len(),
            forall|k: int| 0 <= k < i ==> is_replay_safe(#[trigger] plan.children@[k]),
        decreases plan.children@.len() - i,
    {
        if !replay_safe_demand(&plan.children[i]) {
            return false;
        }
        i = i + 1;
    }
    true
}

/// The keys of a join with a definition, by column.
pub open spec fn join_keys(plan: LogicalPlan) -> Option<Seq<DemandKey>> {
    match (plan.operator, direct_side(plan)) {
        (LogicalOperator::Join(Join::Comparison(join)), Some((_, cte_is_left))) => {
            let cte_side = if cte_is_left {
                plan.children@[0]
            } else {
                plan.children@[1]
            };
            let other = if cte_is_left {
                plan.children@[1]
            } else {
                plan.children@[0]
            };
            match cte_side.operator {
                LogicalOperator::CTERef(reference) => if !(join.join_type is Inner) {
                    None
                } else {
                    match demand_keys(
                        join.conditions@,
                        cte_is_left,
                        reference,
                        bindings_of(plan_columns(other)),
                        join.conditions@.len(),
                    ) {
                        Some(keys) => Some(keys_by_column(keys, reference.column_types@.len())),
                        None => None,
                    }
                },
                _ => None,
            }
        },
        _ => None,
    }
}

/// The side of a join that is not the definition.
pub open spec fn other_side(plan: LogicalPlan) -> LogicalPlan {
    match direct_side(plan) {
        Some((_, true)) => plan.children@[1],
        _ => plan.children@[0],
    }
}

/// Whether a join bounds the rows that are needed of a definition.
pub open spec fn is_constraint(plan: LogicalPlan) -> bool {
    (join_keys(plan) matches Some(keys) && keys.len() > 0) && is_replay_safe(other_side(plan))
}

fn mentioned_only(e: &Expression, bindings: &Vec<ColumnBinding>) -> (r: (bool, bool))
    ensures
        r.0 == mentions_any(e@),
        r.1 == mentions_only(e@, bindings@),
{
    let mut one: Vec<Expression> = Vec::new();
    one.push(e.copy());
    let only = mention_only(&one, bindings);
    let mut mentioned: Vec<ColumnBinding> = Vec::new();
    extract_column_bindings(e, &mut mentioned);
    proof {
        let v = views(one@);
        assert(v.len() == 1 && v[0] == e@);
        assert forall|b: ColumnBinding|
            #![trigger any_mentions(v, 1, b)]
            #![trigger mentions(e@, b)]
            any_mentions(v, 1, b) == mentions(e@, b) by {
            assert(any_mentions(v, 0, b) == false);
        }
        assert(only_mention(v, bindings@) == mentions_only(e@, bindings@));
        if mentioned@.len() > 0 {
            assert(mentioned@.contains(mentioned@[0]));
            assert(mentions(e@, mentioned@[0]));
        } else {
            assert forall|b: ColumnBinding| !#[trigger] mentions(e@, b) by {
                assert(!mentioned@.contains(b));
            }
        }
    }
    (mentioned.len() > 0, only)
}

proof fn lemma_keys_stay_none(
    conditions: Seq<JoinCondition>,
    cte_is_left: bool,
    reference: CTERef,
    others: Seq<ColumnBinding>,
    n: nat,
    m: nat,
)
    requires
        n <= m,
        demand_keys(conditions, cte_is_left, reference, others, n) is None,
    ensures
        demand_keys(conditions, cte_is_left, reference, others, m) is None,
    decreases m,
{
    if n < m {
        lemma_keys_stay_none(conditions, cte_is_left, reference, others, n, (m - 1) as nat);
    }
}

fn collect_keys(
    conditions: &Vec<JoinCondition>,
    cte_is_left: bool,
    reference: &CTERef,
    others: &Vec<ColumnBinding>,
) -> (r: Option<Vec<DemandKey>>)
    ensures
        match r {
            Some(keys) => demand_keys(
                conditions@,
                cte_is_left,
                *reference,
                others@,
                conditions@.len(),
            ) == Some(keys@),
            None => demand_keys(
                conditions@,
                cte_is_left,
                *reference,
                others@,
                conditions@.len(),
            ) is None,
        },
{
    let mut keys: Vec<DemandKey> = Vec::new();
    assert(keys@ =~= Seq::empty());
    let mut i: usize = 0;
    while i < conditions.len()
        invariant
            i <= conditions@.len(),
            demand_keys(conditions@, cte_is_left, *reference, others@, i as nat) == Some(keys@),
        decreases conditions@.len() - i,
    {
        let condition = &conditions[i];
        let (column, demand) = if cte_is_left {
            (&condition.left, &condition.right)
        } else {
            (&condition.right, &condition.left)
        };
        assert((*column, *demand) == operands(*condition, cte_is_left));
        i = i + 1;
        if condition.comparison != JoinComparisonType::Equal {
            continue ;
        }
        let Expression::ColumnRef(c) = column else {
            continue ;
        };
        if c.depth != 0 || c.binding.table_index != reference.table_index {
            continue ;
        }
        let (any, only) = mentioned_only(demand, others);
        if !any || !only || demand.is_reorder_fence() {
            continue ;
        }
        let ordinal: usize = c.binding.column_index;
        if ordinal >= reference.column_types.len() {
            proof {
                lemma_keys_stay_none(
                    conditions@,
                    cte_is_left,
                    *reference,
                    others@,
                    i as nat,
                    conditions@.len(),
                );
            }
            return None;
        }
        let key_type = reference.column_types[ordinal];
        if demand.return_type() != key_type {
            continue ;
        }
        keys.push(DemandKey { ordinal, key_type, expression: demand.copy() });
    }
    Some(keys)
}

fn find_key(keys: &Vec<DemandKey>, ordinal: usize) -> (r: Option<usize>)
    ensures
        match r {
            Some(at) => first_key(keys@, ordinal as nat, 0) == Some(at as nat) && at < keys@.len(),
            None => first_key(keys@, ordinal as nat, 0) is None,
        },
{
    let mut i: usize = 0;
    while i < keys.len()
        invariant
            i <= keys@.len(),
            first_key(keys@, ordinal as nat, 0) == first_key(keys@, ordinal as nat, i as nat),
        decreases keys@.len() - i,
    {
        if keys[i].ordinal == ordinal {
            return Some(i);
        }
        i = i + 1;
    }
    None
}

fn order_keys(keys: &Vec<DemandKey>, columns: usize) -> (r: Vec<DemandKey>)
    ensures
        r@ == keys_by_column(keys@, columns as nat),
{
    let mut r: Vec<DemandKey> = Vec::new();
    let mut ordinal: usize = 0;
    while ordinal < columns
        invariant
            ordinal <= columns,
            r@ == keys_by_column(keys@, ordinal as nat),
        decreases columns - ordinal,
    {
        if let Some(at) = find_key(keys, ordinal) {
            let key = &keys[at];
            r.push(
                DemandKey {
                    ordinal: key.ordinal,
                    key_type: key.key_type,
                    expression: key.expression.copy(),
                },
            );
        }
        ordinal = ordinal + 1;
    }
    r
}

/// The keys of a join with a definition, by column.
fn keys_of_join(plan: &LogicalPlan) -> (r: Option<Vec<DemandKey>>)
    ensures
        match r {
            Some(keys) => join_keys(*plan) == Some(keys@),
            None => join_keys(*plan) is None,
        },
{
    let Some((_, cte_is_left)) = direct_cte_side(plan) else {
        return None;
    };
    let LogicalOperator::Join(Join::Comparison(join)) = &plan.operator else {
        return None;
    };
    if join.join_type != JoinType::Inner {
        return None;
    }
    let (cte_side, other) = if cte_is_left {
        (&plan.children[0], &plan.children[1])
    } else {
        (&plan.children[1], &plan.children[0])
    };
    let LogicalOperator::CTERef(reference) = &cte_side.operator else {
        return None;
    };
    let others = other.get_column_bindings();
    match collect_keys(&join.conditions, cte_is_left, reference, &others) {
        Some(keys) => Some(order_keys(&keys, reference.column_types.len())),
        None => None,
    }
}

/// Whether a join bounds the rows that are needed of a definition.
pub fn constrains(plan: &LogicalPlan) -> (r: bool)
    ensures
        r == is_constraint(*plan),
{
    let Some(keys) = keys_of_join(plan) else {
        return false;
    };
    if keys.len() == 0 {
        return false;
    }
    match direct_cte_side(plan) {
        Some((_, true)) => replay_safe_demand(&plan.children[1]),
        _ => replay_safe_demand(&plan.children[0]),
    }
}

pub open spec fn ordinals_of(keys: Seq<DemandKey>) -> Seq<usize> {
    keys.map_values(|k: DemandKey| k.ordinal)
}

pub open spec fn types_of_keys(keys: Seq<DemandKey>) -> Seq<LogicalType> {
    keys.map_values(|k: DemandKey| k.key_type)
}

pub open spec fn expressions_of(keys: Seq<DemandKey>) -> Seq<Expression> {
    keys.map_values(|k: DemandKey| k.expression)
}

/// Whether a demand is what a join needs of a definition.
pub open spec fn is_demand_of(demand: JoinedDemand, join: LogicalPlan) -> bool {
    &&& is_constraint(join)
    &&& demand.key_ordinals@ == ordinals_of(join_keys(join)->0)
    &&& demand.key_types@ == types_of_keys(join_keys(join)->0)
    &&& demand.expressions@ == expressions_of(join_keys(join)->0)
    &&& demand.plan == other_side(join)
}

/// Takes the demand out of a join with a definition. The join is a copy of one
/// in the plan, with indices of its own.
pub fn copy_join_demand(join: LogicalPlan) -> (r: Option<JoinedDemand>)
    ensures
        match r {
            Some(demand) => is_demand_of(demand, join),
            None => !is_constraint(join),
        },
{
    if !constrains(&join) {
        return None;
    }
    let Some(keys) = keys_of_join(&join) else {
        return None;
    };
    let side = direct_cte_side(&join);
    let LogicalPlan { stats: _, operator: _, children } = join;
    let mut children = children;
    let right = children.pop();
    let left = children.pop();
    let mut key_ordinals: Vec<usize> = Vec::new();
    let mut key_types: Vec<LogicalType> = Vec::new();
    let mut expressions: Vec<Expression> = Vec::new();
    let mut i: usize = 0;
    while i < keys.len()
        invariant
            i <= keys@.len(),
            key_ordinals@ == ordinals_of(keys@).take(i as int),
            key_types@ == types_of_keys(keys@).take(i as int),
            expressions@ == expressions_of(keys@).take(i as int),
        decreases keys@.len() - i,
    {
        key_ordinals.push(keys[i].ordinal);
        key_types.push(keys[i].key_type);
        expressions.push(keys[i].expression.copy());
        assert(key_ordinals@ =~= ordinals_of(keys@).take(i + 1));
        assert(key_types@ =~= types_of_keys(keys@).take(i + 1));
        assert(expressions@ =~= expressions_of(keys@).take(i + 1));
        i = i + 1;
    }
    assert(key_ordinals@ =~= ordinals_of(keys@));
    assert(key_types@ =~= types_of_keys(keys@));
    assert(expressions@ =~= expressions_of(keys@));
    if let (Some(left), Some(right)) = (left, right) {
        let plan = match side {
            Some((_, true)) => right,
            _ => left,
        };
        Some(JoinedDemand { key_ordinals, key_types, plan, expressions })
    } else {
        assert(false);
        None
    }
}

/// The joins that bound a definition, in order.
pub open spec fn constraints(plan: LogicalPlan, cte_index: usize) -> Seq<LogicalPlan>
    decreases plan, 0nat,
{
    match (plan.operator, direct_side(plan)) {
        (LogicalOperator::CTERef(_), _) => Seq::empty(),
        (_, Some((index, cte_is_left))) if is_constraint(plan) => {
            let other = if cte_is_left {
                constraints(plan.children@[1], cte_index)
            } else {
                constraints(plan.children@[0], cte_index)
            };
            if index == cte_index {
                seq![plan] + other
            } else {
                other
            }
        },
        _ => constraints_among(plan.children@, cte_index, plan.children@.len()),
    }
}

pub open spec fn constraints_among(plans: Seq<LogicalPlan>, cte_index: usize, n: nat) -> Seq<
    LogicalPlan,
>
    decreases plans, n,
{
    if n == 0 || n > plans.len() {
        Seq::empty()
    } else {
        constraints_among(plans, cte_index, (n - 1) as nat) + constraints(plans[n - 1], cte_index)
    }
}

/// Whether something else reads a definition.
pub open spec fn is_unconstrained(plan: LogicalPlan, cte_index: usize) -> bool
    decreases plan, 0nat,
{
    match (plan.operator, direct_side(plan)) {
        (LogicalOperator::CTERef(reference), _) => reference.cte_index == cte_index,
        (_, Some((_, cte_is_left))) if is_constraint(plan) => if cte_is_left {
            is_unconstrained(plan.children@[1], cte_index)
        } else {
            is_unconstrained(plan.children@[0], cte_index)
        },
        _ => unconstrained_among(plan.children@, cte_index, plan.children@.len()),
    }
}

pub open spec fn unconstrained_among(plans: Seq<LogicalPlan>, cte_index: usize, n: nat) -> bool
    decreases plans, n,
{
    if n == 0 || n > plans.len() {
        false
    } else {
        unconstrained_among(plans, cte_index, (n - 1) as nat) || is_unconstrained(
            plans[n - 1],
            cte_index,
        )
    }
}

/// Collects the joins that bound a definition and tells whether something else
/// reads it.
fn find_constraints<'a>(
    plan: &'a LogicalPlan,
    cte_index: usize,
    found: &mut Vec<&'a LogicalPlan>,
) -> (r: bool)
    ensures
        r == is_unconstrained(*plan, cte_index),
        referents(final(found)@) == referents(old(found)@) + constraints(*plan, cte_index),
    decreases plan,
{
    let ghost start = referents(found@);
    if let LogicalOperator::CTERef(reference) = &plan.operator {
        assert(start + Seq::<LogicalPlan>::empty() =~= start);
        return reference.cte_index == cte_index;
    }
    if let Some((index, cte_is_left)) = direct_cte_side(plan) {
        if constrains(plan) {
            if index == cte_index {
                found.push(plan);
                assert(referents(found@) =~= start + seq![*plan]);
            }
            let ghost before = referents(found@);
            let other = if cte_is_left {
                &plan.children[1]
            } else {
                &plan.children[0]
            };
            let r = find_constraints(other, cte_index, found);
            proof {
                assert(before + constraints(*other, cte_index) =~= start + constraints(
                    *plan,
                    cte_index,
                ));
            }
            return r;
        }
    }
    let mut open: bool = false;
    let mut i: usize = 0;
    assert(start + constraints_among(plan.children@, cte_index, 0) =~= start);
    while i < plan.children.len()
        invariant
            i <= plan.children@.len(),
            open == unconstrained_among(plan.children@, cte_index, i as nat),
            referents(found@) == start + constraints_among(plan.children@, cte_index, i as nat),
        decreases plan.children@.len() - i,
    {
        let ghost before = referents(found@);
        let inner = find_constraints(&plan.children[i], cte_index, found);
        open = open || inner;
        proof {
            let child = plan.children@[i as int];
            assert(start + constraints_among(plan.children@, cte_index, i as nat) + constraints(
                child,
                cte_index,
            ) =~= start + constraints_among(plan.children@, cte_index, (i + 1) as nat));
        }
        i = i + 1;
    }
    open
}

/// Whether the definition at the root of a plan is shared by default and read
/// only through joins that bound it.
pub open spec fn is_bounded_root(plan: LogicalPlan) -> bool {
    plan.operator matches LogicalOperator::MaterializedCTE(cte) && cte.materialized is Default
        && !is_unconstrained(plan, cte.cte_index) && constraints(plan, cte.cte_index).len() > 0
}

/// The joins that bound the definition at the root of a plan, in order.
pub open spec fn sites_of(plan: LogicalPlan) -> Seq<LogicalPlan> {
    match plan.operator {
        LogicalOperator::MaterializedCTE(cte) => constraints(plan, cte.cte_index),
        _ => Seq::empty(),
    }
}

/// The joins that bound the definition at the root of a plan. A copy of each
/// gives a part of what is needed of it.
pub fn demand_sites<'a>(plan: &'a LogicalPlan) -> (r: Option<Vec<&'a LogicalPlan>>)
    ensures
        match r {
            Some(sites) => is_bounded_root(*plan) && referents(sites@) == sites_of(*plan),
            None => !is_bounded_root(*plan),
        },
{
    let LogicalOperator::MaterializedCTE(cte) = &plan.operator else {
        return None;
    };
    match cte.materialized {
        CTEMaterialize::Default => {},
        _ => {
            return None;
        },
    }
    let mut sites: Vec<&'a LogicalPlan> = Vec::new();
    let open = find_constraints(plan, cte.cte_index, &mut sites);
    assert(referents(sites@) =~= constraints(*plan, cte.cte_index));
    assert(referents(sites@).len() == sites@.len());
    if open || sites.len() == 0 {
        return None;
    }
    Some(sites)
}

proof fn lemma_constraints_constrain(plan: LogicalPlan, cte_index: usize)
    ensures
        forall|i: int|
            0 <= i < constraints(plan, cte_index).len() ==> is_constraint(
                #[trigger] constraints(plan, cte_index)[i],
            ),
    decreases plan, 0nat,
{
    match (plan.operator, direct_side(plan)) {
        (LogicalOperator::CTERef(_), _) => {},
        (_, Some((index, cte_is_left))) if is_constraint(plan) => {
            let other = if cte_is_left {
                plan.children@[1]
            } else {
                plan.children@[0]
            };
            lemma_constraints_constrain(other, cte_index);
            let all = constraints(plan, cte_index);
            let below = constraints(other, cte_index);
            assert forall|i: int| 0 <= i < all.len() implies is_constraint(#[trigger] all[i]) by {
                if index == cte_index {
                    if i > 0 {
                        assert(all[i] == below[i - 1]);
                    }
                } else {
                    assert(all[i] == below[i]);
                }
            }
        },
        _ => {
            lemma_among_constrain(plan.children@, cte_index, plan.children@.len());
            let all = constraints(plan, cte_index);
            let among = constraints_among(plan.children@, cte_index, plan.children@.len());
            assert forall|i: int| 0 <= i < all.len() implies is_constraint(#[trigger] all[i]) by {
                assert(all[i] == among[i]);
            }
        },
    }
}

proof fn lemma_among_constrain(plans: Seq<LogicalPlan>, cte_index: usize, n: nat)
    requires
        n <= plans.len(),
    ensures
        forall|i: int|
            0 <= i < constraints_among(plans, cte_index, n).len() ==> is_constraint(
                #[trigger] constraints_among(plans, cte_index, n)[i],
            ),
    decreases plans, n,
{
    if n > 0 {
        lemma_among_constrain(plans, cte_index, (n - 1) as nat);
        lemma_constraints_constrain(plans[n - 1], cte_index);
        let all = constraints_among(plans, cte_index, n);
        let before = constraints_among(plans, cte_index, (n - 1) as nat);
        let last = constraints(plans[n - 1], cte_index);
        assert forall|i: int| 0 <= i < all.len() implies is_constraint(#[trigger] all[i]) by {
            if i < before.len() {
                assert(all[i] == before[i]);
            } else {
                assert(all[i] == last[i - before.len()]);
            }
        }
    }
}

/// Every join that bounds a definition gives a demand.
pub proof fn every_site_gives_a_demand(plan: LogicalPlan, cte_index: usize, i: int)
    requires
        0 <= i < constraints(plan, cte_index).len(),
    ensures
        is_constraint(constraints(plan, cte_index)[i]),
{
    lemma_constraints_constrain(plan, cte_index);
}

/// Whether a pair of rows has in a column of a definition the value that a key
/// demands of it, which the other row alone determines.
pub open spec fn meets_key(
    key: DemandKey,
    table_index: usize,
    others: Seq<ColumnBinding>,
    value: spec_fn(ExpressionView) -> Option<int>,
    row: spec_fn(ColumnBinding) -> Option<int>,
) -> bool {
    &&& row(ColumnBinding { table_index, column_index: key.ordinal }) is Some
    &&& row(ColumnBinding { table_index, column_index: key.ordinal }) == value(key.expression@)
    &&& forall|b: ColumnBinding| #[trigger] mentions(key.expression@, b) ==> others.contains(b)
}

proof fn lemma_conditions_meet_keys(
    conditions: Seq<JoinCondition>,
    cte_is_left: bool,
    reference: CTERef,
    others: Seq<ColumnBinding>,
    n: nat,
    value: spec_fn(ExpressionView) -> Option<int>,
    row: spec_fn(ColumnBinding) -> Option<int>,
)
    requires
        n <= conditions.len(),
        reads_columns(value, row),
        forall|i: int| 0 <= i < conditions.len() ==> (#[trigger] conditions[i]).is_true_in(value),
        demand_keys(conditions, cte_is_left, reference, others, n) is Some,
    ensures
        forall|k: int|
            0 <= k < (demand_keys(conditions, cte_is_left, reference, others, n)->0).len()
                ==> meets_key(
                #[trigger] (demand_keys(conditions, cte_is_left, reference, others, n)->0)[k],
                reference.table_index,
                others,
                value,
                row,
            ) && (demand_keys(conditions, cte_is_left, reference, others, n)->0)[k].key_type
                == reference.column_types@[(demand_keys(
                conditions,
                cte_is_left,
                reference,
                others,
                n,
            )->0)[k].ordinal as int],
    decreases n,
{
    if n > 0 {
        lemma_conditions_meet_keys(
            conditions,
            cte_is_left,
            reference,
            others,
            (n - 1) as nat,
            value,
            row,
        );
        let condition = conditions[n - 1];
        assert(condition.is_true_in(value));
        if is_demand(condition, cte_is_left, reference.table_index, others) {
            let (column, demand) = operands(condition, cte_is_left);
            if let Expression::ColumnRef(c) = column {
                assert(value(ExpressionView::ColumnRef(*c)) == row(c.binding));
            }
        }
    }
}

proof fn lemma_first_key(keys: Seq<DemandKey>, ordinal: nat, from: nat)
    ensures
        first_key(keys, ordinal, from) matches Some(at) ==> from <= at < keys.len(),
    decreases keys.len() - from,
{
    if from < keys.len() && keys[from as int].ordinal != ordinal {
        lemma_first_key(keys, ordinal, from + 1);
    }
}

proof fn lemma_ordered_keys(keys: Seq<DemandKey>, n: nat, k: int)
    requires
        0 <= k < keys_by_column(keys, n).len(),
    ensures
        keys.contains(keys_by_column(keys, n)[k]),
    decreases n,
{
    if n > 0 {
        let before = keys_by_column(keys, (n - 1) as nat);
        lemma_first_key(keys, (n - 1) as nat, 0);
        if k < before.len() {
            lemma_ordered_keys(keys, (n - 1) as nat, k);
        }
    }
}

/// A join that bounds a definition is part of the plan and reads the definition
/// itself.
proof fn lemma_sites_read(plan: LogicalPlan, cte_index: usize, i: int)
    requires
        0 <= i < constraints(plan, cte_index).len(),
    ensures
        is_part(constraints(plan, cte_index)[i], plan),
        is_constraint(constraints(plan, cte_index)[i]),
        direct_side(constraints(plan, cte_index)[i]) matches Some((index, _)) && index == cte_index,
    decreases plan, 0nat,
{
    let site = constraints(plan, cte_index)[i];
    match (plan.operator, direct_side(plan)) {
        (LogicalOperator::CTERef(_), _) => {},
        (_, Some((index, cte_is_left))) if is_constraint(plan) => {
            let at: int = if cte_is_left {
                1
            } else {
                0
            };
            let below = constraints(plan.children@[at], cte_index);
            if index == cte_index {
                if i > 0 {
                    assert(site == below[i - 1]);
                    lemma_sites_read(plan.children@[at], cte_index, i - 1);
                    lemma_input_is_part(plan, at);
                    lemma_part_of_part(site, plan.children@[at], plan);
                }
            } else {
                assert(site == below[i]);
                lemma_sites_read(plan.children@[at], cte_index, i);
                lemma_input_is_part(plan, at);
                lemma_part_of_part(site, plan.children@[at], plan);
            }
        },
        _ => {
            let k = lemma_sites_among_read(plan.children@, cte_index, plan.children@.len(), i);
            lemma_input_is_part(plan, k);
            lemma_part_of_part(site, plan.children@[k], plan);
        },
    }
}

proof fn lemma_sites_among_read(
    plans: Seq<LogicalPlan>,
    cte_index: usize,
    n: nat,
    i: int,
) -> (k: int)
    requires
        n <= plans.len(),
        0 <= i < constraints_among(plans, cte_index, n).len(),
    ensures
        0 <= k < n,
        is_part(constraints_among(plans, cte_index, n)[i], plans[k]),
        is_constraint(constraints_among(plans, cte_index, n)[i]),
        direct_side(constraints_among(plans, cte_index, n)[i]) matches Some((index, _)) && index
            == cte_index,
    decreases plans, n,
{
    let before = constraints_among(plans, cte_index, (n - 1) as nat);
    if i < before.len() {
        assert(constraints_among(plans, cte_index, n)[i] == before[i]);
        lemma_sites_among_read(plans, cte_index, (n - 1) as nat, i)
    } else {
        assert(constraints_among(plans, cte_index, n)[i] == constraints(plans[n - 1], cte_index)[i
            - before.len()]);
        lemma_sites_read(plans[n - 1], cte_index, i - before.len());
        n - 1
    }
}

proof fn lemma_sites_are_all(plan: LogicalPlan, cte_index: usize)
    requires
        has_sound_arity(plan),
        !is_unconstrained(plan, cte_index),
    ensures
        count_parts(plan, read_of(cte_index)) == constraints(plan, cte_index).len(),
    decreases plan, 0nat,
{
    let property = read_of(cte_index);
    match (plan.operator, direct_side(plan)) {
        (LogicalOperator::CTERef(_), _) => {
            assert(count_among(plan.children@, property, 0) == 0);
        },
        (_, Some((index, cte_is_left))) if is_constraint(plan) => {
            let left = plan.children@[0];
            let right = plan.children@[1];
            assert(has_sound_arity(left) && has_sound_arity(right));
            assert(count_among(plan.children@, property, 0) == 0);
            assert(count_among(plan.children@, property, 1) == count_parts(left, property));
            assert(count_among(plan.children@, property, 2) == count_parts(left, property)
                + count_parts(right, property));
            if cte_is_left {
                assert(count_among(left.children@, property, 0) == 0);
                lemma_sites_are_all(right, cte_index);
            } else {
                assert(count_among(right.children@, property, 0) == 0);
                lemma_sites_are_all(left, cte_index);
            }
        },
        _ => {
            lemma_sites_among_are_all(plan.children@, cte_index, plan.children@.len());
        },
    }
}

proof fn lemma_sites_among_are_all(plans: Seq<LogicalPlan>, cte_index: usize, n: nat)
    requires
        n <= plans.len(),
        forall|i: int| 0 <= i < n ==> has_sound_arity(#[trigger] plans[i]),
        !unconstrained_among(plans, cte_index, n),
    ensures
        count_among(plans, read_of(cte_index), n) == constraints_among(plans, cte_index, n).len(),
    decreases plans, n,
{
    if n > 0 {
        lemma_sites_among_are_all(plans, cte_index, (n - 1) as nat);
        lemma_sites_are_all(plans[n - 1], cte_index);
    }
}

/// A definition is bounded only where the joins that bound it are all that read
/// it: there are as many of them as reads in the whole plan, and each is part of
/// the plan and reads the definition on one side.
pub proof fn every_read_of_a_bounded_definition_is_a_site(plan: LogicalPlan, cte: MaterializedCTE)
    requires
        has_sound_arity(plan),
        plan.operator == LogicalOperator::MaterializedCTE(cte),
        is_bounded_root(plan),
    ensures
        cte.materialized is Default,
        sites_of(plan).len() > 0,
        count_parts(plan, read_of(cte.cte_index)) == sites_of(plan).len(),
        forall|i: int|
            0 <= i < sites_of(plan).len() ==> is_part(#[trigger] sites_of(plan)[i], plan)
                && sites_of(plan)[i].children@.len() == 2 && (read_of(cte.cte_index)(
                sites_of(plan)[i].children@[0],
            ) || read_of(cte.cte_index)(sites_of(plan)[i].children@[1])),
{
    lemma_sites_are_all(plan, cte.cte_index);
    assert forall|i: int| 0 <= i < sites_of(plan).len() implies is_part(
        #[trigger] sites_of(plan)[i],
        plan,
    ) && sites_of(plan)[i].children@.len() == 2 && (read_of(cte.cte_index)(
        sites_of(plan)[i].children@[0],
    ) || read_of(cte.cte_index)(sites_of(plan)[i].children@[1])) by {
        lemma_sites_read(plan, cte.cte_index, i);
    }
}

/// A row of a definition that matches some row on the other side of a join that
/// bounds it meets the demand of that join: where all conditions of the join are
/// true of the pair, every key column of the definition has the value that the
/// other row demands, and none of them is NULL. Each demand is computed from the
/// other side alone.
pub proof fn matching_rows_meet_the_demand(
    plan: LogicalPlan,
    cte: MaterializedCTE,
    i: int,
    join: ComparisonJoin,
    side: int,
    reference: CTERef,
    demand: JoinedDemand,
    value: spec_fn(ExpressionView) -> Option<int>,
    row: spec_fn(ColumnBinding) -> Option<int>,
)
    requires
        plan.operator == LogicalOperator::MaterializedCTE(cte),
        is_bounded_root(plan),
        0 <= i < sites_of(plan).len(),
        sites_of(plan)[i].operator == LogicalOperator::Join(Join::Comparison(join)),
        side == 0 || side == 1,
        sites_of(plan)[i].children@[side].operator == LogicalOperator::CTERef(reference),
        is_demand_of(demand, sites_of(plan)[i]),
        reads_columns(value, row),
        forall|k: int|
            0 <= k < join.conditions@.len() ==> (#[trigger] join.conditions@[k]).is_true_in(value),
    ensures
        join.join_type is Inner,
        demand.key_ordinals@.len() > 0,
        demand.expressions@.len() == demand.key_ordinals@.len(),
        reference.cte_index == cte.cte_index,
        demand.plan == sites_of(plan)[i].children@[1 - side],
        forall|k: int|
            0 <= k < demand.key_ordinals@.len() ==> meets_key(
                DemandKey {
                    ordinal: #[trigger] demand.key_ordinals@[k],
                    key_type: demand.key_types@[k],
                    expression: demand.expressions@[k],
                },
                reference.table_index,
                bindings_of(plan_columns(demand.plan)),
                value,
                row,
            ),
{
    let site = sites_of(plan)[i];
    lemma_sites_read(plan, cte.cte_index, i);
    let cte_is_left = side == 0;
    assert(direct_side(site) == Some((reference.cte_index, cte_is_left)));
    let others = bindings_of(plan_columns(site.children@[1 - side]));
    let keys = demand_keys(
        join.conditions@,
        cte_is_left,
        reference,
        others,
        join.conditions@.len(),
    )->0;
    let ordered = keys_by_column(keys, reference.column_types@.len());
    assert(join_keys(site) == Some(ordered));
    lemma_conditions_meet_keys(
        join.conditions@,
        cte_is_left,
        reference,
        others,
        join.conditions@.len(),
        value,
        row,
    );
    assert forall|k: int| 0 <= k < demand.key_ordinals@.len() implies meets_key(
        DemandKey {
            ordinal: #[trigger] demand.key_ordinals@[k],
            key_type: demand.key_types@[k],
            expression: demand.expressions@[k],
        },
        reference.table_index,
        bindings_of(plan_columns(demand.plan)),
        value,
        row,
    ) by {
        lemma_ordered_keys(keys, reference.column_types@.len(), k);
        let at = choose|at: int| 0 <= at < keys.len() && keys[at] == ordered[k];
        assert(meets_key(keys[at], reference.table_index, others, value, row));
    }
}

/// A demand that is evaluated again reads only stored or literal rows, filters
/// and projects them, and computes nothing that may fail or change.
pub proof fn replayed_operators_are_safe(plan: LogicalPlan, part: LogicalPlan)
    requires
        is_replay_safe(plan),
        is_part(part, plan),
    ensures
        part.operator is Get || part.operator is ExpressionGet || part.operator is EmptyResult
            || part.operator is Filter || part.operator is Projection,
        part.operator matches LogicalOperator::Get(get) ==> get.has_table && forall|k: int|
            0 <= k < get.runtime_filter_expressions@.len() ==> !reorder_fence(
                (#[trigger] get.runtime_filter_expressions@[k])@,
            ),
        part.operator matches LogicalOperator::Filter(filter) ==> forall|k: int|
            0 <= k < filter.expressions@.len() ==> !reorder_fence(
                (#[trigger] filter.expressions@[k])@,
            ),
        part.operator matches LogicalOperator::Projection(projection) ==> forall|k: int|
            0 <= k < projection.expressions@.len() ==> !reorder_fence(
                (#[trigger] projection.expressions@[k])@,
            ),
        part.operator matches LogicalOperator::ExpressionGet(get) ==> forall|j: int, k: int|
            0 <= j < get.rows@.len() && 0 <= k < get.rows@[j]@.len() ==> !reorder_fence(
                (#[trigger] get.rows@[j]@[k])@,
            ),
    decreases plan,
{
    if part == plan {
        match part.operator {
            LogicalOperator::Get(get) => {
                lemma_no_fence(get.runtime_filter_expressions@);
            },
            LogicalOperator::Filter(filter) => {
                lemma_no_fence(filter.expressions@);
            },
            LogicalOperator::Projection(projection) => {
                lemma_no_fence(projection.expressions@);
            },
            LogicalOperator::ExpressionGet(get) => {
                assert forall|j: int, k: int|
                    0 <= j < get.rows@.len() && 0 <= k < get.rows@[j]@.len() implies !reorder_fence(
                    (#[trigger] get.rows@[j]@[k])@,
                ) by {
                    lemma_no_fence(get.rows@[j]@);
                }
            },
            _ => {},
        }
    } else {
        let k = choose|k: int|
            #![trigger plan.children@[k]]
            0 <= k < plan.children@.len() && is_part(part, plan.children@[k]);
        replayed_operators_are_safe(plan.children@[k], part);
    }
}

proof fn lemma_no_fence(expressions: Seq<Expression>)
    requires
        !any_reorder_fence(views(expressions), expressions.len()),
    ensures
        forall|k: int|
            0 <= k < expressions.len() ==> !reorder_fence((#[trigger] expressions[k])@),
{
    lemma_any_reorder_fence(views(expressions), expressions.len());
    assert forall|k: int| 0 <= k < expressions.len() implies !reorder_fence(
        (#[trigger] expressions[k])@,
    ) by {
        assert(views(expressions)[k] == expressions[k]@);
        assert(!reorder_fence(views(expressions)[k]));
    }
}

/// Whether an operator itself gives the same rows whenever it is evaluated: it reads a
/// table or listed values, or filters or projects, and nothing that it evaluates may
/// fail or change.
pub open spec fn repeats_itself(operator: LogicalOperator) -> bool {
    &&& match operator {
        LogicalOperator::Get(get) => get.has_table,
        LogicalOperator::ExpressionGet(_) => true,
        LogicalOperator::EmptyResult => true,
        LogicalOperator::Filter(_) => true,
        LogicalOperator::Projection(_) => true,
        _ => false,
    }
    &&& forall|e: ExpressionView| #[trigger] evaluates(operator, e) ==> !has_part(e, calls_unstable())
}

proof fn lemma_stable_list(list: Seq<Expression>)
    ensures
        !any_reorder_fence(views(list), list.len()) <==> forall|e: ExpressionView| #[trigger]
            views(list).contains(e) ==> !has_part(e, calls_unstable()),
{
    lemma_any_reorder_fence(views(list), list.len());
    assert forall|e: ExpressionView| reorder_fence(e) == #[trigger] has_part(e, calls_unstable()) by {
        fences_call_unstable_functions(e);
    }
    if any_reorder_fence(views(list), list.len()) {
        let i = choose|i: int| 0 <= i < list.len() && reorder_fence(#[trigger] views(list)[i]);
        assert(views(list).contains(views(list)[i]));
        assert(has_part(views(list)[i], calls_unstable()));
    } else {
        assert forall|e: ExpressionView| #[trigger] views(list).contains(e) implies !has_part(
            e,
            calls_unstable(),
        ) by {
            let i = choose|i: int| 0 <= i < views(list).len() && views(list)[i] == e;
            assert(!reorder_fence(views(list)[i]));
        }
    }
}

/// A plan may be evaluated again exactly where each of its operators gives the same
/// rows whenever it is evaluated.
pub proof fn replay_is_safe_where_every_operator_repeats_itself(plan: LogicalPlan)
    ensures
        is_replay_safe(plan) <==> forall|part: LogicalPlan| #[trigger]
            is_part(part, plan) ==> repeats_itself(part.operator),
    decreases plan,
{
    assert forall|i: int| 0 <= i < plan.children@.len() implies (is_replay_safe(
        #[trigger] plan.children@[i],
    ) <==> forall|part: LogicalPlan| #[trigger]
        is_part(part, plan.children@[i]) ==> repeats_itself(part.operator)) by {
        replay_is_safe_where_every_operator_repeats_itself(plan.children@[i]);
    }
    lemma_operator_repeats(plan);
    assert(is_part(plan, plan));
    if is_replay_safe(plan) {
        assert forall|part: LogicalPlan| #[trigger] is_part(part, plan) implies repeats_itself(
            part.operator,
        ) by {
            if part != plan {
                let i = choose|i: int|
                    #![trigger plan.children@[i]]
                    0 <= i < plan.children@.len() && is_part(part, plan.children@[i]);
                assert(is_replay_safe(plan.children@[i]));
            }
        }
    }
    if forall|part: LogicalPlan| #[trigger] is_part(part, plan) ==> repeats_itself(part.operator) {
        assert forall|i: int|
            #![trigger plan.children@[i]]
            0 <= i < plan.children@.len() implies is_replay_safe(plan.children@[i]) by {
            assert forall|part: LogicalPlan| #[trigger]
                is_part(part, plan.children@[i]) implies repeats_itself(part.operator) by {
                assert(is_part(part, plan));
            }
        }
    }
}

proof fn lemma_operator_repeats(plan: LogicalPlan)
    ensures
        is_replay_safe(plan) <==> repeats_itself(plan.operator) && forall|i: int|
            #![trigger plan.children@[i]]
            0 <= i < plan.children@.len() ==> is_replay_safe(plan.children@[i]),
{
    match plan.operator {
        LogicalOperator::Get(get) => {
            lemma_stable_list(get.runtime_filter_expressions@);
            assert forall|e: ExpressionView| #[trigger] evaluates(plan.operator, e) == views(
                get.runtime_filter_expressions@,
            ).contains(e) by {}
            assert forall|e: ExpressionView| #[trigger]
                views(get.runtime_filter_expressions@).contains(e) == evaluates(plan.operator, e) by {}
        },
        LogicalOperator::Filter(filter) => {
            lemma_stable_list(filter.expressions@);
            assert forall|e: ExpressionView| #[trigger] evaluates(plan.operator, e) == views(
                filter.expressions@,
            ).contains(e) by {}
            assert forall|e: ExpressionView| #[trigger]
                views(filter.expressions@).contains(e) == evaluates(plan.operator, e) by {}
        },
        LogicalOperator::Projection(projection) => {
            lemma_stable_list(projection.expressions@);
            assert forall|e: ExpressionView| #[trigger] evaluates(plan.operator, e) == views(
                projection.expressions@,
            ).contains(e) by {}
            assert forall|e: ExpressionView| #[trigger]
                views(projection.expressions@).contains(e) == evaluates(plan.operator, e) by {}
        },
        LogicalOperator::ExpressionGet(get) => {
            assert forall|i: int| 0 <= i < get.rows@.len() implies (!any_reorder_fence(
                views((#[trigger] get.rows@[i])@),
                get.rows@[i]@.len(),
            ) <==> forall|e: ExpressionView| #[trigger]
                views(get.rows@[i]@).contains(e) ==> !has_part(e, calls_unstable())) by {
                lemma_stable_list(get.rows@[i]@);
            }
            if repeats_itself(plan.operator) {
                assert forall|i: int| 0 <= i < get.rows@.len() implies !any_reorder_fence(
                    views((#[trigger] get.rows@[i])@),
                    get.rows@[i]@.len(),
                ) by {
                    assert forall|e: ExpressionView| #[trigger]
                        views(get.rows@[i]@).contains(e) implies !has_part(
                        e,
                        calls_unstable(),
                    ) by {
                        assert(evaluates(plan.operator, e));
                    }
                }
            }
        },
        _ => {
            assert forall|e: ExpressionView| !#[trigger] evaluates(plan.operator, e) || !(
            plan.operator is EmptyResult) by {}
        },
    }
}

/// Whether a condition equates a column of a read, on the given side, with something of
/// its type that the other side computes by itself.
pub open spec fn equates_read_column(
    condition: JoinCondition,
    cte_is_left: bool,
    column: ColumnBinding,
    demanded: Expression,
    reference: CTERef,
    others: Seq<ColumnBinding>,
) -> bool {
    &&& condition.comparison is Equal
    &&& if cte_is_left {
        condition.left matches Expression::ColumnRef(c) && c.depth == 0 && c.binding == column
            && condition.right == demanded
    } else {
        condition.right matches Expression::ColumnRef(c) && c.depth == 0 && c.binding == column
            && condition.left == demanded
    }
    &&& column.table_index == reference.table_index
    &&& column.column_index < reference.column_types@.len()
    &&& result_type(demanded@) == reference.column_types@[column.column_index as int]
    &&& exists|b: ColumnBinding| #[trigger] mentions(demanded@, b)
    &&& forall|b: ColumnBinding| #[trigger] mentions(demanded@, b) ==> others.contains(b)
    &&& !has_part(demanded@, calls_unstable())
}

/// Whether a column with what it is equated with is among the keys.
pub open spec fn lists_key(keys: Seq<DemandKey>, ordinal: usize, demanded: Expression) -> bool {
    exists|k: int|
        0 <= k < keys.len() && (#[trigger] keys[k]).ordinal == ordinal && keys[k].expression
            == demanded
}

/// Every column of a read that a condition equates with something of the other side
/// becomes a key of the demand, with what it is equated with.
pub proof fn equated_columns_are_demanded(
    conditions: Seq<JoinCondition>,
    cte_is_left: bool,
    reference: CTERef,
    others: Seq<ColumnBinding>,
    n: nat,
    i: int,
    column: ColumnBinding,
    demanded: Expression,
)
    requires
        0 <= i < n <= conditions.len(),
        equates_read_column(conditions[i], cte_is_left, column, demanded, reference, others),
        demand_keys(conditions, cte_is_left, reference, others, n) is Some,
    ensures
        lists_key(
            demand_keys(conditions, cte_is_left, reference, others, n)->0,
            column.column_index,
            demanded,
        ),
    decreases n,
{
    let keys = demand_keys(conditions, cte_is_left, reference, others, n)->0;
    let before = demand_keys(conditions, cte_is_left, reference, others, (n - 1) as nat)->0;
    if i == n - 1 {
        fences_call_unstable_functions(demanded@);
        assert(is_demand(conditions[i], cte_is_left, reference.table_index, others));
        let k = before.len() as int;
        assert(keys[k].ordinal == column.column_index);
    } else {
        equated_columns_are_demanded(
            conditions,
            cte_is_left,
            reference,
            others,
            (n - 1) as nat,
            i,
            column,
            demanded,
        );
        let k = choose|k: int|
            0 <= k < before.len() && (#[trigger] before[k]).ordinal == column.column_index
                && before[k].expression == demanded;
        assert(keys[k] == before[k]);
    }
}

} // verus!
