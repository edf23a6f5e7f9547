//! Recognizing a shared `UNION ALL` whose readers each want one branch.
//!
//! Every branch has its own constant in some column, and every reader fixes
//! that column to one of these constants.

use vstd::prelude::*;

use crate::expression::analysis::{lemma_view_children, views};
use crate::expression::equality::{fixed_column_value, fixed_value, value_views};
use crate::expression::{Expression, ExpressionView};
use crate::index_list::{increasing, increasing_list_is_unique, sorted_distinct};
use crate::layout::{bindings_of, plan_columns};
use crate::operator::{DependentJoinKind, Join, LogicalOperator};
use crate::plan::{referents, LogicalPlan};
use crate::types::{CTEMaterialize, ColumnBinding, ConjunctionType, JoinType, SetOpType};
use crate::value::{Value, ValueView};

verus! {

/// The branches of nested `UNION ALL`s, from left to right.
pub open spec fn union_branches(plan: LogicalPlan) -> Seq<LogicalPlan>
    decreases plan,
{
    match plan.operator {
        LogicalOperator::SetOperation(set) => if set.setop_type is Union && set.setop_all
            && plan.children@.len() == 2 {
            union_branches(plan.children@[0]) + union_branches(plan.children@[1])
        } else {
            seq![plan]
        },
        _ => seq![plan],
    }
}

fn is_union_all(plan: &LogicalPlan) -> (r: bool)
    ensures
        r == (plan.children@.len() == 2 && (plan.operator matches LogicalOperator::SetOperation(set)
            && set.setop_type is Union && set.setop_all)),
{
    if plan.children.len() != 2 {
        return false;
    }
    match &plan.operator {
        LogicalOperator::SetOperation(set) => match set.setop_type {
            SetOpType::Union => set.setop_all,
            _ => false,
        },
        _ => false,
    }
}

fn collect_union_all<'a>(plan: &'a LogicalPlan, branches: &mut Vec<&'a LogicalPlan>)
    ensures
        referents(final(branches)@) == referents(old(branches)@) + union_branches(*plan),
    decreases plan,
{
    let ghost start = referents(branches@);
    if is_union_all(plan) {
        collect_union_all(&plan.children[0], branches);
        collect_union_all(&plan.children[1], branches);
        assert(start + union_branches(plan.children@[0]) + union_branches(plan.children@[1])
            =~= start + union_branches(*plan));
    } else {
        branches.push(plan);
        assert(referents(branches@) =~= start + seq![*plan]);
    }
}

/// Takes nested `UNION ALL`s apart into their branches.
pub fn consume_union_all(plan: LogicalPlan, branches: &mut Vec<LogicalPlan>)
    ensures
        final(branches)@ == old(branches)@ + union_branches(plan),
    decreases plan,
{
    let ghost start = branches@;
    let ghost whole = plan;
    if is_union_all(&plan) {
        let LogicalPlan { stats: _, operator: _, children } = plan;
        let mut children = children;
        let right = children.pop();
        let left = children.pop();
        if let (Some(left), Some(right)) = (left, right) {
            consume_union_all(left, branches);
            consume_union_all(right, branches);
        }
        assert(start + union_branches(whole.children@[0]) + union_branches(whole.children@[1])
            =~= start + union_branches(whole));
    } else {
        branches.push(plan);
        assert(branches@ =~= start + seq![whole]);
    }
}

/// Whether a join type can put NULLs in place of the rows of its left and
/// right input.
pub open spec fn null_supplying(join_type: JoinType) -> (bool, bool) {
    match join_type {
        JoinType::Left => (false, true),
        JoinType::Single => (false, true),
        JoinType::Right => (true, false),
        JoinType::Outer => (true, true),
        _ => (false, false),
    }
}

pub fn join_null_supplying_inputs(join_type: JoinType) -> (r: (bool, bool))
    ensures
        r == null_supplying(join_type),
{
    match join_type {
        JoinType::Left => (false, true),
        JoinType::Single => (false, true),
        JoinType::Right => (true, false),
        JoinType::Outer => (true, true),
        _ => (false, false),
    }
}

pub open spec fn type_of_join(join: Join) -> JoinType {
    match join {
        Join::Comparison(join) => join.join_type,
        Join::Any(join) => join.join_type,
        Join::Cross(_) => JoinType::Inner,
    }
}

/// Whether an operator can put NULLs in place of the rows of its inputs. A
/// scalar subquery without rows gives one NULL.
pub open spec fn supplied_nulls(operator: LogicalOperator) -> (bool, bool) {
    match operator {
        LogicalOperator::Join(join) => null_supplying(type_of_join(join)),
        LogicalOperator::DependentJoin(kind) => match kind {
            DependentJoinKind::Scalar => (false, true),
            DependentJoinKind::Mark => (false, false),
            DependentJoinKind::Lateral { join_type } => null_supplying(join_type),
        },
        _ => (false, false),
    }
}

fn nulls_of_inputs(operator: &LogicalOperator) -> (r: (bool, bool))
    ensures
        r == supplied_nulls(*operator),
{
    match operator {
        LogicalOperator::Join(Join::Comparison(join)) => join_null_supplying_inputs(join.join_type),
        LogicalOperator::Join(Join::Any(join)) => join_null_supplying_inputs(join.join_type),
        LogicalOperator::Join(Join::Cross(_)) => (false, false),
        LogicalOperator::DependentJoin(kind) => match kind {
            DependentJoinKind::Scalar => (false, true),
            DependentJoinKind::Mark => (false, false),
            DependentJoinKind::Lateral { join_type } => join_null_supplying_inputs(*join_type),
        },
        _ => (false, false),
    }
}

/// Whether the input at position `i` can be replaced by NULLs.
pub open spec fn input_supplies_null(operator: LogicalOperator, i: int) -> bool {
    (i == 0 && supplied_nulls(operator).0) || (i == 1 && supplied_nulls(operator).1)
}

/// The readers of a definition; none where a reader lies below something that
/// can replace its rows by NULLs.
pub open spec fn safe_readers(plan: LogicalPlan, cte_index: usize, below_nulls: bool) -> Option<
    Seq<usize>,
>
    decreases plan, 0nat,
{
    match plan.operator {
        LogicalOperator::CTERef(reference) => if reference.cte_index != cte_index {
            Some(Seq::empty())
        } else if below_nulls {
            None
        } else {
            Some(seq![reference.table_index])
        },
        _ => safe_among(plan.operator, plan.children@, cte_index, below_nulls, plan.children@.len()),
    }
}

pub open spec fn safe_among(
    operator: LogicalOperator,
    plans: Seq<LogicalPlan>,
    cte_index: usize,
    below_nulls: bool,
    n: nat,
) -> Option<Seq<usize>>
    decreases plans, n,
{
    if n == 0 || n > plans.len() {
        Some(Seq::empty())
    } else {
        match safe_among(operator, plans, cte_index, below_nulls, (n - 1) as nat) {
            None => None,
            Some(before) => match safe_readers(
                plans[n - 1],
                cte_index,
                below_nulls || input_supplies_null(operator, n - 1),
            ) {
                Some(more) => Some(before + more),
                None => None,
            },
        }
    }
}

proof fn lemma_safe_stays_none(
    operator: LogicalOperator,
    plans: Seq<LogicalPlan>,
    cte_index: usize,
    below_nulls: bool,
    n: nat,
    m: nat,
)
    requires
        n <= m <= plans.len(),
        safe_among(operator, plans, cte_index, below_nulls, n) is None,
    ensures
        safe_among(operator, plans, cte_index, below_nulls, m) is None,
    decreases m,
{
    if n < m {
        lemma_safe_stays_none(operator, plans, cte_index, below_nulls, n, (m - 1) as nat);
    }
}

/// Collects the readers of a definition and tells whether none lies below
/// something that can replace its rows by NULLs.
fn collect_rewrite_safe_reference_tables(
    plan: &LogicalPlan,
    cte_index: usize,
    in_null_supplying_input: bool,
    readers: &mut Vec<usize>,
) -> (r: bool)
    ensures
        match safe_readers(*plan, cte_index, in_null_supplying_input) {
            Some(more) => r && final(readers)@ == old(readers)@ + more,
            None => !r,
        },
    decreases plan,
{
    let ghost start = readers@;
    if let LogicalOperator::CTERef(reference) = &plan.operator {
        if reference.cte_index != cte_index {
            assert(start + Seq::<usize>::empty() =~= start);
            return true;
        }
        if in_null_supplying_input {
            return false;
        }
        readers.push(reference.table_index);
        assert(readers@ =~= start + seq![reference.table_index]);
        return true;
    }
    let (left_nulls, right_nulls) = nulls_of_inputs(&plan.operator);
    let mut i: usize = 0;
    assert(start + Seq::<usize>::empty() =~= start);
    while i < plan.children.len()
        invariant
            i <= plan.children@.len(),
            !(plan.operator is CTERef),
            (left_nulls, right_nulls) == supplied_nulls(plan.operator),
            safe_among(
                plan.operator,
                plan.children@,
                cte_index,
                in_null_supplying_input,
                i as nat,
            ) is Some,
            readers@ == start + safe_among(
                plan.operator,
                plan.children@,
                cte_index,
                in_null_supplying_input,
                i as nat,
            )->0,
        decreases plan.children@.len() - i,
    {
        let below = in_null_supplying_input || (i == 0 && left_nulls) || (i == 1 && right_nulls);
        let ghost held = readers@;
        let ghost before = safe_among(
            plan.operator,
            plan.children@,
            cte_index,
            in_null_supplying_input,
            i as nat,
        )->0;
        if !collect_rewrite_safe_reference_tables(&plan.children[i], cte_index, below, readers) {
            proof {
                lemma_safe_stays_none(
                    plan.operator,
                    plan.children@,
                    cte_index,
                    in_null_supplying_input,
                    (i + 1) as nat,
                    plan.children@.len(),
                );
            }
            return false;
        }
        proof {
            let more = safe_readers(plan.children@[i as int], cte_index, below)->0;
            assert(start + before + more =~= start + (before + more));
        }
        i = i + 1;
    }
    true
}

/// The readers of a definition with a filter right above them.
pub open spec fn filtered_readers(plan: LogicalPlan, cte_index: usize) -> Seq<usize>
    decreases plan, 0nat,
{
    if plan.operator is Filter && plan.children@.len() > 0 && plan.children@[0].operator is CTERef {
        match plan.children@[0].operator {
            LogicalOperator::CTERef(reference) => if reference.cte_index == cte_index {
                seq![reference.table_index]
            } else {
                Seq::empty()
            },
            _ => Seq::empty(),
        }
    } else {
        filtered_among(plan.children@, cte_index, plan.children@.len())
    }
}

pub open spec fn filtered_among(plans: Seq<LogicalPlan>, cte_index: usize, n: nat) -> Seq<usize>
    decreases plans, n,
{
    if n == 0 || n > plans.len() {
        Seq::empty()
    } else {
        filtered_among(plans, cte_index, (n - 1) as nat) + filtered_readers(
            plans[n - 1],
            cte_index,
        )
    }
}

fn collect_directly_filtered_reference_tables(
    plan: &LogicalPlan,
    cte_index: usize,
    readers: &mut Vec<usize>,
)
    ensures
        final(readers)@ == old(readers)@ + filtered_readers(*plan, cte_index),
    decreases plan,
{
    let ghost start = readers@;
    if let LogicalOperator::Filter(_) = &plan.operator {
        if plan.children.len() > 0 {
            if let LogicalOperator::CTERef(reference) = &plan.children[0].operator {
                if reference.cte_index == cte_index {
                    readers.push(reference.table_index);
                    assert(readers@ =~= start + seq![reference.table_index]);
                } else {
                    assert(start + Seq::<usize>::empty() =~= start);
                }
                return ;
            }
        }
    }
    let mut i: usize = 0;
    assert(start + filtered_among(plan.children@, cte_index, 0) =~= start);
    while i < plan.children.len()
        invariant
            i <= plan.children@.len(),
            readers@ == start + filtered_among(plan.children@, cte_index, i as nat),
        decreases plan.children@.len() - i,
    {
        collect_directly_filtered_reference_tables(&plan.children[i], cte_index, readers);
        assert(start + filtered_among(plan.children@, cte_index, i as nat) + filtered_readers(
            plan.children@[i as int],
            cte_index,
        ) =~= start + filtered_among(plan.children@, cte_index, (i + 1) as nat));
        i = i + 1;
    }
}

/// The columns that an expression fixes to a literal when it holds.
pub open spec fn fixed_columns(e: ExpressionView) -> Seq<(ColumnBinding, ValueView)>
    decreases e, 0nat,
{
    match e {
        ExpressionView::Conjunction(ConjunctionType::And, children) => fixed_among(
            children,
            children.len(),
        ),
        _ => match fixed_value(e) {
            Some(pair) => seq![pair],
            None => Seq::empty(),
        },
    }
}

pub open spec fn fixed_among(children: Seq<ExpressionView>, n: nat) -> Seq<
    (ColumnBinding, ValueView),
>
    decreases children, n,
{
    if n == 0 || n > children.len() {
        Seq::empty()
    } else {
        fixed_among(children, (n - 1) as nat) + fixed_columns(children[n - 1])
    }
}

/// The columns that an operator itself fixes.
pub open spec fn own_columns(operator: LogicalOperator) -> Seq<(ColumnBinding, ValueView)> {
    match operator {
        LogicalOperator::Filter(filter) => fixed_among(
            views(filter.expressions@),
            filter.expressions@.len(),
        ),
        _ => Seq::empty(),
    }
}

/// The columns that the filters of a plan fix.
pub open spec fn filtered_columns(plan: LogicalPlan) -> Seq<(ColumnBinding, ValueView)>
    decreases plan, 0nat,
{
    own_columns(plan.operator) + filtered_columns_among(plan.children@, plan.children@.len())
}

pub open spec fn filtered_columns_among(plans: Seq<LogicalPlan>, n: nat) -> Seq<
    (ColumnBinding, ValueView),
>
    decreases plans, n,
{
    if n == 0 || n > plans.len() {
        Seq::empty()
    } else {
        filtered_columns_among(plans, (n - 1) as nat) + filtered_columns(plans[n - 1])
    }
}

/// What a list of fixed columns denotes.
pub open spec fn pairs_view(pairs: Seq<(ColumnBinding, Value)>) -> Seq<(ColumnBinding, ValueView)> {
    pairs.map_values(|p: (ColumnBinding, Value)| (p.0, p.1@))
}

fn collect_conjunctive_equalities(e: &Expression, pairs: &mut Vec<(ColumnBinding, Value)>)
    ensures
        pairs_view(final(pairs)@) == pairs_view(old(pairs)@) + fixed_columns(e@),
    decreases e,
{
    let ghost start = pairs_view(pairs@);
    if let Expression::Conjunction(conjunction) = e {
        proof {
            lemma_view_children(*e);
        }
        if conjunction.conjunction_type == ConjunctionType::And {
            collect_list_equalities(&conjunction.children, pairs);
            return ;
        }
    }
    match fixed_column_value(e) {
        Some((binding, value)) => {
            let ghost denoted = value@;
            pairs.push((binding, value));
            assert(pairs_view(pairs@) =~= start + seq![(binding, denoted)]);
        },
        None => {
            assert(start + Seq::<(ColumnBinding, ValueView)>::empty() =~= start);
        },
    }
}

fn collect_list_equalities(expressions: &Vec<Expression>, pairs: &mut Vec<(ColumnBinding, Value)>)
    ensures
        pairs_view(final(pairs)@) == pairs_view(old(pairs)@) + fixed_among(
            views(expressions@),
            expressions@.len(),
        ),
    decreases expressions,
{
    let ghost start = pairs_view(pairs@);
    let ghost all = views(expressions@);
    let mut i: usize = 0;
    assert(start + fixed_among(all, 0) =~= start);
    while i < expressions.len()
        invariant
            i <= expressions@.len(),
            all == views(expressions@),
            pairs_view(pairs@) == start + fixed_among(all, i as nat),
        decreases expressions@.len() - i,
    {
        collect_conjunctive_equalities(&expressions[i], pairs);
        assert(all[i as int] == expressions@[i as int]@);
        assert(start + fixed_among(all, i as nat) + fixed_columns(all[i as int]) =~= start
            + fixed_among(all, (i + 1) as nat));
        i = i + 1;
    }
}

fn collect_filter_equalities(plan: &LogicalPlan, pairs: &mut Vec<(ColumnBinding, Value)>)
    ensures
        pairs_view(final(pairs)@) == pairs_view(old(pairs)@) + filtered_columns(*plan),
    decreases plan,
{
    let ghost start = pairs_view(pairs@);
    let ghost own = own_columns(plan.operator);
    if let LogicalOperator::Filter(filter) = &plan.operator {
        collect_list_equalities(&filter.expressions, pairs);
    } else {
        assert(start + own =~= start);
    }
    let mut i: usize = 0;
    assert(start + own + filtered_columns_among(plan.children@, 0) =~= start + own);
    while i < plan.children.len()
        invariant
            i <= plan.children@.len(),
            pairs_view(pairs@) == start + own + filtered_columns_among(plan.children@, i as nat),
        decreases plan.children@.len() - i,
    {
        collect_filter_equalities(&plan.children[i], pairs);
        assert(start + own + filtered_columns_among(plan.children@, i as nat) + filtered_columns(
            plan.children@[i as int],
        ) =~= start + own + filtered_columns_among(plan.children@, (i + 1) as nat));
        i = i + 1;
    }
    assert(start + own + filtered_columns_among(plan.children@, i as nat) =~= start
        + filtered_columns(*plan));
}

/// The literal that all pairs for a column agree on.
pub open spec fn agreed_value(
    pairs: Seq<(ColumnBinding, ValueView)>,
    binding: ColumnBinding,
    n: nat,
) -> Option<Option<ValueView>>
    decreases n,
{
    if n == 0 {
        Some(None)
    } else {
        match agreed_value(pairs, binding, (n - 1) as nat) {
            None => None,
            Some(before) => if pairs[n - 1].0 != binding {
                Some(before)
            } else {
                match before {
                    None => Some(Some(pairs[n - 1].1)),
                    Some(value) => if value == pairs[n - 1].1 {
                        Some(before)
                    } else {
                        None
                    },
                }
            },
        }
    }
}

/// The literal that a column is fixed to, where there is one and no other.
pub open spec fn fixed_to(pairs: Seq<(ColumnBinding, ValueView)>, binding: ColumnBinding) -> Option<
    ValueView,
> {
    match agreed_value(pairs, binding, pairs.len()) {
        Some(value) => value,
        None => None,
    }
}

proof fn lemma_agreed_stays_none(
    pairs: Seq<(ColumnBinding, ValueView)>,
    binding: ColumnBinding,
    n: nat,
    m: nat,
)
    requires
        n <= m,
        agreed_value(pairs, binding, n) is None,
    ensures
        agreed_value(pairs, binding, m) is None,
    decreases m,
{
    if n < m {
        lemma_agreed_stays_none(pairs, binding, n, (m - 1) as nat);
    }
}

fn find_fixed(pairs: &Vec<(ColumnBinding, Value)>, binding: ColumnBinding) -> (r: Option<usize>)
    ensures
        match r {
            Some(at) => at < pairs@.len() && fixed_to(pairs_view(pairs@), binding) == Some(
                pairs@[at as int].1@,
            ),
            None => fixed_to(pairs_view(pairs@), binding) is None,
        },
{
    let ghost all = pairs_view(pairs@);
    let mut found: Option<usize> = None;
    let mut i: usize = 0;
    while i < pairs.len()
        invariant
            i <= pairs@.len(),
            all == pairs_view(pairs@),
            match found {
                Some(at) => at < i && agreed_value(all, binding, i as nat) == Some(
                    Some(pairs@[at as int].1@),
                ),
                None => agreed_value(all, binding, i as nat) == Some(None::<ValueView>),
            },
        decreases pairs@.len() - i,
    {
        assert(all[i as int] == (pairs@[i as int].0, pairs@[i as int].1@));
        if pairs[i].0 == binding {
            match found {
                None => {
                    found = Some(i);
                },
                Some(at) => {
                    if !pairs[at].1.same(&pairs[i].1) {
                        proof {
                            lemma_agreed_stays_none(all, binding, (i + 1) as nat, all.len());
                        }
                        return None;
                    }
                },
            }
        }
        i = i + 1;
    }
    found
}

/// The first position of a column.
pub open spec fn position_of(bindings: Seq<ColumnBinding>, binding: ColumnBinding, from: nat) -> Option<
    nat,
>
    decreases bindings.len() - from,
{
    if from >= bindings.len() {
        None
    } else if bindings[from as int] == binding {
        Some(from)
    } else {
        position_of(bindings, binding, from + 1)
    }
}

fn find_position(bindings: &Vec<ColumnBinding>, binding: ColumnBinding) -> (r: Option<usize>)
    ensures
        match r {
            Some(at) => position_of(bindings@, binding, 0) == Some(at as nat),
            None => position_of(bindings@, binding, 0) is None,
        },
{
    let mut i: usize = 0;
    while i < bindings.len()
        invariant
            i <= bindings@.len(),
            position_of(bindings@, binding, 0) == position_of(bindings@, binding, i as nat),
        decreases bindings@.len() - i,
    {
        if bindings[i] == binding {
            return Some(i);
        }
        i = i + 1;
    }
    None
}

/// The expression behind a column of a projection, or of the groups of an
/// aggregate.
pub open spec fn column_source(plan: LogicalPlan, ordinal: nat) -> Option<Expression> {
    let columns = plan_columns(plan);
    if ordinal >= columns.len() || plan.children@.len() != 1 {
        None
    } else {
        let binding = columns[ordinal as int].binding;
        match plan.operator {
            LogicalOperator::Projection(projection) => if binding.table_index
                == projection.table_index && binding.column_index < projection.expressions@.len() {
                Some(projection.expressions@[binding.column_index as int])
            } else {
                None
            },
            LogicalOperator::Aggregate(aggregate) => if binding.table_index
                == aggregate.group_index && binding.column_index < aggregate.groups@.len() {
                Some(aggregate.groups@[binding.column_index as int])
            } else {
                None
            },
            _ => None,
        }
    }
}

/// The literal that all rows of a plan have in a column, as far as the plan
/// shows it.
pub open spec fn constant_column(plan: LogicalPlan, ordinal: nat) -> Option<ValueView>
    decreases plan,
{
    match column_source(plan, ordinal) {
        None => None,
        Some(e) => match e {
            Expression::Constant(constant) => if constant.value is Null {
                None
            } else {
                Some(constant.value@)
            },
            Expression::ColumnRef(column) => if column.depth != 0 || plan.children@.len() != 1 {
                None
            } else {
                match position_of(
                    bindings_of(plan_columns(plan.children@[0])),
                    column.binding,
                    0,
                ) {
                    Some(position) => constant_column(plan.children@[0], position),
                    None => None,
                }
            },
            _ => None,
        },
    }
}

/// The literal that all rows of a plan have in a column.
pub fn constant_output(plan: &LogicalPlan, ordinal: usize) -> (r: Option<Value>)
    ensures
        match r {
            Some(value) => constant_column(*plan, ordinal as nat) == Some(value@),
            None => constant_column(*plan, ordinal as nat) is None,
        },
    decreases plan,
{
    let layout = plan.output_layout();
    if ordinal >= layout.columns.len() || plan.children.len() != 1 {
        return None;
    }
    let binding = layout.columns[ordinal].binding;
    let e = match &plan.operator {
        LogicalOperator::Projection(projection) => {
            if binding.table_index != projection.table_index || binding.column_index
                >= projection.expressions.len() {
                return None;
            }
            &projection.expressions[binding.column_index]
        },
        LogicalOperator::Aggregate(aggregate) => {
            if binding.table_index != aggregate.group_index || binding.column_index
                >= aggregate.groups.len() {
                return None;
            }
            &aggregate.groups[binding.column_index]
        },
        _ => {
            return None;
        },
    };
    assert(column_source(*plan, ordinal as nat) == Some(*e));
    match e {
        Expression::Constant(constant) => if constant.value.is_null() {
            None
        } else {
            Some(constant.value.copy())
        },
        Expression::ColumnRef(column) => {
            if column.depth != 0 {
                return None;
            }
            match find_position(&plan.children[0].get_column_bindings(), column.binding) {
                Some(position) => constant_output(&plan.children[0], position),
                None => None,
            }
        },
        _ => None,
    }
}

/// How readers are distributed over the branches of a definition.
#[derive(Debug)]
pub struct Partitioning {
    /// Position of the column that tells the branches apart.
    pub discriminator_ordinal: usize,
    /// The literal of each branch.
    pub branch_values: Vec<Value>,
    /// Each reader with the position of its branch, in order of the readers.
    pub reference_partitions: Vec<(usize, usize)>,
    /// How many readers each branch has.
    pub reference_counts: Vec<usize>,
}

pub struct PartitionView {
    pub ordinal: nat,
    pub values: Seq<ValueView>,
    pub assigned: Seq<(usize, usize)>,
    pub counts: Seq<usize>,
}

impl View for Partitioning {
    type V = PartitionView;

    open spec fn view(&self) -> PartitionView {
        PartitionView {
            ordinal: self.discriminator_ordinal as nat,
            values: value_views(self.branch_values@),
            assigned: self.reference_partitions@,
            counts: self.reference_counts@,
        }
    }
}

/// The literals that the first `n` branches have in a column.
pub open spec fn literals_at(branches: Seq<LogicalPlan>, ordinal: nat, n: nat) -> Option<
    Seq<ValueView>,
>
    decreases n,
{
    if n == 0 {
        Some(Seq::empty())
    } else {
        match (
            literals_at(branches, ordinal, (n - 1) as nat),
            constant_column(branches[n - 1], ordinal),
        ) {
            (Some(before), Some(value)) => Some(before.push(value)),
            _ => None,
        }
    }
}

/// The first position of a literal.
pub open spec fn literal_position(values: Seq<ValueView>, value: ValueView, from: nat) -> Option<nat>
    decreases values.len() - from,
{
    if from >= values.len() {
        None
    } else if values[from as int] == value {
        Some(from)
    } else {
        literal_position(values, value, from + 1)
    }
}

/// The branch that a reader asks for.
pub open spec fn branch_of(
    reader: usize,
    pairs: Seq<(ColumnBinding, ValueView)>,
    values: Seq<ValueView>,
    ordinal: nat,
) -> Option<nat> {
    match fixed_to(
        pairs,
        ColumnBinding { table_index: reader, column_index: ordinal as usize },
    ) {
        Some(value) => literal_position(values, value, 0),
        None => None,
    }
}

/// The branches that the first `n` readers ask for.
pub open spec fn assignment(
    readers: Seq<usize>,
    pairs: Seq<(ColumnBinding, ValueView)>,
    values: Seq<ValueView>,
    ordinal: nat,
    n: nat,
) -> Option<Seq<(usize, usize)>>
    decreases n,
{
    if n == 0 {
        Some(Seq::empty())
    } else {
        match (
            assignment(readers, pairs, values, ordinal, (n - 1) as nat),
            branch_of(readers[n - 1], pairs, values, ordinal),
        ) {
            (Some(before), Some(branch)) => Some(before.push((readers[n - 1], branch as usize))),
            _ => None,
        }
    }
}

/// How many of the first `n` readers ask for a branch.
pub open spec fn readers_of(assigned: Seq<(usize, usize)>, branch: int, n: nat) -> nat
    decreases n,
{
    if n == 0 {
        0
    } else if assigned[n - 1].1 == branch {
        readers_of(assigned, branch, (n - 1) as nat) + 1
    } else {
        readers_of(assigned, branch, (n - 1) as nat)
    }
}

/// The partitioning by one column: the branches have different literals in it,
/// each reader fixes it to one of these, and every branch has a reader.
pub open spec fn partition_at(
    branches: Seq<LogicalPlan>,
    readers: Seq<usize>,
    pairs: Seq<(ColumnBinding, ValueView)>,
    ordinal: nat,
) -> Option<PartitionView> {
    match literals_at(branches, ordinal, branches.len()) {
        None => None,
        Some(values) => if !values.no_duplicates() {
            None
        } else {
            match assignment(readers, pairs, values, ordinal, readers.len()) {
                None => None,
                Some(assigned) => if forall|b: int|
                    0 <= b < branches.len() ==> #[trigger] readers_of(
                        assigned,
                        b,
                        assigned.len(),
                    ) > 0 {
                    Some(
                        PartitionView {
                            ordinal,
                            values,
                            assigned,
                            counts: Seq::new(
                                branches.len(),
                                |b: int| readers_of(assigned, b, assigned.len()) as usize,
                            ),
                        },
                    )
                } else {
                    None
                },
            }
        },
    }
}

/// The partitioning by the first column from `from` on that allows one.
pub open spec fn first_partition(
    branches: Seq<LogicalPlan>,
    readers: Seq<usize>,
    pairs: Seq<(ColumnBinding, ValueView)>,
    width: nat,
    from: nat,
) -> Option<PartitionView>
    decreases width - from,
{
    if from >= width {
        None
    } else {
        match partition_at(branches, readers, pairs, from) {
            Some(found) => Some(found),
            None => first_partition(branches, readers, pairs, width, from + 1),
        }
    }
}

/// The increasing list of a set of indices.
pub open spec fn listing(indices: Set<usize>) -> Seq<usize> {
    choose|s: Seq<usize>| increasing(s) && #[trigger] s.to_set() == indices
}

proof fn lemma_listing(s: Seq<usize>)
    requires
        increasing(s),
    ensures
        listing(s.to_set()) == s,
{
    let t = listing(s.to_set());
    assert(increasing(t) && t.to_set() == s.to_set());
    increasing_list_is_unique(t, s);
}

/// The partitioning of a definition at the root of a plan that is shared by
/// default. It has at least two branches and two readers, each with a filter
/// right above it and none below something that can replace its rows by NULLs.
pub open spec fn recognized(plan: LogicalPlan) -> Option<PartitionView> {
    match plan.operator {
        LogicalOperator::MaterializedCTE(cte) => if !(cte.materialized is Default)
            || plan.children@.len() != 2 {
            None
        } else {
            let branches = union_branches(plan.children@[0]);
            let reader = plan.children@[1];
            match safe_readers(reader, cte.cte_index, false) {
                None => None,
                Some(readers) => if branches.len() < 2 || readers.len() < 2
                    || filtered_readers(reader, cte.cte_index).to_set() != readers.to_set() {
                    None
                } else {
                    first_partition(
                        branches,
                        listing(readers.to_set()),
                        filtered_columns(reader),
                        cte.column_types@.len(),
                        0,
                    )
                },
            }
        },
        _ => None,
    }
}

fn literals_of(branches: &Vec<&LogicalPlan>, ordinal: usize) -> (r: Option<Vec<Value>>)
    ensures
        match r {
            Some(values) => literals_at(referents(branches@), ordinal as nat, branches@.len())
                == Some(value_views(values@)),
            None => literals_at(referents(branches@), ordinal as nat, branches@.len()) is None,
        },
{
    let ghost all = referents(branches@);
    let mut values: Vec<Value> = Vec::new();
    assert(value_views(values@) =~= Seq::empty());
    let mut i: usize = 0;
    while i < branches.len()
        invariant
            i <= branches@.len(),
            all == referents(branches@),
            literals_at(all, ordinal as nat, i as nat) == Some(value_views(values@)),
        decreases branches@.len() - i,
    {
        assert(all[i as int] == *branches@[i as int]);
        match constant_output(branches[i], ordinal) {
            Some(value) => {
                let ghost before = value_views(values@);
                let ghost denoted = value@;
                values.push(value);
                assert(value_views(values@) =~= before.push(denoted));
            },
            None => {
                proof {
                    lemma_literals_stay_none(all, ordinal as nat, (i + 1) as nat, all.len());
                }
                return None;
            },
        }
        i = i + 1;
    }
    Some(values)
}

proof fn lemma_literals_stay_none(branches: Seq<LogicalPlan>, ordinal: nat, n: nat, m: nat)
    requires
        n <= m,
        literals_at(branches, ordinal, n) is None,
    ensures
        literals_at(branches, ordinal, m) is None,
    decreases m,
{
    if n < m {
        lemma_literals_stay_none(branches, ordinal, n, (m - 1) as nat);
    }
}

fn find_literal(values: &Vec<Value>, value: &Value) -> (r: Option<usize>)
    ensures
        match r {
            Some(at) => at < values@.len() && literal_position(value_views(values@), value@, 0)
                == Some(at as nat),
            None => literal_position(value_views(values@), value@, 0) is None,
        },
{
    let ghost all = value_views(values@);
    let mut i: usize = 0;
    while i < values.len()
        invariant
            i <= values@.len(),
            all == value_views(values@),
            literal_position(all, value@, 0) == literal_position(all, value@, i as nat),
        decreases values@.len() - i,
    {
        assert(all[i as int] == values@[i as int]@);
        if values[i].same(value) {
            return Some(i);
        }
        i = i + 1;
    }
    None
}

fn are_distinct(values: &Vec<Value>) -> (r: bool)
    ensures
        r == value_views(values@).no_duplicates(),
{
    let ghost all = value_views(values@);
    let mut i: usize = 0;
    while i < values.len()
        invariant
            i <= values@.len(),
            all == value_views(values@),
            forall|a: int, b: int| #![trigger all[a], all[b]] 0 <= a < b < i ==> all[a] != all[b],
        decreases values@.len() - i,
    {
        let mut j: usize = 0;
        while j < i
            invariant
                j <= i < values@.len(),
                all == value_views(values@),
                forall|a: int| 0 <= a < j ==> #[trigger] all[a] != all[i as int],
            decreases i - j,
        {
            assert(all[j as int] == values@[j as int]@);
            assert(all[i as int] == values@[i as int]@);
            if values[j].same(&values[i]) {
                assert(!all.no_duplicates());
                return false;
            }
            j = j + 1;
        }
        i = i + 1;
    }
    assert(all.no_duplicates()) by {
        assert forall|a: int, b: int| 0 <= a < all.len() && 0 <= b < all.len() && a != b implies all[a]
            != all[b] by {
            if a < b {
                assert(all[a] != all[b]);
            } else {
                assert(all[b] != all[a]);
            }
        }
    }
    true
}

proof fn lemma_assignment_stays_none(
    readers: Seq<usize>,
    pairs: Seq<(ColumnBinding, ValueView)>,
    values: Seq<ValueView>,
    ordinal: nat,
    n: nat,
    m: nat,
)
    requires
        n <= m,
        assignment(readers, pairs, values, ordinal, n) is None,
    ensures
        assignment(readers, pairs, values, ordinal, m) is None,
    decreases m,
{
    if n < m {
        lemma_assignment_stays_none(readers, pairs, values, ordinal, n, (m - 1) as nat);
    }
}

fn assign_readers(
    readers: &Vec<usize>,
    pairs: &Vec<(ColumnBinding, Value)>,
    values: &Vec<Value>,
    ordinal: usize,
) -> (r: Option<Vec<(usize, usize)>>)
    ensures
        match r {
            Some(assigned) => assignment(
                readers@,
                pairs_view(pairs@),
                value_views(values@),
                ordinal as nat,
                readers@.len(),
            ) == Some(assigned@),
            None => assignment(
                readers@,
                pairs_view(pairs@),
                value_views(values@),
                ordinal as nat,
                readers@.len(),
            ) is None,
        },
{
    let mut assigned: Vec<(usize, usize)> = Vec::new();
    assert(assigned@ =~= Seq::empty());
    let mut i: usize = 0;
    while i < readers.len()
        invariant
            i <= readers@.len(),
            assignment(
                readers@,
                pairs_view(pairs@),
                value_views(values@),
                ordinal as nat,
                i as nat,
            ) == Some(assigned@),
        decreases readers@.len() - i,
    {
        let mut branch: Option<usize> = None;
        if let Some(at) = find_fixed(pairs, ColumnBinding::new(readers[i], ordinal)) {
            branch = find_literal(values, &pairs[at].1);
        }
        match branch {
            Some(branch) => {
                assigned.push((readers[i], branch));
            },
            None => {
                proof {
                    lemma_assignment_stays_none(
                        readers@,
                        pairs_view(pairs@),
                        value_views(values@),
                        ordinal as nat,
                        (i + 1) as nat,
                        readers@.len(),
                    );
                }
                return None;
            },
        }
        i = i + 1;
    }
    Some(assigned)
}

proof fn lemma_readers_bounded(assigned: Seq<(usize, usize)>, branch: int, n: nat)
    ensures
        readers_of(assigned, branch, n) <= n,
    decreases n,
{
    if n > 0 {
        lemma_readers_bounded(assigned, branch, (n - 1) as nat);
    }
}

fn count_readers(assigned: &Vec<(usize, usize)>, branch: usize) -> (r: usize)
    ensures
        r == readers_of(assigned@, branch as int, assigned@.len()),
{
    let mut count: usize = 0;
    let mut i: usize = 0;
    while i < assigned.len()
        invariant
            i <= assigned@.len(),
            count == readers_of(assigned@, branch as int, i as nat),
        decreases assigned@.len() - i,
    {
        proof {
            lemma_readers_bounded(assigned@, branch as int, i as nat);
        }
        if assigned[i].1 == branch {
            count = count + 1;
        }
        i = i + 1;
    }
    count
}

/// The partitioning by one column, if it allows one.
fn partition_by(
    branches: &Vec<&LogicalPlan>,
    readers: &Vec<usize>,
    pairs: &Vec<(ColumnBinding, Value)>,
    ordinal: usize,
) -> (r: Option<Partitioning>)
    ensures
        match r {
            Some(partitioning) => partition_at(
                referents(branches@),
                readers@,
                pairs_view(pairs@),
                ordinal as nat,
            ) == Some(partitioning@),
            None => partition_at(
                referents(branches@),
                readers@,
                pairs_view(pairs@),
                ordinal as nat,
            ) is None,
        },
{
    let Some(values) = literals_of(branches, ordinal) else {
        return None;
    };
    if !are_distinct(&values) {
        return None;
    }
    let Some(assigned) = assign_readers(readers, pairs, &values, ordinal) else {
        return None;
    };
    let ghost wanted = Seq::new(
        branches@.len(),
        |b: int| readers_of(assigned@, b, assigned@.len()) as usize,
    );
    let mut counts: Vec<usize> = Vec::new();
    let mut b: usize = 0;
    while b < branches.len()
        invariant
            b <= branches@.len(),
            literals_at(referents(branches@), ordinal as nat, branches@.len()) == Some(
                value_views(values@),
            ),
            assignment(
                readers@,
                pairs_view(pairs@),
                value_views(values@),
                ordinal as nat,
                readers@.len(),
            ) == Some(assigned@),
            wanted == Seq::new(
                branches@.len(),
                |b: int| readers_of(assigned@, b, assigned@.len()) as usize,
            ),
            counts@ == wanted.take(b as int),
            forall|k: int|
                0 <= k < b ==> #[trigger] readers_of(assigned@, k, assigned@.len()) > 0,
        decreases branches@.len() - b,
    {
        let count: usize = count_readers(&assigned, b);
        if count == 0 {
            assert(readers_of(assigned@, b as int, assigned@.len()) == 0);
            return None;
        }
        counts.push(count);
        assert(counts@ =~= wanted.take(b + 1));
        b = b + 1;
    }
    assert(counts@ =~= wanted);
    let r = Partitioning {
        discriminator_ordinal: ordinal,
        branch_values: values,
        reference_partitions: assigned,
        reference_counts: counts,
    };
    assert(r@.counts =~= Seq::new(
        referents(branches@).len(),
        |b: int| readers_of(assigned@, b, assigned@.len()) as usize,
    ));
    Some(r)
}

/// Recognizes how the readers of the definition at the root of a plan are
/// distributed over its branches.
pub fn recognize(plan: &LogicalPlan) -> (r: Option<Partitioning>)
    ensures
        match r {
            Some(partitioning) => recognized(*plan) == Some(partitioning@),
            None => recognized(*plan) is None,
        },
{
    let LogicalOperator::MaterializedCTE(cte) = &plan.operator else {
        return None;
    };
    match cte.materialized {
        CTEMaterialize::Default => {},
        _ => {
            return None;
        },
    }
    if plan.children.len() != 2 {
        return None;
    }
    let mut branches: Vec<&LogicalPlan> = Vec::new();
    collect_union_all(&plan.children[0], &mut branches);
    assert(referents(branches@) =~= union_branches(plan.children@[0]));
    assert(referents(branches@).len() == branches@.len());
    let reader = &plan.children[1];
    let mut readers: Vec<usize> = Vec::new();
    if !collect_rewrite_safe_reference_tables(reader, cte.cte_index, false, &mut readers) {
        return None;
    }
    assert(Seq::<usize>::empty() + safe_readers(*reader, cte.cte_index, false)->0 =~= safe_readers(
        *reader,
        cte.cte_index,
        false,
    )->0);
    if branches.len() < 2 || readers.len() < 2 {
        return None;
    }
    let mut filtered: Vec<usize> = Vec::new();
    collect_directly_filtered_reference_tables(reader, cte.cte_index, &mut filtered);
    assert(Seq::<usize>::empty() + filtered_readers(*reader, cte.cte_index) =~= filtered_readers(
        *reader,
        cte.cte_index,
    ));
    let distinct = sorted_distinct(&readers);
    let distinct_filtered = sorted_distinct(&filtered);
    if !same_list(&distinct, &distinct_filtered) {
        proof {
            if filtered@.to_set() == readers@.to_set() {
                increasing_list_is_unique(distinct@, distinct_filtered@);
            }
        }
        return None;
    }
    proof {
        lemma_listing(distinct@);
    }
    let mut pairs: Vec<(ColumnBinding, Value)> = Vec::new();
    collect_filter_equalities(reader, &mut pairs);
    assert(pairs_view(Seq::<(ColumnBinding, Value)>::empty()) + filtered_columns(*reader)
        =~= filtered_columns(*reader));
    first_partitioning(&branches, &distinct, &pairs, cte.column_types.len())
}

fn first_partitioning(
    branches: &Vec<&LogicalPlan>,
    readers: &Vec<usize>,
    pairs: &Vec<(ColumnBinding, Value)>,
    width: usize,
) -> (r: Option<Partitioning>)
    ensures
        match r {
            Some(partitioning) => first_partition(
                referents(branches@),
                readers@,
                pairs_view(pairs@),
                width as nat,
                0,
            ) == Some(partitioning@),
            None => first_partition(
                referents(branches@),
                readers@,
                pairs_view(pairs@),
                width as nat,
                0,
            ) is None,
        },
{
    let ghost all = referents(branches@);
    let ghost known = pairs_view(pairs@);
    let mut ordinal: usize = 0;
    while ordinal < width
        invariant
            ordinal <= width,
            all == referents(branches@),
            known == pairs_view(pairs@),
            first_partition(all, readers@, known, width as nat, 0) == first_partition(
                all,
                readers@,
                known,
                width as nat,
                ordinal as nat,
            ),
        decreases width - ordinal,
    {
        if let Some(found) = partition_by(branches, readers, pairs, ordinal) {
            return Some(found);
        }
        ordinal = ordinal + 1;
    }
    None
}

fn same_list(a: &Vec<usize>, b: &Vec<usize>) -> (r: bool)
    ensures
        r == (a@ == b@),
{
    if a.len() != b.len() {
        return false;
    }
    let mut i: usize = 0;
    while i < a.len()
        invariant
            i <= a@.len(),
            a@.len() == b@.len(),
            forall|k: int| 0 <= k < i ==> #[trigger] a@[k] == b@[k],
        decreases a@.len() - i,
    {
        if a[i] != b[i] {
            return false;
        }
        i = i + 1;
    }
    assert(a@ =~= b@);
    true
}

} // verus!
