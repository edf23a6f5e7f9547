//! Ownership of inputs in the iterations of a recursive definition.
//!
//! A recursive read is what the last iteration produced. Joins keep their right
//! input for the whole query, so that read has to stay on the left, the
//! streaming side, of every join that contains it.

use vstd::prelude::*;

use crate::frame::{frames_size, lemma_frames_size_push, lemma_open_size, Frame};
use crate::operator::{AnyJoin, ComparisonJoin, CrossProduct, Join, JoinCondition, LogicalOperator};
use crate::expression::ExpressionView;
use crate::plan::{plans_size, reversed, LogicalPlan};
use crate::types::{flipping_keeps_the_meaning, JoinBuildSideConstraint, JoinType};

verus! {

/// Why a recursive definition cannot be iterated.
#[derive(Clone, Copy, Debug, PartialEq, Eq, Structural)]
pub enum IterationFault {
    /// A join reads the recursive definition on both sides.
    ReferencedTwice,
    /// A join that is no inner join reads it on the right.
    NotProbeInput,
}

#[derive(Debug)]
pub struct IterationError {
    pub fault: IterationFault,
    pub cte_name: String,
}

pub open spec fn message_start() -> Seq<char> {
    "recursive CTE '"@
}

pub open spec fn message_end(fault: IterationFault) -> Seq<char> {
    match fault {
        IterationFault::ReferencedTwice => "' may be referenced only once in its recursive member"@,
        IterationFault::NotProbeInput =>
            "' must be the preserved probe input of non-inner joins"@,
    }
}

impl IterationError {
    /// The message for the user.
    pub fn message(&self) -> (r: String)
        ensures
            r@ == message_start() + self.cte_name@ + message_end(self.fault),
    {
        let mut text = String::from_str("recursive CTE '");
        text.append(self.cte_name.as_str());
        match self.fault {
            IterationFault::ReferencedTwice => {
                text.append("' may be referenced only once in its recursive member");
            },
            IterationFault::NotProbeInput => {
                text.append("' must be the preserved probe input of non-inner joins");
            },
        }
        text
    }
}

/// What matters of an operator here.
pub enum NodeShape {
    Reference(usize),
    /// A join whose inputs may be exchanged.
    InnerJoin,
    OtherJoin,
    Recursive(usize, Seq<char>),
    Other,
}

pub struct PlanShape {
    pub node: NodeShape,
    pub children: Seq<PlanShape>,
}

pub open spec fn is_exchangeable(join: Join) -> bool {
    match join {
        Join::Comparison(join) => join.join_type is Inner,
        Join::Any(join) => join.join_type is Inner,
        Join::Cross(_) => true,
    }
}

pub open spec fn node_shape(operator: LogicalOperator) -> NodeShape {
    match operator {
        LogicalOperator::CTERef(reference) => NodeShape::Reference(reference.cte_index),
        LogicalOperator::Join(join) => if is_exchangeable(join) {
            NodeShape::InnerJoin
        } else {
            NodeShape::OtherJoin
        },
        LogicalOperator::RecursiveCTE(cte) => NodeShape::Recursive(cte.cte_index, cte.cte_name@),
        _ => NodeShape::Other,
    }
}

pub open spec fn shape(plan: LogicalPlan) -> PlanShape
    decreases plan,
{
    PlanShape {
        node: node_shape(plan.operator),
        children: Seq::new(
            plan.children@.len(),
            |i: int|
                if 0 <= i < plan.children@.len() {
                    shape(plan.children@[i])
                } else {
                    arbitrary()
                },
        ),
    }
}

/// Whether a plan reads a definition.
pub open spec fn reads(plan: PlanShape, cte_index: usize) -> bool
    decreases plan, 0nat,
{
    plan.node == NodeShape::Reference(cte_index) || some_read(
        plan.children,
        cte_index,
        plan.children.len(),
    )
}

pub open spec fn some_read(plans: Seq<PlanShape>, cte_index: usize, n: nat) -> bool
    decreases plans, n,
{
    if n == 0 || n > plans.len() {
        false
    } else {
        some_read(plans, cte_index, (n - 1) as nat) || reads(plans[n - 1], cte_index)
    }
}

pub open spec fn reads_at(plans: Seq<PlanShape>, cte_index: usize, i: int) -> bool {
    0 <= i < plans.len() && reads(plans[i], cte_index)
}

/// The first fault of a recursive member, inputs before the operator itself.
pub open spec fn member_fault(plan: PlanShape, cte_index: usize) -> Option<IterationFault>
    decreases plan, 0nat,
{
    match first_fault(plan.children, cte_index, plan.children.len()) {
        Some(fault) => Some(fault),
        None => if !(plan.node is InnerJoin || plan.node is OtherJoin) || !reads_at(
            plan.children,
            cte_index,
            1,
        ) {
            None
        } else if reads_at(plan.children, cte_index, 0) {
            Some(IterationFault::ReferencedTwice)
        } else if plan.node is OtherJoin {
            Some(IterationFault::NotProbeInput)
        } else {
            None
        },
    }
}

pub open spec fn first_fault(plans: Seq<PlanShape>, cte_index: usize, n: nat) -> Option<
    IterationFault,
>
    decreases plans, n,
{
    if n == 0 || n > plans.len() {
        None
    } else {
        match first_fault(plans, cte_index, (n - 1) as nat) {
            Some(fault) => Some(fault),
            None => member_fault(plans[n - 1], cte_index),
        }
    }
}

/// The first two items exchanged.
pub open spec fn exchanged<T>(items: Seq<T>) -> Seq<T> {
    items.update(0, items[1]).update(1, items[0])
}

/// A recursive member with its read on the left of every join.
pub open spec fn oriented(plan: PlanShape, cte_index: usize) -> PlanShape
    decreases plan,
{
    let children = Seq::new(
        plan.children.len(),
        |i: int|
            if 0 <= i < plan.children.len() {
                oriented(plan.children[i], cte_index)
            } else {
                arbitrary()
            },
    );
    PlanShape {
        node: plan.node,
        children: if plan.node is InnerJoin && reads_at(plan.children, cte_index, 1) {
            exchanged(children)
        } else {
            children
        },
    }
}

/// A plan with the recursive members of all definitions oriented, inner ones
/// first.
pub open spec fn normalized(plan: PlanShape) -> PlanShape
    decreases plan,
{
    let children = Seq::new(
        plan.children.len(),
        |i: int|
            if 0 <= i < plan.children.len() {
                normalized(plan.children[i])
            } else {
                arbitrary()
            },
    );
    PlanShape {
        node: plan.node,
        children: match plan.node {
            NodeShape::Recursive(cte_index, _) => if children.len() > 1 {
                children.update(1, oriented(children[1], cte_index))
            } else {
                children
            },
            _ => children,
        },
    }
}

/// The first fault of a plan and the definition that it belongs to.
pub open spec fn plan_fault(plan: PlanShape) -> Option<(IterationFault, Seq<char>)>
    decreases plan, 0nat,
{
    match first_plan_fault(plan.children, plan.children.len()) {
        Some(fault) => Some(fault),
        None => match plan.node {
            NodeShape::Recursive(cte_index, name) => if plan.children.len() > 1 {
                match member_fault(normalized(plan.children[1]), cte_index) {
                    Some(fault) => Some((fault, name)),
                    None => None,
                }
            } else {
                None
            },
            _ => None,
        },
    }
}

pub open spec fn first_plan_fault(plans: Seq<PlanShape>, n: nat) -> Option<
    (IterationFault, Seq<char>),
>
    decreases plans, n,
{
    if n == 0 || n > plans.len() {
        None
    } else {
        match first_plan_fault(plans, (n - 1) as nat) {
            Some(fault) => Some(fault),
            None => plan_fault(plans[n - 1]),
        }
    }
}

/// A join that must keep its right input.
pub open spec fn right_built(join: Join) -> Join {
    match join {
        Join::Comparison(join) => Join::Comparison(
            ComparisonJoin { build_side_constraint: JoinBuildSideConstraint::Right, ..join },
        ),
        Join::Any(join) => Join::Any(
            AnyJoin { build_side_constraint: JoinBuildSideConstraint::Right, ..join },
        ),
        Join::Cross(_) => Join::Cross(
            CrossProduct { build_side_constraint: JoinBuildSideConstraint::Right },
        ),
    }
}

pub open spec fn is_mirrored(before: JoinCondition, after: JoinCondition) -> bool {
    &&& after.left == before.right
    &&& after.right == before.left
    &&& after.comparison == before.comparison.spec_flip()
}

/// `after` is `before` for exchanged inputs, and keeps its right input.
pub open spec fn is_exchanged_join(before: Join, after: Join) -> bool {
    match (before, after) {
        (Join::Comparison(old_join), Join::Comparison(new_join)) => {
            &&& new_join.join_type == old_join.join_type
            &&& new_join.conditions@.len() == old_join.conditions@.len()
            &&& forall|i: int|
                #![trigger old_join.conditions@[i]]
                #![trigger new_join.conditions@[i]]
                0 <= i < old_join.conditions@.len() ==> is_mirrored(
                    old_join.conditions@[i],
                    new_join.conditions@[i],
                )
            &&& new_join.left_projection_map == old_join.right_projection_map
            &&& new_join.right_projection_map == old_join.left_projection_map
            &&& new_join.duplicate_eliminated_columns == old_join.duplicate_eliminated_columns
            &&& new_join.mark_index == old_join.mark_index
            &&& new_join.build_side_constraint is Right
        },
        (Join::Any(old_join), Join::Any(new_join)) => new_join == (AnyJoin {
            left_projection_map: old_join.right_projection_map,
            right_projection_map: old_join.left_projection_map,
            build_side_constraint: JoinBuildSideConstraint::Right,
            ..old_join
        }),
        (Join::Cross(_), Join::Cross(new_join)) => new_join.build_side_constraint is Right,
        _ => false,
    }
}

/// Where the input at position `i` ends up.
pub open spec fn moved_to(exchange: bool, i: int) -> int {
    if exchange && i == 0 {
        1
    } else if exchange && i == 1 {
        0
    } else {
        i
    }
}

/// `after` is the recursive member `before` with its read on the left of every
/// join.
pub open spec fn is_oriented(before: LogicalPlan, cte_index: usize, after: LogicalPlan) -> bool
    decreases before,
{
    let left = reads_at(shape(before).children, cte_index, 0);
    let right = reads_at(shape(before).children, cte_index, 1);
    let exchange = before.operator is Join && right;
    &&& after.stats == before.stats
    &&& after.children@.len() == before.children@.len()
    &&& forall|i: int|
        #![trigger before.children@[i]]
        0 <= i < before.children@.len() ==> is_oriented(
            before.children@[i],
            cte_index,
            after.children@[moved_to(exchange, i)],
        )
    &&& match (before.operator, after.operator) {
        (LogicalOperator::Join(old_join), LogicalOperator::Join(new_join)) => if right {
            is_exchanged_join(old_join, new_join)
        } else if left {
            new_join == right_built(old_join)
        } else {
            new_join == old_join
        },
        _ => after.operator == before.operator,
    }
}

/// `after` is `before` with the recursive members of all definitions oriented.
pub open spec fn is_normalized(before: LogicalPlan, after: LogicalPlan) -> bool
    decreases before,
{
    &&& after.stats == before.stats
    &&& after.operator == before.operator
    &&& after.children@.len() == before.children@.len()
    &&& forall|i: int|
        #![trigger before.children@[i]]
        #![trigger after.children@[i]]
        0 <= i < before.children@.len() && !(before.operator is RecursiveCTE && i == 1)
            ==> is_normalized(before.children@[i], after.children@[i])
    &&& match before.operator {
        LogicalOperator::RecursiveCTE(cte) => before.children@.len() > 1 ==> exists|
            member: LogicalPlan,
        | #[trigger]
            is_oriented(member, cte.cte_index, after.children@[1]) && is_normalized(
                before.children@[1],
                member,
            ),
        _ => true,
    }
}

fn mirror_conditions(conditions: Vec<JoinCondition>) -> (r: Vec<JoinCondition>)
    ensures
        r@.len() == conditions@.len(),
        forall|i: int|
            #![trigger conditions@[i]]
            #![trigger r@[i]]
            0 <= i < conditions@.len() ==> is_mirrored(conditions@[i], r@[i]),
{
    let ghost all = conditions@;
    let mut rest = reversed(conditions);
    let mut r: Vec<JoinCondition> = Vec::new();
    while rest.len() > 0
        invariant
            rest@.len() <= all.len(),
            rest@ == all.reverse().take(rest@.len() as int),
            r@.len() + rest@.len() == all.len(),
            forall|i: int| 0 <= i < r@.len() ==> is_mirrored(all[i], #[trigger] r@[i]),
        decreases rest@.len(),
    {
        let ghost n = rest@.len();
        if let Some(condition) = rest.pop() {
            assert(condition == all[all.len() - n]);
            assert(rest@ =~= all.reverse().take(n - 1));
            r.push(
                JoinCondition {
                    left: condition.right,
                    right: condition.left,
                    comparison: condition.comparison.flip(),
                },
            );
        }
    }
    r
}

/// A join for exchanged inputs.
fn exchange_join(join: Join) -> (r: Join)
    requires
        is_exchangeable(join),
    ensures
        is_exchanged_join(join, r),
{
    match join {
        Join::Comparison(join) => Join::Comparison(
            ComparisonJoin {
                join_type: join.join_type,
                conditions: mirror_conditions(join.conditions),
                left_projection_map: join.right_projection_map,
                right_projection_map: join.left_projection_map,
                duplicate_eliminated_columns: join.duplicate_eliminated_columns,
                mark_index: join.mark_index,
                build_side_constraint: JoinBuildSideConstraint::Right,
            },
        ),
        Join::Any(join) => Join::Any(
            AnyJoin {
                join_type: join.join_type,
                condition: join.condition,
                mark_index: join.mark_index,
                left_projection_map: join.right_projection_map,
                right_projection_map: join.left_projection_map,
                build_side_constraint: JoinBuildSideConstraint::Right,
            },
        ),
        Join::Cross(_) => Join::Cross(
            CrossProduct { build_side_constraint: JoinBuildSideConstraint::Right },
        ),
    }
}

fn build_right(join: Join) -> (r: Join)
    ensures
        r == right_built(join),
{
    match join {
        Join::Comparison(join) => {
            let mut join = join;
            join.build_side_constraint = JoinBuildSideConstraint::Right;
            Join::Comparison(join)
        },
        Join::Any(join) => {
            let mut join = join;
            join.build_side_constraint = JoinBuildSideConstraint::Right;
            Join::Any(join)
        },
        Join::Cross(_) => Join::Cross(
            CrossProduct { build_side_constraint: JoinBuildSideConstraint::Right },
        ),
    }
}

fn exchangeable(join: &Join) -> (r: bool)
    ensures
        r == is_exchangeable(*join),
{
    match join {
        Join::Comparison(join) => join.join_type == JoinType::Inner,
        Join::Any(join) => join.join_type == JoinType::Inner,
        Join::Cross(_) => true,
    }
}

proof fn lemma_first_fault_stays(plans: Seq<PlanShape>, cte_index: usize, n: nat, m: nat)
    requires
        n <= m <= plans.len(),
        first_fault(plans, cte_index, n) is Some,
    ensures
        first_fault(plans, cte_index, m) == first_fault(plans, cte_index, n),
    decreases m,
{
    if n < m {
        lemma_first_fault_stays(plans, cte_index, n, (m - 1) as nat);
    }
}

proof fn lemma_first_plan_fault_stays(plans: Seq<PlanShape>, n: nat, m: nat)
    requires
        n <= m <= plans.len(),
        first_plan_fault(plans, n) is Some,
    ensures
        first_plan_fault(plans, m) == first_plan_fault(plans, n),
    decreases m,
{
    if n < m {
        lemma_first_plan_fault_stays(plans, n, (m - 1) as nat);
    }
}

/// Which inputs of an operator read a definition.
struct MemberReads {
    /// The operator itself or an input that has been oriented.
    found: bool,
    left: bool,
    right: bool,
}

/// Whether the rewritten inputs of a frame are oriented, with so many of the
/// others entered.
spec fn is_orienting(frame: Frame<MemberReads>, cte_index: usize, open: nat) -> bool {
    let all = frame.whole@.children@;
    let before = shape(frame.whole@);
    let n = frame.inputs@.len();
    &&& frame.is_split(open)
    &&& first_fault(before.children, cte_index, n) is None
    &&& frame.state.found == (before.node == NodeShape::Reference(cte_index) || some_read(
        before.children,
        cte_index,
        n,
    ))
    &&& frame.state.left == (n > 0 && reads_at(before.children, cte_index, 0))
    &&& frame.state.right == (n > 1 && reads_at(before.children, cte_index, 1))
    &&& forall|k: int|
        0 <= k < n ==> is_oriented(all[k], cte_index, #[trigger] frame.inputs@[k]) && shape(
            frame.inputs@[k],
        ) == oriented(shape(all[k]), cte_index)
}

/// Whether each frame waits for the one after it, from the whole member on
/// down to the given plan.
spec fn are_orienting(
    frames: Seq<Frame<MemberReads>>,
    plan: LogicalPlan,
    whole: LogicalPlan,
    cte_index: usize,
) -> bool
    decreases frames.len(),
{
    if frames.len() == 0 {
        plan == whole
    } else {
        let frame = frames.last();
        &&& is_orienting(frame, cte_index, 1)
        &&& plan == frame.next_input()
        &&& are_orienting(frames.drop_last(), frame.whole@, whole, cte_index)
    }
}

/// The first fault of an input is that of the member.
proof fn lemma_fault_rises(
    frames: Seq<Frame<MemberReads>>,
    plan: LogicalPlan,
    whole: LogicalPlan,
    cte_index: usize,
)
    requires
        are_orienting(frames, plan, whole, cte_index),
        member_fault(shape(plan), cte_index) is Some,
    ensures
        member_fault(shape(whole), cte_index) == member_fault(shape(plan), cte_index),
    decreases frames.len(),
{
    if frames.len() > 0 {
        let frame = frames.last();
        let children = shape(frame.whole@).children;
        let n = frame.inputs@.len();
        assert(children[n as int] == shape(plan));
        assert(first_fault(children, cte_index, n + 1) == member_fault(shape(plan), cte_index));
        lemma_first_fault_stays(children, cte_index, n + 1, children.len());
        lemma_fault_rises(frames.drop_last(), frame.whole@, whole, cte_index);
    }
}

fn open_member(plan: LogicalPlan, cte_index: usize) -> (r: Frame<MemberReads>)
    ensures
        is_orienting(r, cte_index, 0),
        r.whole@ == plan,
        r.size() == 1 + 2 * plans_size(plan.children@, plan.children@.len()),
{
    let found: bool = match &plan.operator {
        LogicalOperator::CTERef(reference) => reference.cte_index == cte_index,
        _ => false,
    };
    let r = Frame::open(plan, MemberReads { found, left: false, right: false });
    proof {
        lemma_open_size(r);
    }
    r
}

/// Takes the oriented next input of an operator.
fn receive_member(
    frame: Frame<MemberReads>,
    cte_index: usize,
    after: LogicalPlan,
    inner: bool,
) -> (r: Frame<MemberReads>)
    requires
        is_orienting(frame, cte_index, 1),
        member_fault(shape(frame.next_input()), cte_index) is None,
        is_oriented(frame.next_input(), cte_index, after),
        shape(after) == oriented(shape(frame.next_input()), cte_index),
        inner == reads(shape(frame.next_input()), cte_index),
    ensures
        is_orienting(r, cte_index, 0),
        r.whole == frame.whole,
        r.size() == frame.size(),
{
    let ghost children = shape(frame.whole@).children;
    let mut r = frame;
    let position: usize = r.inputs.len();
    assert(children[position as int] == shape(frame.next_input()));
    r.inputs.push(after);
    r.state.found = r.state.found || inner;
    if position == 0 {
        r.state.left = inner;
    } else if position == 1 {
        r.state.right = inner;
    }
    r
}

/// Orients an operator whose inputs are oriented.
fn close_member(frame: Frame<MemberReads>, cte_index: usize) -> (r: Result<
    (LogicalPlan, bool),
    IterationFault,
>)
    requires
        is_orienting(frame, cte_index, 0),
        frame.inputs@.len() == frame.whole@.children@.len(),
    ensures
        match r {
            Ok((after, found)) => {
                &&& member_fault(shape(frame.whole@), cte_index) is None
                &&& is_oriented(frame.whole@, cte_index, after)
                &&& shape(after) == oriented(shape(frame.whole@), cte_index)
                &&& found == reads(shape(frame.whole@), cte_index)
            },
            Err(fault) => member_fault(shape(frame.whole@), cte_index) == Some(fault),
        },
{
    let Frame { stats, operator, rest: _, inputs, state, whole: Ghost(whole) } = frame;
    let MemberReads { found, left, right } = state;
    let mut inputs = inputs;
    let ghost before = shape(whole);
    let LogicalOperator::Join(join) = operator else {
        let after = LogicalPlan { stats, operator, children: inputs };
        assert(shape(after).children =~= oriented(before, cte_index).children);
        return Ok((after, found));
    };
    if !right {
        let join = if left {
            build_right(join)
        } else {
            join
        };
        let after = LogicalPlan { stats, operator: LogicalOperator::Join(join), children: inputs };
        assert(shape(after).children =~= oriented(before, cte_index).children);
        return Ok((after, found));
    }
    if left {
        return Err(IterationFault::ReferencedTwice);
    }
    if !exchangeable(&join) {
        return Err(IterationFault::NotProbeInput);
    }
    let ghost kept = inputs@;
    exchange_first_two(&mut inputs);
    let after = LogicalPlan {
        stats,
        operator: LogicalOperator::Join(exchange_join(join)),
        children: inputs,
    };
    proof {
        assert forall|i: int|
            #![trigger whole.children@[i]]
            0 <= i < whole.children@.len() implies is_oriented(
            whole.children@[i],
            cte_index,
            after.children@[moved_to(true, i)],
        ) by {
            assert(after.children@[moved_to(true, i)] == kept[i]);
        }
        let children = Seq::new(
            before.children.len(),
            |i: int|
                if 0 <= i < before.children.len() {
                    oriented(before.children[i], cte_index)
                } else {
                    arbitrary()
                },
        );
        assert(shape(after).children =~= exchanged(children));
        assert(oriented(before, cte_index).children == exchanged(children));
    }
    Ok((after, found))
}

/// Moves the read of a recursive definition to the left of every join of its
/// member. Members can be deep, so the operators that wait for an input stand
/// in a list.
fn orient_recursive_member(plan: LogicalPlan, cte_index: usize) -> (r: Result<
    LogicalPlan,
    IterationFault,
>)
    ensures
        match r {
            Ok(after) => {
                &&& member_fault(shape(plan), cte_index) is None
                &&& is_oriented(plan, cte_index, after)
                &&& shape(after) == oriented(shape(plan), cte_index)
            },
            Err(fault) => member_fault(shape(plan), cte_index) == Some(fault),
        },
{
    let ghost whole = plan;
    let mut waiting: Vec<Frame<MemberReads>> = Vec::new();
    let mut top = open_member(plan, cte_index);
    loop
        invariant
            is_orienting(top, cte_index, 0),
            are_orienting(waiting@, top.whole@, whole, cte_index),
            whole == plan,
        decreases frames_size(waiting@, waiting@.len()) + top.size(),
    {
        let ghost before = top;
        let ghost below = waiting@;
        match top.enter() {
            Some(child) => {
                let opened = open_member(child, cte_index);
                proof {
                    assert(is_orienting(top, cte_index, 1));
                    assert(below.push(top).drop_last() =~= below);
                    lemma_frames_size_push(below, top);
                }
                waiting.push(top);
                top = opened;
            },
            None => {
                assert(is_orienting(top, cte_index, 0));
                match close_member(top, cte_index) {
                    Err(fault) => {
                        proof {
                            lemma_fault_rises(below, before.whole@, whole, cte_index);
                        }
                        return Err(fault);
                    },
                    Ok((after, inner)) => match waiting.pop() {
                        Some(frame) => {
                            proof {
                                assert(waiting@ =~= below.drop_last());
                                assert(below =~= waiting@.push(frame));
                                lemma_frames_size_push(waiting@, frame);
                            }
                            top = receive_member(frame, cte_index, after, inner);
                        },
                        None => {
                            return Ok(after);
                        },
                    },
                }
            },
        }
    }
}

fn exchange_first_two(items: &mut Vec<LogicalPlan>)
    requires
        old(items)@.len() > 1,
    ensures
        final(items)@ == exchanged(old(items)@),
{
    let ghost all = items@;
    let first = items.remove(0);
    assert(items@ =~= all.remove(0));
    items.insert(1, first);
    assert(items@ =~= exchanged(all));
}

/// Whether the rewritten inputs of a frame are normalized, with so many of the
/// others entered.
spec fn is_normalizing(frame: Frame<()>, open: nat) -> bool {
    let all = frame.whole@.children@;
    let n = frame.inputs@.len();
    &&& frame.is_split(open)
    &&& first_plan_fault(shape(frame.whole@).children, n) is None
    &&& forall|k: int|
        0 <= k < n ==> is_normalized(all[k], #[trigger] frame.inputs@[k]) && shape(
            frame.inputs@[k],
        ) == normalized(shape(all[k]))
}

/// Whether each frame waits for the one after it, from the whole plan on down
/// to the given one.
spec fn are_normalizing(frames: Seq<Frame<()>>, plan: LogicalPlan, whole: LogicalPlan) -> bool
    decreases frames.len(),
{
    if frames.len() == 0 {
        plan == whole
    } else {
        let frame = frames.last();
        &&& is_normalizing(frame, 1)
        &&& plan == frame.next_input()
        &&& are_normalizing(frames.drop_last(), frame.whole@, whole)
    }
}

/// The first fault of an input is that of the plan.
proof fn lemma_plan_fault_rises(frames: Seq<Frame<()>>, plan: LogicalPlan, whole: LogicalPlan)
    requires
        are_normalizing(frames, plan, whole),
        plan_fault(shape(plan)) is Some,
    ensures
        plan_fault(shape(whole)) == plan_fault(shape(plan)),
    decreases frames.len(),
{
    if frames.len() > 0 {
        let frame = frames.last();
        let children = shape(frame.whole@).children;
        let n = frame.inputs@.len();
        assert(children[n as int] == shape(plan));
        assert(first_plan_fault(children, n + 1) == plan_fault(shape(plan)));
        lemma_first_plan_fault_stays(children, n + 1, children.len());
        lemma_plan_fault_rises(frames.drop_last(), frame.whole@, whole);
    }
}

fn open_plan(plan: LogicalPlan) -> (r: Frame<()>)
    ensures
        is_normalizing(r, 0),
        r.whole@ == plan,
        r.size() == 1 + 2 * plans_size(plan.children@, plan.children@.len()),
{
    let r = Frame::open(plan, ());
    proof {
        lemma_open_size(r);
    }
    r
}

/// Takes the normalized next input of an operator.
fn receive_plan(frame: Frame<()>, after: LogicalPlan) -> (r: Frame<()>)
    requires
        is_normalizing(frame, 1),
        plan_fault(shape(frame.next_input())) is None,
        is_normalized(frame.next_input(), after),
        shape(after) == normalized(shape(frame.next_input())),
    ensures
        is_normalizing(r, 0),
        r.whole == frame.whole,
        r.size() == frame.size(),
{
    let ghost children = shape(frame.whole@).children;
    assert(children[frame.inputs@.len() as int] == shape(frame.next_input()));
    let mut r = frame;
    r.inputs.push(after);
    r
}

/// Normalizes an operator whose inputs are normalized.
fn close_plan(frame: Frame<()>) -> (r: Result<LogicalPlan, IterationError>)
    requires
        is_normalizing(frame, 0),
        frame.inputs@.len() == frame.whole@.children@.len(),
    ensures
        match r {
            Ok(after) => {
                &&& plan_fault(shape(frame.whole@)) is None
                &&& is_normalized(frame.whole@, after)
                &&& shape(after) == normalized(shape(frame.whole@))
            },
            Err(error) => plan_fault(shape(frame.whole@)) == Some((error.fault, error.cte_name@)),
        },
{
    let Frame { stats, operator, rest: _, inputs, state: _, whole: Ghost(whole) } = frame;
    let mut inputs = inputs;
    let ghost before = shape(whole);
    if let LogicalOperator::RecursiveCTE(cte) = &operator {
        if inputs.len() > 1 {
            let ghost kept = inputs@;
            let member = inputs.remove(1);
            assert(member == kept[1]);
            assert(shape(member) == normalized(before.children[1]));
            match orient_recursive_member(member, cte.cte_index) {
                Err(fault) => {
                    return Err(IterationError { fault, cte_name: cte.cte_name.clone() });
                },
                Ok(after_member) => {
                    inputs.insert(1, after_member);
                    assert(inputs@ =~= kept.update(1, after_member));
                    let after = LogicalPlan { stats, operator, children: inputs };
                    proof {
                        assert(is_oriented(member, cte.cte_index, after.children@[1]));
                        assert(before.node == node_shape(whole.operator));
                        assert(shape(after).children =~= normalized(before).children);
                        assert forall|i: int|
                            #![trigger whole.children@[i]]
                            #![trigger after.children@[i]]
                            0 <= i < whole.children@.len() && i != 1 implies is_normalized(
                            whole.children@[i],
                            after.children@[i],
                        ) by {
                            assert(after.children@[i] == kept[i]);
                        }
                    }
                    return Ok(after);
                },
            }
        }
    }
    let after = LogicalPlan { stats, operator, children: inputs };
    assert(shape(after).children =~= normalized(before).children);
    Ok(after)
}

/// Orients the recursive members of all definitions in a plan. Reads of the
/// completed result are left alone. Plans can be deep, so the operators that
/// wait for an input stand in a list.
pub fn normalize_iteration_ownership(plan: LogicalPlan) -> (r: Result<LogicalPlan, IterationError>)
    ensures
        match r {
            Ok(after) => {
                &&& plan_fault(shape(plan)) is None
                &&& is_normalized(plan, after)
                &&& shape(after) == normalized(shape(plan))
            },
            Err(error) => plan_fault(shape(plan)) == Some((error.fault, error.cte_name@)),
        },
{
    let ghost whole = plan;
    let mut waiting: Vec<Frame<()>> = Vec::new();
    let mut top = open_plan(plan);
    loop
        invariant
            is_normalizing(top, 0),
            are_normalizing(waiting@, top.whole@, whole),
            whole == plan,
        decreases frames_size(waiting@, waiting@.len()) + top.size(),
    {
        let ghost before = top;
        let ghost below = waiting@;
        match top.enter() {
            Some(child) => {
                let opened = open_plan(child);
                proof {
                    assert(is_normalizing(top, 1));
                    assert(below.push(top).drop_last() =~= below);
                    lemma_frames_size_push(below, top);
                }
                waiting.push(top);
                top = opened;
            },
            None => {
                assert(is_normalizing(top, 0));
                match close_plan(top) {
                    Err(error) => {
                        proof {
                            lemma_plan_fault_rises(below, before.whole@, whole);
                        }
                        return Err(error);
                    },
                    Ok(after) => match waiting.pop() {
                        Some(frame) => {
                            proof {
                                assert(waiting@ =~= below.drop_last());
                                assert(below =~= waiting@.push(frame));
                                lemma_frames_size_push(waiting@, frame);
                            }
                            top = receive_plan(frame, after);
                        },
                        None => {
                            return Ok(after);
                        },
                    },
                }
            },
        }
    }
}

proof fn lemma_some_read(plans: Seq<PlanShape>, cte_index: usize, n: nat)
    requires
        n <= plans.len(),
    ensures
        some_read(plans, cte_index, n) <==> exists|i: int|
            0 <= i < n && #[trigger] reads_at(plans, cte_index, i),
    decreases n,
{
    if n > 0 {
        lemma_some_read(plans, cte_index, (n - 1) as nat);
        if reads(plans[n - 1], cte_index) {
            assert(reads_at(plans, cte_index, n - 1));
        }
    }
}

proof fn lemma_no_fault(plans: Seq<PlanShape>, cte_index: usize, n: nat, i: int)
    requires
        0 <= i < n <= plans.len(),
        first_fault(plans, cte_index, n) is None,
    ensures
        member_fault(plans[i], cte_index) is None,
    decreases n,
{
    if i < n - 1 {
        lemma_no_fault(plans, cte_index, (n - 1) as nat, i);
    }
}

proof fn lemma_orienting_keeps_reads(plan: PlanShape, cte_index: usize)
    ensures
        reads(oriented(plan, cte_index), cte_index) == reads(plan, cte_index),
    decreases plan,
{
    let after = oriented(plan, cte_index);
    let exchange = plan.node is InnerJoin && reads_at(plan.children, cte_index, 1);
    lemma_some_read(plan.children, cte_index, plan.children.len());
    lemma_some_read(after.children, cte_index, after.children.len());
    assert forall|i: int| 0 <= i < plan.children.len() implies (#[trigger] reads_at(
        plan.children,
        cte_index,
        i,
    ) <==> reads_at(after.children, cte_index, moved_to(exchange, i))) by {
        lemma_orienting_keeps_reads(plan.children[i], cte_index);
        assert(after.children[moved_to(exchange, i)] == oriented(plan.children[i], cte_index));
    }
    if some_read(plan.children, cte_index, plan.children.len()) {
        let i = choose|i: int|
            0 <= i < plan.children.len() && #[trigger] reads_at(plan.children, cte_index, i);
        assert(reads_at(after.children, cte_index, moved_to(exchange, i)));
    }
    if some_read(after.children, cte_index, after.children.len()) {
        let j = choose|j: int|
            0 <= j < after.children.len() && #[trigger] reads_at(after.children, cte_index, j);
        let i = moved_to(exchange, j);
        assert(moved_to(exchange, i) == j);
        assert(reads_at(plan.children, cte_index, i));
    }
}

/// Whether no join of a plan reads a definition on its right.
pub open spec fn streams(plan: PlanShape, cte_index: usize) -> bool
    decreases plan,
{
    &&& plan.node is InnerJoin || plan.node is OtherJoin ==> !reads_at(plan.children, cte_index, 1)
    &&& forall|i: int|
        #![trigger plan.children[i]]
        0 <= i < plan.children.len() ==> streams(plan.children[i], cte_index)
}

/// A member without a fault reads its definition only on the streaming side of
/// its joins once it is oriented.
pub proof fn oriented_member_streams(plan: PlanShape, cte_index: usize)
    requires
        member_fault(plan, cte_index) is None,
    ensures
        streams(oriented(plan, cte_index), cte_index),
    decreases plan,
{
    let after = oriented(plan, cte_index);
    let exchange = plan.node is InnerJoin && reads_at(plan.children, cte_index, 1);
    assert forall|j: int|
        #![trigger after.children[j]]
        0 <= j < after.children.len() implies streams(after.children[j], cte_index) by {
        let i = moved_to(exchange, j);
        lemma_no_fault(plan.children, cte_index, plan.children.len(), i);
        oriented_member_streams(plan.children[i], cte_index);
        assert(after.children[j] == oriented(plan.children[i], cte_index));
    }
    if (plan.node is InnerJoin || plan.node is OtherJoin) && plan.children.len() > 1 {
        let i = moved_to(exchange, 1);
        lemma_orienting_keeps_reads(plan.children[i], cte_index);
        assert(after.children[1] == oriented(plan.children[i], cte_index));
    }
}

proof fn lemma_streaming_member_has_no_fault(plans: Seq<PlanShape>, cte_index: usize, n: nat)
    requires
        n <= plans.len(),
        forall|i: int| 0 <= i < n ==> member_fault(#[trigger] plans[i], cte_index) is None,
    ensures
        first_fault(plans, cte_index, n) is None,
    decreases n,
{
    if n > 0 {
        lemma_streaming_member_has_no_fault(plans, cte_index, (n - 1) as nat);
    }
}

/// A member that streams its read already is accepted and left as it is.
pub proof fn streaming_member_stays(plan: PlanShape, cte_index: usize)
    requires
        streams(plan, cte_index),
    ensures
        member_fault(plan, cte_index) is None,
        oriented(plan, cte_index) == plan,
    decreases plan,
{
    assert forall|i: int| 0 <= i < plan.children.len() implies member_fault(
        #[trigger] plan.children[i],
        cte_index,
    ) is None && oriented(plan.children[i], cte_index) == plan.children[i] by {
        streaming_member_stays(plan.children[i], cte_index);
    }
    lemma_streaming_member_has_no_fault(plan.children, cte_index, plan.children.len());
    assert(oriented(plan, cte_index).children =~= plan.children);
}

/// Orienting a member again changes nothing.
pub proof fn orienting_twice_changes_nothing(plan: PlanShape, cte_index: usize)
    requires
        member_fault(plan, cte_index) is None,
    ensures
        member_fault(oriented(plan, cte_index), cte_index) is None,
        oriented(oriented(plan, cte_index), cte_index) == oriented(plan, cte_index),
{
    oriented_member_streams(plan, cte_index);
    streaming_member_stays(oriented(plan, cte_index), cte_index);
}

/// A mirrored condition is true of the same pairs of rows.
pub proof fn mirrored_condition_keeps_the_meaning(
    before: JoinCondition,
    after: JoinCondition,
    value: spec_fn(ExpressionView) -> Option<int>,
)
    requires
        is_mirrored(before, after),
    ensures
        after.is_true_in(value) <==> before.is_true_in(value),
{
    flipping_keeps_the_meaning(before.comparison, value(before.left@), value(before.right@));
}

/// A join for exchanged inputs matches the same pairs of rows, keeps its kind, and
/// passes on of each input what it passed on before.
pub proof fn exchanged_join_matches_the_same_pairs(
    before: ComparisonJoin,
    after: ComparisonJoin,
    value: spec_fn(ExpressionView) -> Option<int>,
)
    requires
        is_exchanged_join(Join::Comparison(before), Join::Comparison(after)),
    ensures
        (forall|i: int|
            0 <= i < after.conditions@.len() ==> (#[trigger] after.conditions@[i]).is_true_in(
                value,
            )) <==> forall|i: int|
            0 <= i < before.conditions@.len() ==> (#[trigger] before.conditions@[i]).is_true_in(
                value,
            ),
        after.join_type == before.join_type,
        after.left_projection_map == before.right_projection_map,
        after.right_projection_map == before.left_projection_map,
{
    assert forall|i: int| 0 <= i < before.conditions@.len() implies (
    #[trigger] before.conditions@[i]).is_true_in(value) == after.conditions@[i].is_true_in(value) by {
        mirrored_condition_keeps_the_meaning(before.conditions@[i], after.conditions@[i], value);
    }
    assert forall|i: int| 0 <= i < after.conditions@.len() implies (
    #[trigger] after.conditions@[i]).is_true_in(value) == before.conditions@[i].is_true_in(value) by {
        mirrored_condition_keeps_the_meaning(before.conditions@[i], after.conditions@[i], value);
    }
}

/// A condition over both inputs stays what it is, and only what is passed on of each
/// input changes places.
pub proof fn exchanged_any_join_keeps_its_condition(before: AnyJoin, after: AnyJoin)
    requires
        is_exchanged_join(Join::Any(before), Join::Any(after)),
    ensures
        after.condition == before.condition,
        after.join_type == before.join_type,
        after.left_projection_map == before.right_projection_map,
        after.right_projection_map == before.left_projection_map,
{
}

/// Whether `part` is a plan itself or occurs in one of its inputs.
pub open spec fn is_shape_part(part: PlanShape, whole: PlanShape) -> bool
    decreases whole,
{
    part == whole || exists|i: int|
        #![trigger whole.children[i]]
        0 <= i < whole.children.len() && is_shape_part(part, whole.children[i])
}

/// A plan reads a definition exactly where a read of it occurs somewhere in it.
pub proof fn reads_occur_in_the_plan(plan: PlanShape, cte_index: usize)
    ensures
        reads(plan, cte_index) <==> exists|part: PlanShape| #[trigger]
            is_shape_part(part, plan) && part.node == NodeShape::Reference(cte_index),
    decreases plan, 0nat,
{
    lemma_reads_among(plan.children, cte_index, plan.children.len());
    if plan.node == NodeShape::Reference(cte_index) {
        assert(is_shape_part(plan, plan));
    }
    if some_read(plan.children, cte_index, plan.children.len()) {
        let i = choose|i: int|
            #![trigger plan.children[i]]
            0 <= i < plan.children.len() && reads(plan.children[i], cte_index);
        reads_occur_in_the_plan(plan.children[i], cte_index);
        let part = choose|part: PlanShape| #[trigger]
            is_shape_part(part, plan.children[i]) && part.node == NodeShape::Reference(cte_index);
        assert(is_shape_part(part, plan));
    }
    if exists|part: PlanShape| #[trigger]
        is_shape_part(part, plan) && part.node == NodeShape::Reference(cte_index) {
        let part = choose|part: PlanShape| #[trigger]
            is_shape_part(part, plan) && part.node == NodeShape::Reference(cte_index);
        if part != plan {
            let i = choose|i: int|
                #![trigger plan.children[i]]
                0 <= i < plan.children.len() && is_shape_part(part, plan.children[i]);
            reads_occur_in_the_plan(plan.children[i], cte_index);
        }
    }
}

proof fn lemma_reads_among(plans: Seq<PlanShape>, cte_index: usize, n: nat)
    requires
        n <= plans.len(),
    ensures
        some_read(plans, cte_index, n) <==> exists|i: int|
            #![trigger plans[i]]
            0 <= i < n && reads(plans[i], cte_index),
    decreases n,
{
    if n > 0 {
        lemma_reads_among(plans, cte_index, (n - 1) as nat);
        assert(plans[n - 1] == plans[n - 1]);
    }
}

/// Whether a join reads a definition where it must not: on both sides, or on the
/// right where its inputs cannot be exchanged.
pub open spec fn is_offending(join: PlanShape, cte_index: usize) -> bool {
    &&& join.node is InnerJoin || join.node is OtherJoin
    &&& reads_at(join.children, cte_index, 1)
    &&& join.node is OtherJoin || reads_at(join.children, cte_index, 0)
}

/// A recursive member is refused exactly where some join in it, however deep, reads
/// the definition on both sides, or on the right and is no inner join.
pub proof fn members_are_refused_for_an_offending_join(plan: PlanShape, cte_index: usize)
    ensures
        member_fault(plan, cte_index) is Some <==> exists|part: PlanShape| #[trigger]
            is_shape_part(part, plan) && is_offending(part, cte_index),
    decreases plan, 0nat,
{
    lemma_faults_among(plan.children, cte_index, plan.children.len());
    if first_fault(plan.children, cte_index, plan.children.len()) is Some {
        let i = choose|i: int|
            #![trigger plan.children[i]]
            0 <= i < plan.children.len() && member_fault(plan.children[i], cte_index) is Some;
        members_are_refused_for_an_offending_join(plan.children[i], cte_index);
        let part = choose|part: PlanShape| #[trigger]
            is_shape_part(part, plan.children[i]) && is_offending(part, cte_index);
        assert(is_shape_part(part, plan));
    } else if member_fault(plan, cte_index) is Some {
        assert(is_shape_part(plan, plan) && is_offending(plan, cte_index));
    }
    if exists|part: PlanShape| #[trigger]
        is_shape_part(part, plan) && is_offending(part, cte_index) {
        let part = choose|part: PlanShape| #[trigger]
            is_shape_part(part, plan) && is_offending(part, cte_index);
        if part != plan {
            let i = choose|i: int|
                #![trigger plan.children[i]]
                0 <= i < plan.children.len() && is_shape_part(part, plan.children[i]);
            members_are_refused_for_an_offending_join(plan.children[i], cte_index);
        }
    }
}

proof fn lemma_faults_among(plans: Seq<PlanShape>, cte_index: usize, n: nat)
    requires
        n <= plans.len(),
    ensures
        first_fault(plans, cte_index, n) is Some <==> exists|i: int|
            #![trigger plans[i]]
            0 <= i < n && member_fault(plans[i], cte_index) is Some,
    decreases n,
{
    if n > 0 {
        lemma_faults_among(plans, cte_index, (n - 1) as nat);
        assert(plans[n - 1] == plans[n - 1]);
    }
}

/// Only joins of the inner kind may exchange their inputs.
pub proof fn only_inner_joins_exchange_inputs(join: Join)
    ensures
        is_exchangeable(join) <==> match join {
            Join::Comparison(join) => join.join_type is Inner,
            Join::Any(join) => join.join_type is Inner,
            Join::Cross(_) => true,
        },
        node_shape(LogicalOperator::Join(join)) is InnerJoin <==> is_exchangeable(join),
        node_shape(LogicalOperator::Join(join)) is OtherJoin <==> !is_exchangeable(join),
{
}

/// Whether a part of a plan is a recursive definition whose member is refused.
pub open spec fn is_refused(part: PlanShape) -> bool {
    &&& part.node matches NodeShape::Recursive(cte_index, _) && member_fault(
        normalized(part.children[1]),
        cte_index,
    ) is Some
    &&& part.children.len() > 1
}

/// A plan is refused exactly where a recursive definition somewhere in it is.
pub proof fn plans_are_refused_for_a_recursive_definition(plan: PlanShape)
    ensures
        plan_fault(plan) is Some <==> exists|part: PlanShape| #[trigger]
            is_shape_part(part, plan) && is_refused(part),
    decreases plan, 0nat,
{
    lemma_refused_among(plan.children, plan.children.len());
    assert(is_shape_part(plan, plan));
    if exists|part: PlanShape| #[trigger] is_shape_part(part, plan) && is_refused(part) {
        let part = choose|part: PlanShape| #[trigger] is_shape_part(part, plan) && is_refused(part);
        if part != plan {
            let i = choose|i: int|
                0 <= i < plan.children.len() && is_shape_part(part, #[trigger] plan.children[i]);
            assert(refuses(plan.children[i]));
        }
    }
    if first_plan_fault(plan.children, plan.children.len()) is Some {
        let i = choose|i: int| 0 <= i < plan.children.len() && refuses(#[trigger] plan.children[i]);
        let part = choose|part: PlanShape| #[trigger]
            is_shape_part(part, plan.children[i]) && is_refused(part);
        assert(is_shape_part(part, plan));
    }
}

/// Whether a recursive definition somewhere in a plan is refused.
pub open spec fn refuses(plan: PlanShape) -> bool {
    exists|part: PlanShape| #[trigger] is_shape_part(part, plan) && is_refused(part)
}

proof fn lemma_refused_among(plans: Seq<PlanShape>, n: nat)
    requires
        n <= plans.len(),
    ensures
        first_plan_fault(plans, n) is Some <==> exists|i: int|
            0 <= i < n && refuses(#[trigger] plans[i]),
    decreases plans, n,
{
    if n > 0 {
        lemma_refused_among(plans, (n - 1) as nat);
        plans_are_refused_for_a_recursive_definition(plans[n - 1]);
        if refuses(plans[n - 1]) {
            assert(refuses(plans[n - 1]));
        }
    }
}

} // verus!
