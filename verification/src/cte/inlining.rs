//! Putting a shared definition in place of its reads.

use std::sync::Arc;
use vstd::prelude::*;

use crate::expression::analysis::views;
use crate::expression::{ColumnRefExpression, Expression, ExpressionView};
use crate::layout::{expression_types, operator_columns, plan_columns, types_of};
use crate::operator::{LogicalOperator, MaterializedCTE, OutputColumn, Projection};
use crate::plan::{
    count_among, count_parts, has_sound_arity, is_copy, is_part, lemma_counted_part, read_of,
    reversed, LogicalPlan, PlanCopier,
};
use crate::types::{CTEMaterialize, LogicalType};

verus! {

/// Whether a plan is a read of a definition.
pub open spec fn is_reference(plan: LogicalPlan, cte_index: usize) -> bool {
    plan.operator matches LogicalOperator::CTERef(reference) && reference.cte_index == cte_index
}

/// How often a plan reads a definition.
pub open spec fn reference_count(plan: LogicalPlan, cte_index: usize) -> nat
    decreases plan, 0nat,
{
    if is_reference(plan, cte_index) {
        1
    } else {
        references_among(plan.children@, cte_index, plan.children@.len())
    }
}

/// How often the first `n` plans read a definition.
pub open spec fn references_among(plans: Seq<LogicalPlan>, cte_index: usize, n: nat) -> nat
    decreases plans, n,
{
    if n == 0 || n > plans.len() {
        0
    } else {
        references_among(plans, cte_index, (n - 1) as nat) + reference_count(
            plans[n - 1],
            cte_index,
        )
    }
}

/// Whether a plan limits its rows somewhere.
pub open spec fn has_limit(plan: LogicalPlan) -> bool
    decreases plan, 0nat,
{
    plan.operator is Limit || plan.operator is TopN || limit_among(
        plan.children@,
        plan.children@.len(),
    )
}

pub open spec fn limit_among(plans: Seq<LogicalPlan>, n: nat) -> bool
    decreases plans, n,
{
    if n == 0 || n > plans.len() {
        false
    } else {
        limit_among(plans, (n - 1) as nat) || has_limit(plans[n - 1])
    }
}

/// Whether a plan computes an aggregate, a distinct or a window at its top,
/// below operators with one input at most.
pub open spec fn ends_in_computation(plan: LogicalPlan) -> bool
    decreases plan,
{
    plan.operator is Aggregate || plan.operator is Distinct || plan.operator is Window || (
    plan.children@.len() == 1 && ends_in_computation(plan.children@[0]))
}

/// What becomes of a shared definition.
#[derive(Clone, Copy, Debug, PartialEq, Eq, Structural)]
pub enum InlineChoice {
    /// It stays shared.
    Keep,
    /// Nothing reads it.
    Drop,
    /// It stands in place of its only read.
    Move,
    /// A copy stands in place of each read.
    Copy { references: usize },
}

pub open spec fn chosen(plan: LogicalPlan) -> InlineChoice {
    match plan.operator {
        LogicalOperator::MaterializedCTE(cte) => if plan.children@.len() != 2 {
            InlineChoice::Keep
        } else {
            let reader = plan.children@[1];
            let references = reference_count(reader, cte.cte_index);
            if references == 0 {
                InlineChoice::Drop
            } else if cte.materialized is Materialized {
                InlineChoice::Keep
            } else if references == 1 {
                InlineChoice::Move
            } else if cte.materialized is NotMaterialized || (has_limit(reader)
                && !ends_in_computation(plan.children@[0])) {
                InlineChoice::Copy {
                    references: if references <= usize::MAX {
                        references as usize
                    } else {
                        usize::MAX
                    },
                }
            } else {
                InlineChoice::Keep
            }
        },
        _ => InlineChoice::Keep,
    }
}

/// Counts the reads of a definition, as far as they can be counted.
pub fn count_cte_references(plan: &LogicalPlan, cte_index: usize) -> (r: usize)
    ensures
        r == if reference_count(*plan, cte_index) <= usize::MAX {
            reference_count(*plan, cte_index) as usize
        } else {
            usize::MAX
        },
    decreases plan,
{
    if let LogicalOperator::CTERef(reference) = &plan.operator {
        if reference.cte_index == cte_index {
            return 1;
        }
    }
    let mut total: usize = 0;
    let mut i: usize = 0;
    while i < plan.children.len()
        invariant
            i <= plan.children@.len(),
            total == if references_among(plan.children@, cte_index, i as nat) <= usize::MAX {
                references_among(plan.children@, cte_index, i as nat) as usize
            } else {
                usize::MAX
            },
        decreases plan.children@.len() - i,
    {
        let more: usize = count_cte_references(&plan.children[i], cte_index);
        if more <= usize::MAX - total {
            total = total + more;
        } else {
            total = usize::MAX;
        }
        i = i + 1;
    }
    total
}

pub fn contains_limit(plan: &LogicalPlan) -> (r: bool)
    ensures
        r == has_limit(*plan),
    decreases plan,
{
    match &plan.operator {
        LogicalOperator::Limit(_) | LogicalOperator::TopN(_) => {
            return true;
        },
        _ => {},
    }
    let mut found: bool = false;
    let mut i: usize = 0;
    while i < plan.children.len()
        invariant
            i <= plan.children@.len(),
            found == limit_among(plan.children@, i as nat),
        decreases plan.children@.len() - i,
    {
        let inner = contains_limit(&plan.children[i]);
        found = found || inner;
        i = i + 1;
    }
    found
}

pub fn ends_in_aggregate_or_distinct(plan: &LogicalPlan) -> (r: bool)
    ensures
        r == ends_in_computation(*plan),
    decreases plan,
{
    match &plan.operator {
        LogicalOperator::Aggregate(_) | LogicalOperator::Distinct | LogicalOperator::Window(_) => {
            return true;
        },
        _ => {},
    }
    if plan.children.len() != 1 {
        return false;
    }
    ends_in_aggregate_or_distinct(&plan.children[0])
}

/// Decides what becomes of the definition at the root of a plan.
pub fn inline_choice(plan: &LogicalPlan) -> (r: InlineChoice)
    ensures
        r == chosen(*plan),
{
    let LogicalOperator::MaterializedCTE(cte) = &plan.operator else {
        return InlineChoice::Keep;
    };
    if plan.children.len() != 2 {
        return InlineChoice::Keep;
    }
    let references: usize = count_cte_references(&plan.children[1], cte.cte_index);
    if references == 0 {
        return InlineChoice::Drop;
    }
    match cte.materialized {
        CTEMaterialize::Materialized => InlineChoice::Keep,
        CTEMaterialize::NotMaterialized => if references == 1 {
            InlineChoice::Move
        } else {
            InlineChoice::Copy { references }
        },
        CTEMaterialize::Default => if references == 1 {
            InlineChoice::Move
        } else if contains_limit(&plan.children[1]) && !ends_in_aggregate_or_distinct(
            &plan.children[0],
        ) {
            InlineChoice::Copy { references }
        } else {
            InlineChoice::Keep
        },
    }
}

/// References to the given columns.
pub open spec fn column_references(columns: Seq<OutputColumn>) -> Seq<ExpressionView> {
    columns.map_values(
        |c: OutputColumn|
            ExpressionView::ColumnRef(
                ColumnRefExpression { binding: c.binding, depth: 0, return_type: c.logical_type },
            ),
    )
}

/// Whether `plan` passes on all columns of a definition under another index.
pub open spec fn is_projection_of(
    plan: LogicalPlan,
    table_index: usize,
    definition: LogicalPlan,
) -> bool {
    &&& plan.operator matches LogicalOperator::Projection(projection) && projection.table_index
        == table_index && views(projection.expressions@) == column_references(
        plan_columns(definition),
    )
    &&& plan.children@ == seq![definition]
}

/// `after` is `before` with the reads of a definition replaced, in order, by
/// the definitions from `offset` on.
pub open spec fn is_inlined(
    before: LogicalPlan,
    cte_index: usize,
    definitions: Seq<LogicalPlan>,
    offset: int,
    after: LogicalPlan,
) -> bool
    decreases before,
{
    &&& after.stats == before.stats
    &&& match before.operator {
        LogicalOperator::CTERef(reference) if reference.cte_index == cte_index => is_projection_of(
            after,
            reference.table_index,
            definitions[offset],
        ),
        _ => {
            &&& after.operator == before.operator
            &&& after.children@.len() == before.children@.len()
            &&& forall|i: int|
                #![trigger before.children@[i]]
                #![trigger after.children@[i]]
                0 <= i < before.children@.len() ==> is_inlined(
                    before.children@[i],
                    cte_index,
                    definitions,
                    offset + references_among(before.children@, cte_index, i as nat),
                    after.children@[i],
                )
        },
    }
}

fn projection_for_cte_ref(table_index: usize, definition: LogicalPlan) -> (r: (
    LogicalOperator,
    Vec<LogicalPlan>,
))
    ensures
        r.0 matches LogicalOperator::Projection(projection) && projection.table_index == table_index
            && views(projection.expressions@) == column_references(plan_columns(definition)),
        r.1@ == seq![definition],
{
    let layout = definition.output_layout();
    let mut expressions: Vec<Expression> = Vec::new();
    let mut i: usize = 0;
    while i < layout.columns.len()
        invariant
            i <= layout.columns@.len(),
            views(expressions@) == column_references(layout.columns@).take(i as int),
        decreases layout.columns@.len() - i,
    {
        let ghost before = expressions@;
        let column = layout.columns[i];
        let e = Expression::ColumnRef(Arc::new(
            ColumnRefExpression {
                binding: column.binding,
                depth: 0,
                return_type: column.logical_type,
            },
        ));
        expressions.push(e);
        assert(views(expressions@) =~= views(before).push(e@));
        assert(views(expressions@) =~= column_references(layout.columns@).take(i + 1));
        i = i + 1;
    }
    assert(views(expressions@) =~= column_references(layout.columns@));
    let mut children: Vec<LogicalPlan> = Vec::new();
    children.push(definition);
    assert(children@ =~= seq![definition]);
    (LogicalOperator::Projection(Projection { table_index, expressions }), children)
}

proof fn lemma_references_grow(plans: Seq<LogicalPlan>, cte_index: usize, n: nat, m: nat)
    requires
        n <= m <= plans.len(),
    ensures
        references_among(plans, cte_index, n) <= references_among(plans, cte_index, m),
    decreases m,
{
    if n < m {
        lemma_references_grow(plans, cte_index, n, (m - 1) as nat);
    }
}

/// Whether replacing looks at the used definitions only.
proof fn lemma_inlined_prefix(
    before: LogicalPlan,
    cte_index: usize,
    shorter: Seq<LogicalPlan>,
    longer: Seq<LogicalPlan>,
    offset: int,
    after: LogicalPlan,
)
    requires
        0 <= offset,
        offset + reference_count(before, cte_index) <= shorter.len() <= longer.len(),
        forall|i: int| 0 <= i < shorter.len() ==> longer[i] == #[trigger] shorter[i],
        is_inlined(before, cte_index, shorter, offset, after),
    ensures
        is_inlined(before, cte_index, longer, offset, after),
    decreases before,
{
    if is_reference(before, cte_index) {
        assert(longer[offset] == shorter[offset]);
    } else {
        assert forall|i: int|
            #![trigger before.children@[i]]
            #![trigger after.children@[i]]
            0 <= i < before.children@.len() implies is_inlined(
            before.children@[i],
            cte_index,
            longer,
            offset + references_among(before.children@, cte_index, i as nat),
            after.children@[i],
        ) by {
            lemma_references_grow(
                before.children@,
                cte_index,
                (i + 1) as nat,
                before.children@.len(),
            );
            lemma_inlined_prefix(
                before.children@[i],
                cte_index,
                shorter,
                longer,
                offset + references_among(before.children@, cte_index, i as nat),
                after.children@[i],
            );
        }
    }
}

/// Replaces the reads of a definition by the last of the given ones, and takes
/// those away.
fn inline_last(plan: LogicalPlan, cte_index: usize, definitions: &mut Vec<LogicalPlan>) -> (r:
    LogicalPlan)
    requires
        reference_count(plan, cte_index) <= old(definitions)@.len(),
    ensures
        final(definitions)@ == old(definitions)@.take(
            old(definitions)@.len() - reference_count(plan, cte_index),
        ),
        is_inlined(
            plan,
            cte_index,
            old(definitions)@,
            old(definitions)@.len() - reference_count(plan, cte_index),
            r,
        ),
    decreases plan,
{
    let ghost whole = plan;
    let ghost given = definitions@;
    let LogicalPlan { stats, operator, children } = plan;
    if let LogicalOperator::CTERef(reference) = &operator {
        if reference.cte_index == cte_index {
            let table_index: usize = reference.table_index;
            if let Some(definition) = definitions.pop() {
                let (operator, children) = projection_for_cte_ref(table_index, definition);
                assert(definitions@ =~= given.take(given.len() - 1));
                return LogicalPlan { stats, operator, children };
            }
        }
    }
    let mut rest = children;
    let ghost all = rest@;
    let ghost total = references_among(all, cte_index, all.len());
    let mut reversed: Vec<LogicalPlan> = Vec::new();
    assert(given.take(given.len() - total + references_among(all, cte_index, all.len()))
        =~= given);
    while rest.len() > 0
        invariant
            whole == plan,
            all == whole.children@,
            total == references_among(all, cte_index, all.len()),
            total <= given.len(),
            rest@.len() <= all.len(),
            rest@ == all.take(rest@.len() as int),
            reversed@.len() + rest@.len() == all.len(),
            definitions@ == given.take(
                given.len() - total + references_among(all, cte_index, rest@.len()),
            ),
            references_among(all, cte_index, rest@.len()) <= total,
            forall|k: int|
                0 <= k < reversed@.len() ==> is_inlined(
                    all[all.len() - 1 - k],
                    cte_index,
                    given,
                    given.len() - total + references_among(
                        all,
                        cte_index,
                        (all.len() - 1 - k) as nat,
                    ),
                    #[trigger] reversed@[k],
                ),
        decreases rest@.len(),
    {
        let ghost n = rest@.len();
        let ghost held = definitions@;
        if let Some(child) = rest.pop() {
            proof {
                assert(child == all[n - 1]);
                assert(rest@ =~= all.take(n - 1));
                lemma_references_grow(all, cte_index, (n - 1) as nat, n);
            }
            let replaced = inline_last(child, cte_index, definitions);
            proof {
                let offset = given.len() - total + references_among(all, cte_index, (n - 1) as nat);
                assert(held.len() - reference_count(child, cte_index) == offset);
                assert(held.take(offset) =~= given.take(offset));
                lemma_inlined_prefix(child, cte_index, held, given, offset, replaced);
            }
            reversed.push(replaced);
        }
    }
    let mut inputs: Vec<LogicalPlan> = Vec::new();
    while reversed.len() > 0
        invariant
            inputs@.len() + reversed@.len() == all.len(),
            forall|k: int|
                0 <= k < inputs@.len() ==> is_inlined(
                    all[k],
                    cte_index,
                    given,
                    given.len() - total + references_among(all, cte_index, k as nat),
                    #[trigger] inputs@[k],
                ),
            forall|k: int|
                0 <= k < reversed@.len() ==> is_inlined(
                    all[all.len() - 1 - k],
                    cte_index,
                    given,
                    given.len() - total + references_among(
                        all,
                        cte_index,
                        (all.len() - 1 - k) as nat,
                    ),
                    #[trigger] reversed@[k],
                ),
        decreases reversed@.len(),
    {
        if let Some(child) = reversed.pop() {
            inputs.push(child);
        }
    }
    LogicalPlan { stats, operator, children: inputs }
}

/// Replaces each read of a definition by one of the given definitions, in
/// order.
pub fn inline_references(
    plan: LogicalPlan,
    cte_index: usize,
    definitions: Vec<LogicalPlan>,
) -> (r: LogicalPlan)
    requires
        definitions@.len() == reference_count(plan, cte_index),
    ensures
        is_inlined(plan, cte_index, definitions@, 0, r),
{
    let mut definitions = definitions;
    inline_last(plan, cte_index, &mut definitions)
}

/// `after` is `before` with the definition at its root treated as chosen.
pub open spec fn is_treated(before: LogicalPlan, copies: Seq<LogicalPlan>, after: LogicalPlan) -> bool {
    match (chosen(before), before.operator) {
        (InlineChoice::Drop, _) => after.stats == before.stats && after.operator
            == before.children@[1].operator && after.children == before.children@[1].children,
        (InlineChoice::Move, LogicalOperator::MaterializedCTE(cte)) => {
            &&& after.stats == before.stats
            &&& is_inlined(
                before.children@[1],
                cte.cte_index,
                seq![before.children@[0]],
                0,
                LogicalPlan { stats: before.children@[1].stats, ..after },
            )
        },
        (InlineChoice::Copy { .. }, LogicalOperator::MaterializedCTE(cte)) => {
            &&& after.stats == before.stats
            &&& is_inlined(
                before.children@[1],
                cte.cte_index,
                copies,
                0,
                LogicalPlan { stats: before.children@[1].stats, ..after },
            )
        },
        _ => after == before,
    }
}

/// Treats the definition at the root of a plan as chosen. Where it is copied,
/// there is one copy for each read.
pub fn try_inline(plan: LogicalPlan, copies: Vec<LogicalPlan>) -> (r: LogicalPlan)
    requires
        copies_suffice(plan, copies@),
    ensures
        is_treated(plan, copies@, r),
{
    let choice = inline_choice(&plan);
    match choice {
        InlineChoice::Keep => {
            return plan;
        },
        _ => {},
    }
    let LogicalPlan { stats, operator, children } = plan;
    let cte_index: usize = match &operator {
        LogicalOperator::MaterializedCTE(cte) => cte.cte_index,
        _ => 0,
    };
    let mut children = children;
    let reader = children.pop();
    let definition = children.pop();
    if let (Some(definition), Some(reader)) = (definition, reader) {
        match choice {
            InlineChoice::Move => {
                let mut one: Vec<LogicalPlan> = Vec::new();
                one.push(definition);
                assert(one@ =~= seq![definition]);
                let inlined = inline_references(reader, cte_index, one);
                let LogicalPlan { stats: _, operator, children } = inlined;
                LogicalPlan { stats, operator, children }
            },
            InlineChoice::Copy { references: _ } => {
                let inlined = inline_references(reader, cte_index, copies);
                let LogicalPlan { stats: _, operator, children } = inlined;
                LogicalPlan { stats, operator, children }
            },
            _ => {
                let LogicalPlan { stats: _, operator, children } = reader;
                LogicalPlan { stats, operator, children }
            },
        }
    } else {
        assert(false);
        LogicalPlan { stats, operator, children }
    }
}

/// Whether a copier of this kind gave all copies for one definition.
pub open spec fn are_copies_of<C: PlanCopier>(
    definition: LogicalPlan,
    copies: Seq<LogicalPlan>,
) -> bool {
    forall|i: int| 0 <= i < copies.len() ==> is_copy::<C>(definition, #[trigger] copies[i])
}

/// Whether there is one copy for each read of a definition that is copied.
pub open spec fn copies_suffice(plan: LogicalPlan, copies: Seq<LogicalPlan>) -> bool {
    chosen(plan) is Copy ==> (plan.operator matches LogicalOperator::MaterializedCTE(cte)
        && copies.len() == reference_count(plan.children@[1], cte.cte_index))
}

/// Whether the copies are of the definition at the root of a plan, where it is
/// copied.
pub open spec fn copies_are_of_definition<C: PlanCopier>(
    plan: LogicalPlan,
    copies: Seq<LogicalPlan>,
) -> bool {
    chosen(plan) is Copy ==> are_copies_of::<C>(plan.children@[0], copies)
}

/// `after` is `before` with all definitions treated as chosen, inner ones
/// first.
pub open spec fn is_rewritten<C: PlanCopier>(before: LogicalPlan, after: LogicalPlan) -> bool
    decreases before, 1nat,
{
    exists|between: LogicalPlan, copies: Seq<LogicalPlan>|
        inputs_are_rewritten::<C>(before, between) && copies_suffice(between, copies)
            && copies_are_of_definition::<C>(between, copies)
            && #[trigger] is_treated(between, copies, after)
}

/// `after` is `before` with all definitions in its inputs treated as chosen.
pub open spec fn inputs_are_rewritten<C: PlanCopier>(
    before: LogicalPlan,
    after: LogicalPlan,
) -> bool
    decreases before, 0nat,
{
    &&& after.stats == before.stats
    &&& after.operator == before.operator
    &&& after.children@.len() == before.children@.len()
    &&& forall|i: int|
        #![trigger before.children@[i]]
        #![trigger after.children@[i]]
        0 <= i < before.children@.len() ==> is_rewritten::<C>(
            before.children@[i],
            after.children@[i],
        )
}

/// Puts definitions in place of their reads.
pub struct CTEInlining<C> {
    pub copier: C,
}

impl<C: PlanCopier> CTEInlining<C> {
    pub fn new(copier: C) -> (r: CTEInlining<C>)
        ensures
            r.copier == copier,
    {
        CTEInlining { copier }
    }

    /// Treats every definition of a plan as chosen.
    pub fn optimize_plan(&mut self, plan: LogicalPlan) -> (r: LogicalPlan)
        ensures
            is_rewritten::<C>(plan, r),
    {
        self.rewrite_plan(plan)
    }

    fn rewrite_plan(&mut self, plan: LogicalPlan) -> (r: LogicalPlan)
        ensures
            is_rewritten::<C>(plan, r),
        decreases plan,
    {
        let ghost whole = plan;
        let LogicalPlan { stats, operator, children } = plan;
        let ghost all = children@;
        let mut rest = reversed(children);
        let mut inputs: Vec<LogicalPlan> = Vec::new();
        while rest.len() > 0
            invariant
                whole == plan,
                all == whole.children@,
                rest@.len() <= all.len(),
                rest@ == all.reverse().take(rest@.len() as int),
                inputs@.len() + rest@.len() == all.len(),
                forall|k: int|
                    0 <= k < inputs@.len() ==> is_rewritten::<C>(all[k], #[trigger] inputs@[k]),
            decreases rest@.len(),
        {
            let ghost n = rest@.len();
            if let Some(child) = rest.pop() {
                proof {
                    assert(child == all[inputs@.len() as int]);
                    assert(rest@ =~= all.reverse().take(n - 1));
                }
                inputs.push(self.rewrite_plan(child));
            }
        }
        let between = LogicalPlan { stats, operator, children: inputs };
        assert(inputs_are_rewritten::<C>(whole, between));
        let copies = self.copies(&between);
        let after = try_inline(between, copies);
        assert(is_treated(between, copies@, after));
        after
    }

    /// One copy of the definition at the root of a plan for each read, where it
    /// is copied.
    fn copies(&mut self, plan: &LogicalPlan) -> (r: Vec<LogicalPlan>)
        ensures
            copies_suffice(*plan, r@),
            copies_are_of_definition::<C>(*plan, r@),
    {
        let mut r: Vec<LogicalPlan> = Vec::new();
        match (inline_choice(plan), &plan.operator) {
            (InlineChoice::Copy { references: _ }, LogicalOperator::MaterializedCTE(cte)) => {
                self.copy_for_references(
                    &plan.children[1],
                    cte.cte_index,
                    &plan.children[0],
                    &mut r,
                );
            },
            _ => {},
        }
        r
    }

    /// Appends a copy of the definition for each read.
    fn copy_for_references(
        &mut self,
        plan: &LogicalPlan,
        cte_index: usize,
        definition: &LogicalPlan,
        copies: &mut Vec<LogicalPlan>,
    )
        requires
            are_copies_of::<C>(*definition, old(copies)@),
        ensures
            final(copies)@.len() == old(copies)@.len() + reference_count(*plan, cte_index),
            are_copies_of::<C>(*definition, final(copies)@),
        decreases *plan,
    {
        if let LogicalOperator::CTERef(reference) = &plan.operator {
            if reference.cte_index == cte_index {
                let copy = self.copier.deep_copy_plan(definition);
                let ghost earlier = copies@;
                assert(is_copy::<C>(*definition, copy));
                copies.push(copy);
                assert forall|i: int| 0 <= i < copies@.len() implies is_copy::<C>(
                    *definition,
                    #[trigger] copies@[i],
                ) by {
                    if i < earlier.len() {
                        assert(copies@[i] == earlier[i]);
                    }
                }
                return;
            }
        }
        let ghost before = copies@.len();
        let mut i: usize = 0;
        while i < plan.children.len()
            invariant
                i <= plan.children@.len(),
                are_copies_of::<C>(*definition, copies@),
                copies@.len() == before + references_among(plan.children@, cte_index, i as nat),
            decreases plan.children@.len() - i,
        {
            self.copy_for_references(&plan.children[i], cte_index, definition, copies);
            i = i + 1;
        }
    }
}

/// No read of a definition is left where none of what replaced it reads it.
pub proof fn no_reference_is_left(
    before: LogicalPlan,
    cte_index: usize,
    definitions: Seq<LogicalPlan>,
    offset: int,
    after: LogicalPlan,
)
    requires
        0 <= offset,
        offset + reference_count(before, cte_index) <= definitions.len(),
        is_inlined(before, cte_index, definitions, offset, after),
        forall|i: int|
            0 <= i < definitions.len() ==> reference_count(#[trigger] definitions[i], cte_index)
                == 0,
    ensures
        reference_count(after, cte_index) == 0,
    decreases before,
{
    if is_reference(before, cte_index) {
        let definition = definitions[offset];
        assert(after.children@[0] == definition);
        assert(references_among(after.children@, cte_index, 0) == 0);
        assert(references_among(after.children@, cte_index, 1) == 0);
    } else {
        assert forall|i: int| 0 <= i < after.children@.len() implies reference_count(
            #[trigger] after.children@[i],
            cte_index,
        ) == 0 by {
            lemma_references_grow(
                before.children@,
                cte_index,
                (i + 1) as nat,
                before.children@.len(),
            );
            no_reference_is_left(
                before.children@[i],
                cte_index,
                definitions,
                offset + references_among(before.children@, cte_index, i as nat),
                after.children@[i],
            );
        }
        lemma_no_references(after.children@, cte_index, after.children@.len());
    }
}

proof fn lemma_no_references(plans: Seq<LogicalPlan>, cte_index: usize, n: nat)
    requires
        n <= plans.len(),
        forall|i: int|
            0 <= i < plans.len() ==> reference_count(#[trigger] plans[i], cte_index) == 0,
    ensures
        references_among(plans, cte_index, n) == 0,
    decreases n,
{
    if n > 0 {
        lemma_no_references(plans, cte_index, (n - 1) as nat);
    }
}

/// Whether every read of a definition expects the given types.
pub open spec fn reads_types(plan: LogicalPlan, cte_index: usize, types: Seq<LogicalType>) -> bool
    decreases plan,
{
    match plan.operator {
        LogicalOperator::CTERef(reference) if reference.cte_index == cte_index =>
            reference.column_types@ == types,
        _ => forall|i: int|
            #![trigger plan.children@[i]]
            0 <= i < plan.children@.len() ==> reads_types(plan.children@[i], cte_index, types),
    }
}

/// Replacing the reads of a definition leaves the columns of the reader as they
/// are, where the reads expect the definition's types.
#[verifier::rlimit(50)]
#[verifier::spinoff_prover]
pub proof fn inlining_keeps_columns(
    before: LogicalPlan,
    cte_index: usize,
    types: Seq<LogicalType>,
    definitions: Seq<LogicalPlan>,
    offset: int,
    after: LogicalPlan,
)
    requires
        0 <= offset,
        offset + reference_count(before, cte_index) <= definitions.len(),
        is_inlined(before, cte_index, definitions, offset, after),
        reads_types(before, cte_index, types),
        forall|i: int|
            0 <= i < definitions.len() ==> types_of(plan_columns(#[trigger] definitions[i]))
                == types,
    ensures
        plan_columns(after) == plan_columns(before),
    decreases before,
{
    let old_inputs = Seq::new(
        before.children@.len(),
        |i: int|
            if 0 <= i < before.children@.len() {
                plan_columns(before.children@[i])
            } else {
                arbitrary()
            },
    );
    let new_inputs = Seq::new(
        after.children@.len(),
        |i: int|
            if 0 <= i < after.children@.len() {
                plan_columns(after.children@[i])
            } else {
                arbitrary()
            },
    );
    assert(plan_columns(before) == operator_columns(before.operator, old_inputs));
    assert(plan_columns(after) == operator_columns(after.operator, new_inputs));
    if is_reference(before, cte_index) {
        let definition = definitions[offset];
        assert(types_of(plan_columns(definition)) == types);
        if let LogicalOperator::Projection(projection) = after.operator {
            let computed = expression_types(projection.expressions@);
            let columns = plan_columns(definition);
            assert(views(projection.expressions@).len() == projection.expressions@.len());
            assert(column_references(columns).len() == columns.len());
            assert(types_of(columns).len() == columns.len());
            assert forall|i: int| 0 <= i < types.len() implies computed[i] == types[i] by {
                assert(views(projection.expressions@)[i] == projection.expressions@[i]@);
                assert(column_references(columns)[i] == projection.expressions@[i]@);
                assert(types_of(columns)[i] == columns[i].logical_type);
            }
            assert(computed =~= types);
        }
    } else {
        assert forall|i: int| 0 <= i < old_inputs.len() implies old_inputs[i]
            == new_inputs[i] by {
            lemma_references_grow(
                before.children@,
                cte_index,
                (i + 1) as nat,
                before.children@.len(),
            );
            inlining_keeps_columns(
                before.children@[i],
                cte_index,
                types,
                definitions,
                offset + references_among(before.children@, cte_index, i as nat),
                after.children@[i],
            );
        }
        assert(old_inputs =~= new_inputs);
    }
}

/// Reads are counted wherever they stand.
proof fn lemma_references_are_parts(plan: LogicalPlan, cte_index: usize)
    requires
        has_sound_arity(plan),
    ensures
        reference_count(plan, cte_index) == count_parts(plan, read_of(cte_index)),
    decreases plan, 0nat,
{
    let property = read_of(cte_index);
    if is_reference(plan, cte_index) {
        assert(count_among(plan.children@, property, 0) == 0);
    } else {
        lemma_references_among_parts(plan.children@, cte_index, plan.children@.len());
    }
}

proof fn lemma_references_among_parts(plans: Seq<LogicalPlan>, cte_index: usize, n: nat)
    requires
        n <= plans.len(),
        forall|i: int| 0 <= i < n ==> has_sound_arity(#[trigger] plans[i]),
    ensures
        references_among(plans, cte_index, n) == count_among(plans, read_of(cte_index), n),
    decreases plans, n,
{
    if n > 0 {
        lemma_references_among_parts(plans, cte_index, (n - 1) as nat);
        lemma_references_are_parts(plans[n - 1], cte_index);
    }
}

/// The property of letting through a given number of rows at most.
pub open spec fn is_row_limit() -> spec_fn(LogicalPlan) -> bool {
    |plan: LogicalPlan| plan.operator is Limit || plan.operator is TopN
}

proof fn lemma_limits_are_parts(plan: LogicalPlan)
    ensures
        has_limit(plan) <==> count_parts(plan, is_row_limit()) > 0,
    decreases plan, 0nat,
{
    lemma_limits_among_parts(plan.children@, plan.children@.len());
}

proof fn lemma_limits_among_parts(plans: Seq<LogicalPlan>, n: nat)
    requires
        n <= plans.len(),
    ensures
        limit_among(plans, n) <==> count_among(plans, is_row_limit(), n) > 0,
    decreases plans, n,
{
    if n > 0 {
        lemma_limits_among_parts(plans, (n - 1) as nat);
        lemma_limits_are_parts(plans[n - 1]);
    }
}

/// Whether `part` is reached from the top of a plan through operators with a
/// single input.
pub open spec fn is_on_spine(part: LogicalPlan, plan: LogicalPlan) -> bool
    decreases plan,
{
    part == plan || (plan.children@.len() == 1 && is_on_spine(part, plan.children@[0]))
}

/// Whether a plan computes its rows by grouping, removing duplicates or windows
/// before anything with several inputs.
pub open spec fn computes_at_top(plan: LogicalPlan) -> bool {
    exists|part: LogicalPlan| #[trigger]
        is_on_spine(part, plan) && (part.operator is Aggregate || part.operator is Distinct
            || part.operator is Window)
}

proof fn lemma_spine(plan: LogicalPlan)
    ensures
        ends_in_computation(plan) <==> computes_at_top(plan),
    decreases plan,
{
    assert(is_on_spine(plan, plan));
    if plan.children@.len() == 1 {
        lemma_spine(plan.children@[0]);
        if computes_at_top(plan.children@[0]) {
            let part = choose|part: LogicalPlan| #[trigger]
                is_on_spine(part, plan.children@[0]) && (part.operator is Aggregate
                    || part.operator is Distinct || part.operator is Window);
            assert(is_on_spine(part, plan));
        }
    }
    if computes_at_top(plan) {
        let part = choose|part: LogicalPlan| #[trigger]
            is_on_spine(part, plan) && (part.operator is Aggregate || part.operator is Distinct
                || part.operator is Window);
        if part != plan {
            assert(is_on_spine(part, plan.children@[0]));
        }
    }
}

/// What becomes of a definition, by the operators of its reader and at its own
/// top. Unread, it goes. A materialized one that is read stays. Otherwise it
/// moves to its only read, or is copied to several: always where it must not be
/// materialized, and by default only where some limit stops the reader early and
/// the definition computes nothing at its top.
pub proof fn definition_is_copied_only_where_allowed(plan: LogicalPlan, cte: MaterializedCTE)
    requires
        plan.operator == LogicalOperator::MaterializedCTE(cte),
        plan.children@.len() == 2,
        has_sound_arity(plan.children@[1]),
    ensures
        ({
            let reader = plan.children@[1];
            let reads = count_parts(reader, read_of(cte.cte_index));
            let is_read = exists|part: LogicalPlan| #[trigger]
                is_part(part, reader) && read_of(cte.cte_index)(part);
            let is_limited = exists|part: LogicalPlan| #[trigger]
                is_part(part, reader) && is_row_limit()(part);
            &&& chosen(plan) is Drop <==> !is_read
            &&& is_read && cte.materialized is Materialized ==> chosen(plan) is Keep
            &&& reads == 1 && !(cte.materialized is Materialized) ==> chosen(plan) is Move
            &&& chosen(plan) is Move ==> reads == 1
            &&& chosen(plan) is Copy ==> reads > 1 && (cte.materialized is NotMaterialized || (
            cte.materialized is Default && is_limited && !computes_at_top(plan.children@[0])))
            &&& reads > 1 && cte.materialized is NotMaterialized ==> chosen(plan) is Copy
            &&& reads > 1 && cte.materialized is Default && is_limited && !computes_at_top(
                plan.children@[0],
            ) ==> chosen(plan) is Copy
        }),
{
    let reader = plan.children@[1];
    lemma_references_are_parts(reader, cte.cte_index);
    lemma_counted_part(reader, read_of(cte.cte_index));
    lemma_limits_are_parts(reader);
    lemma_counted_part(reader, is_row_limit());
    lemma_spine(plan.children@[0]);
}

/// A materialized definition that is read stays shared: the owner keeps its place
/// with its two inputs.
pub proof fn materialized_definition_stays_shared(
    plan: LogicalPlan,
    cte: MaterializedCTE,
    copies: Seq<LogicalPlan>,
    after: LogicalPlan,
)
    requires
        plan.operator == LogicalOperator::MaterializedCTE(cte),
        plan.children@.len() == 2,
        has_sound_arity(plan.children@[1]),
        cte.materialized is Materialized,
        exists|part: LogicalPlan| #[trigger]
            is_part(part, plan.children@[1]) && read_of(cte.cte_index)(part),
        is_treated(plan, copies, after),
    ensures
        after == plan,
{
    definition_is_copied_only_where_allowed(plan, cte);
}

/// The same for a whole plan, whose inputs are rewritten first: the owner of a
/// materialized definition keeps its place over its rewritten inputs, as long as
/// the reader still reads the definition.
pub proof fn materialized_root_stays_shared<C: PlanCopier>(
    before: LogicalPlan,
    cte: MaterializedCTE,
    after: LogicalPlan,
)
    requires
        before.operator == LogicalOperator::MaterializedCTE(cte),
        before.children@.len() == 2,
        cte.materialized is Materialized,
        is_rewritten::<C>(before, after),
    ensures
        exists|between: LogicalPlan| #[trigger]
            inputs_are_rewritten::<C>(before, between) && (has_sound_arity(between.children@[1])
                && (exists|part: LogicalPlan| #[trigger]
                is_part(part, between.children@[1]) && read_of(cte.cte_index)(part)) ==> after
                == between),
{
    let (between, copies) = choose|between: LogicalPlan, copies: Seq<LogicalPlan>|
        inputs_are_rewritten::<C>(before, between) && copies_suffice(between, copies)
            && copies_are_of_definition::<C>(between, copies)
            && #[trigger] is_treated(between, copies, after);
    assert(inputs_are_rewritten::<C>(before, between));
    if has_sound_arity(between.children@[1]) && exists|part: LogicalPlan| #[trigger]
        is_part(part, between.children@[1]) && read_of(cte.cte_index)(part) {
        materialized_definition_stays_shared(between, cte, copies, after);
    }
}

/// A definition that nothing reads leaves its reader as it is, with the facts of
/// the owner.
pub proof fn unread_definition_leaves_the_reader(
    plan: LogicalPlan,
    cte: MaterializedCTE,
    copies: Seq<LogicalPlan>,
    after: LogicalPlan,
)
    requires
        plan.operator == LogicalOperator::MaterializedCTE(cte),
        plan.children@.len() == 2,
        has_sound_arity(plan.children@[1]),
        forall|part: LogicalPlan| #[trigger]
            is_part(part, plan.children@[1]) ==> !read_of(cte.cte_index)(part),
        is_treated(plan, copies, after),
    ensures
        after.operator == plan.children@[1].operator,
        after.children == plan.children@[1].children,
        after.stats == plan.stats,
{
    definition_is_copied_only_where_allowed(plan, cte);
}

} // verus!
