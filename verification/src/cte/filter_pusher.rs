//! Pushing into a shared definition what all of its readers filter by.

use vstd::prelude::*;

use crate::cte::predicate_domain::{
    derive_predicates, needed_rows_are_kept, producer_predicates, reference_views, rename,
    respects_connectives, FilteredCTERef, FilteredView,
};
use crate::expression::substitution::substituted;
use crate::expression::analysis::views;
use crate::expression::{Expression, ExpressionView};
use crate::layout::{bindings_of, operator_columns, plan_columns};
use crate::operator::{Filter, LogicalOperator, MaterializedCTE, ProjectionMap};
use crate::plan::{
    count_among, count_parts, has_sound_arity, is_part, read_of, reversed, LogicalPlan,
};
use crate::types::CTEMaterialize;

verus! {

/// The definition that a plan reads directly below its filter.
pub open spec fn filtered_reference(plan: LogicalPlan) -> Option<usize> {
    match plan.operator {
        LogicalOperator::Filter(_) => if plan.children@.len() > 0 {
            match plan.children@[0].operator {
                LogicalOperator::CTERef(reference) => Some(reference.cte_index),
                _ => None,
            }
        } else {
            None
        },
        _ => None,
    }
}

/// The read that a filter right above it makes.
pub open spec fn filtered_read(plan: LogicalPlan) -> FilteredView {
    FilteredView {
        bindings: bindings_of(plan_columns(plan.children@[0])),
        filters: match plan.operator {
            LogicalOperator::Filter(filter) => views(filter.expressions@),
            _ => Seq::empty(),
        },
    }
}

/// All filtered reads of a definition, in order.
pub open spec fn filtered_reads(plan: LogicalPlan, cte_index: usize) -> Seq<FilteredView>
    decreases plan, 0nat,
{
    match filtered_reference(plan) {
        Some(index) => if index == cte_index {
            seq![filtered_read(plan)]
        } else {
            Seq::empty()
        },
        None => reads_among(plan.children@, cte_index, plan.children@.len()),
    }
}

/// The filtered reads of a definition in the first `n` plans.
pub open spec fn reads_among(plans: Seq<LogicalPlan>, cte_index: usize, n: nat) -> Seq<FilteredView>
    decreases plans, n,
{
    if n == 0 || n > plans.len() {
        Seq::empty()
    } else {
        reads_among(plans, cte_index, (n - 1) as nat) + filtered_reads(plans[n - 1], cte_index)
    }
}

/// Whether some read of a definition has no filter right above it.
pub open spec fn has_bare_read(plan: LogicalPlan, cte_index: usize) -> bool
    decreases plan, 0nat,
{
    match plan.operator {
        LogicalOperator::CTERef(reference) => reference.cte_index == cte_index,
        _ => filtered_reference(plan) is None && bare_among(
            plan.children@,
            cte_index,
            plan.children@.len(),
        ),
    }
}

/// Whether one of the first `n` plans has a bare read of a definition.
pub open spec fn bare_among(plans: Seq<LogicalPlan>, cte_index: usize, n: nat) -> bool
    decreases plans, n,
{
    if n == 0 || n > plans.len() {
        false
    } else {
        bare_among(plans, cte_index, (n - 1) as nat) || has_bare_read(plans[n - 1], cte_index)
    }
}

/// The conditions that a definition gets, given the whole plan that reads it.
/// One that must not be materialized gets none, and neither does one with a
/// bare read.
pub open spec fn pushed_predicates(plan: LogicalPlan, root: LogicalPlan) -> Option<
    Seq<ExpressionView>,
> {
    match plan.operator {
        LogicalOperator::MaterializedCTE(cte) => if plan.children@.len() != 2
            || cte.materialized is NotMaterialized || has_bare_read(root, cte.cte_index)
            || filtered_reads(root, cte.cte_index).len() == 0 {
            None
        } else {
            producer_predicates(
                filtered_reads(root, cte.cte_index),
                bindings_of(plan_columns(plan.children@[0])),
            )
        },
        _ => None,
    }
}

/// An owner that keeps its definition.
pub open spec fn materialized(operator: LogicalOperator) -> LogicalOperator {
    match operator {
        LogicalOperator::MaterializedCTE(cte) => LogicalOperator::MaterializedCTE(
            MaterializedCTE { materialized: CTEMaterialize::Materialized, ..cte },
        ),
        other => other,
    }
}

/// Whether `plan` is a filter over one input with that input's facts.
pub open spec fn is_filter_over_input(plan: LogicalPlan, predicates: Seq<ExpressionView>) -> bool {
    &&& plan.operator matches LogicalOperator::Filter(filter) && views(filter.expressions@)
        == predicates && filter.projection_map is All
    &&& plan.children@.len() == 1
    &&& plan.stats.same_facts(plan.children@[0].stats)
}

/// `after` is `before` with every definition filtered that can be.
pub open spec fn is_pushed(before: LogicalPlan, root: LogicalPlan, after: LogicalPlan) -> bool
    decreases before,
{
    &&& after.stats == before.stats
    &&& after.children@.len() == before.children@.len()
    &&& match pushed_predicates(before, root) {
        Some(predicates) => {
            &&& after.operator == materialized(before.operator)
            &&& is_filter_over_input(after.children@[0], predicates)
            &&& is_pushed(before.children@[0], root, after.children@[0].children@[0])
            &&& is_pushed(before.children@[1], root, after.children@[1])
        },
        None => {
            &&& after.operator == before.operator
            &&& forall|i: int|
                #![trigger before.children@[i]]
                #![trigger after.children@[i]]
                0 <= i < before.children@.len() ==> is_pushed(
                    before.children@[i],
                    root,
                    after.children@[i],
                )
        },
    }
}

/// Whether some definition in a plan gets conditions.
pub open spec fn gets_predicates(plan: LogicalPlan, root: LogicalPlan) -> bool
    decreases plan, 0nat,
{
    pushed_predicates(plan, root) is Some || some_get_predicates(
        plan.children@,
        root,
        plan.children@.len(),
    )
}

pub open spec fn some_get_predicates(plans: Seq<LogicalPlan>, root: LogicalPlan, n: nat) -> bool
    decreases plans, n,
{
    if n == 0 || n > plans.len() {
        false
    } else {
        some_get_predicates(plans, root, (n - 1) as nat) || gets_predicates(plans[n - 1], root)
    }
}

/// Pushing conditions down leaves the columns of every plan as they are.
pub proof fn pushing_keeps_columns(before: LogicalPlan, root: LogicalPlan, after: LogicalPlan)
    requires
        is_pushed(before, root, after),
    ensures
        plan_columns(after) == plan_columns(before),
    decreases before,
{
    let old_inputs = Seq::new(
        before.children@.len(),
        |i: int|
            if 0 <= i < before.children@.len() {
                plan_columns(before.children@[i])
            } else {
                arbitrary()
            },
    );
    let new_inputs = Seq::new(
        after.children@.len(),
        |i: int|
            if 0 <= i < after.children@.len() {
                plan_columns(after.children@[i])
            } else {
                arbitrary()
            },
    );
    assert(plan_columns(before) == operator_columns(before.operator, old_inputs));
    assert(plan_columns(after) == operator_columns(after.operator, new_inputs));
    if pushed_predicates(before, root) is Some {
        pushing_keeps_columns(before.children@[1], root, after.children@[1]);
        assert(old_inputs[1] == new_inputs[1]);
    } else {
        assert forall|i: int| 0 <= i < old_inputs.len() implies old_inputs[i]
            == new_inputs[i] by {
            pushing_keeps_columns(before.children@[i], root, after.children@[i]);
        }
        assert(old_inputs =~= new_inputs);
    }
}

/// What the readers of one definition filter by.
struct CteUse {
    cte_index: usize,
    has_bare_read: bool,
    reads: Vec<FilteredCTERef>,
}

impl CteUse {
    spec fn describes(self, root: LogicalPlan) -> bool {
        &&& self.has_bare_read == has_bare_read(root, self.cte_index)
        &&& reference_views(self.reads@) == filtered_reads(root, self.cte_index)
    }
}

fn copy_expressions(expressions: &Vec<Expression>) -> (r: Vec<Expression>)
    ensures
        r@ == expressions@,
{
    let mut r: Vec<Expression> = Vec::new();
    let mut i: usize = 0;
    while i < expressions.len()
        invariant
            i <= expressions@.len(),
            r@ == expressions@.take(i as int),
        decreases expressions@.len() - i,
    {
        r.push(expressions[i].copy());
        assert(r@ =~= expressions@.take(i + 1));
        i = i + 1;
    }
    assert(r@ =~= expressions@);
    r
}

/// Collects the filtered reads of a definition and tells whether it has a bare
/// one.
fn find_reads(plan: &LogicalPlan, cte_index: usize, reads: &mut Vec<FilteredCTERef>) -> (r: bool)
    ensures
        r == has_bare_read(*plan, cte_index),
        reference_views(final(reads)@) == reference_views(old(reads)@) + filtered_reads(
            *plan,
            cte_index,
        ),
    decreases plan,
{
    let ghost start = reference_views(reads@);
    if let LogicalOperator::Filter(filter) = &plan.operator {
        if plan.children.len() > 0 {
            if let LogicalOperator::CTERef(reference) = &plan.children[0].operator {
                if reference.cte_index == cte_index {
                    let ghost before = reads@;
                    let read = FilteredCTERef {
                        old_bindings: plan.children[0].get_column_bindings(),
                        filters: copy_expressions(&filter.expressions),
                    };
                    reads.push(read);
                    assert(reference_views(reads@) =~= start + seq![read@]);
                } else {
                    assert(start + filtered_reads(*plan, cte_index) =~= start);
                }
                return false;
            }
        }
    }
    let mut bare: bool = false;
    if let LogicalOperator::CTERef(reference) = &plan.operator {
        bare = reference.cte_index == cte_index;
    }
    let ghost is_reference = plan.operator is CTERef;
    let mut i: usize = 0;
    assert(start + reads_among(plan.children@, cte_index, 0) =~= start);
    while i < plan.children.len()
        invariant
            i <= plan.children@.len(),
            is_reference == (plan.operator is CTERef),
            filtered_reference(*plan) is None,
            is_reference ==> bare == has_bare_read(*plan, cte_index),
            !is_reference ==> bare == bare_among(plan.children@, cte_index, i as nat),
            reference_views(reads@) == start + reads_among(plan.children@, cte_index, i as nat),
        decreases plan.children@.len() - i,
    {
        let ghost before = reference_views(reads@);
        let found = find_reads(&plan.children[i], cte_index, reads);
        proof {
            let child = plan.children@[i as int];
            assert(start + reads_among(plan.children@, cte_index, i as nat) + filtered_reads(
                child,
                cte_index,
            ) =~= start + reads_among(plan.children@, cte_index, (i + 1) as nat));
        }
        match &plan.operator {
            LogicalOperator::CTERef(_) => {},
            _ => {
                bare = bare || found;
            },
        }
        i = i + 1;
    }
    bare
}

/// The indices of all owners in a plan that are among those described.
spec fn described(uses: Seq<CteUse>, root: LogicalPlan) -> bool {
    forall|i: int| 0 <= i < uses.len() ==> (#[trigger] uses[i]).describes(root)
}

spec fn has_use(uses: Seq<CteUse>, cte_index: usize) -> bool {
    exists|i: int| 0 <= i < uses.len() && (#[trigger] uses[i]).cte_index == cte_index
}

/// Whether every owner in a plan is described.
spec fn covers(uses: Seq<CteUse>, plan: LogicalPlan) -> bool
    decreases plan,
{
    &&& plan.operator matches LogicalOperator::MaterializedCTE(cte) ==> has_use(uses, cte.cte_index)
    &&& forall|i: int|
        #![trigger plan.children@[i]]
        0 <= i < plan.children@.len() ==> covers(uses, plan.children@[i])
}

proof fn lemma_covers_more(uses: Seq<CteUse>, more: Seq<CteUse>, plan: LogicalPlan)
    requires
        uses.len() <= more.len(),
        forall|i: int| 0 <= i < uses.len() ==> more[i] == #[trigger] uses[i],
        covers(uses, plan),
    ensures
        covers(more, plan),
    decreases plan,
{
    if let LogicalOperator::MaterializedCTE(cte) = plan.operator {
        let k = choose|k: int| 0 <= k < uses.len() && (#[trigger] uses[k]).cte_index == cte.cte_index;
        assert(more[k].cte_index == cte.cte_index);
    }
    assert forall|i: int|
        #![trigger plan.children@[i]]
        0 <= i < plan.children@.len() implies covers(more, plan.children@[i]) by {
        lemma_covers_more(uses, more, plan.children@[i]);
    }
}

/// Describes every owner in a plan.
fn find_candidates(plan: &LogicalPlan, root: &LogicalPlan, uses: &mut Vec<CteUse>)
    requires
        described(old(uses)@, *root),
    ensures
        described(final(uses)@, *root),
        covers(final(uses)@, *plan),
        old(uses)@.len() <= final(uses)@.len(),
        forall|i: int|
            0 <= i < old(uses)@.len() ==> final(uses)@[i] == #[trigger] old(uses)@[i],
    decreases plan,
{
    if let LogicalOperator::MaterializedCTE(cte) = &plan.operator {
        let mut reads: Vec<FilteredCTERef> = Vec::new();
        let has_bare_read = find_reads(root, cte.cte_index, &mut reads);
        assert(reference_views(Seq::<FilteredCTERef>::empty()) + filtered_reads(
            *root,
            cte.cte_index,
        ) =~= filtered_reads(*root, cte.cte_index));
        let one = CteUse { cte_index: cte.cte_index, has_bare_read, reads };
        uses.push(one);
        assert(uses@[old(uses)@.len() as int].cte_index == cte.cte_index);
    }
    let ghost owned = uses@;
    let mut i: usize = 0;
    while i < plan.children.len()
        invariant
            i <= plan.children@.len(),
            described(uses@, *root),
            owned.len() <= uses@.len(),
            forall|k: int| 0 <= k < owned.len() ==> uses@[k] == #[trigger] owned[k],
            plan.operator matches LogicalOperator::MaterializedCTE(cte) ==> has_use(
                owned,
                cte.cte_index,
            ),
            old(uses)@.len() <= owned.len(),
            forall|k: int| 0 <= k < old(uses)@.len() ==> owned[k] == #[trigger] old(uses)@[k],
            forall|k: int| 0 <= k < i ==> covers(uses@, #[trigger] plan.children@[k]),
        decreases plan.children@.len() - i,
    {
        let ghost before = uses@;
        find_candidates(&plan.children[i], root, uses);
        proof {
            assert forall|k: int| 0 <= k < i implies covers(
                uses@,
                #[trigger] plan.children@[k],
            ) by {
                lemma_covers_more(before, uses@, plan.children@[k]);
            }
            assert forall|k: int| 0 <= k < owned.len() implies uses@[k] == #[trigger] owned[k] by {
                assert(before[k] == owned[k]);
            }
        }
        i = i + 1;
    }
    proof {
        if let LogicalOperator::MaterializedCTE(cte) = &plan.operator {
            let k = choose|k: int|
                0 <= k < owned.len() && (#[trigger] owned[k]).cte_index == cte.cte_index;
            assert(uses@[k].cte_index == cte.cte_index);
        }
    }
}

fn find_use(uses: &Vec<CteUse>, cte_index: usize) -> (r: Option<usize>)
    ensures
        match r {
            Some(i) => i < uses@.len() && uses@[i as int].cte_index == cte_index,
            None => !has_use(uses@, cte_index),
        },
{
    let mut i: usize = 0;
    while i < uses.len()
        invariant
            i <= uses@.len(),
            forall|k: int| 0 <= k < i ==> (#[trigger] uses@[k]).cte_index != cte_index,
        decreases uses@.len() - i,
    {
        if uses[i].cte_index == cte_index {
            return Some(i);
        }
        i = i + 1;
    }
    None
}

/// The conditions that a definition gets.
fn predicates_for(
    plan: &LogicalPlan,
    uses: &Vec<CteUse>,
    Ghost(root): Ghost<LogicalPlan>,
) -> (r: Option<Vec<Expression>>)
    requires
        described(uses@, root),
        plan.operator matches LogicalOperator::MaterializedCTE(cte) ==> has_use(
            uses@,
            cte.cte_index,
        ),
    ensures
        match r {
            Some(predicates) => pushed_predicates(*plan, root) == Some(views(predicates@)),
            None => pushed_predicates(*plan, root) is None,
        },
{
    let LogicalOperator::MaterializedCTE(cte) = &plan.operator else {
        return None;
    };
    if plan.children.len() != 2 {
        return None;
    }
    match cte.materialized {
        CTEMaterialize::NotMaterialized => {
            return None;
        },
        _ => {},
    }
    let Some(at) = find_use(uses, cte.cte_index) else {
        return None;
    };
    assert(uses@[at as int].describes(root));
    let usage = &uses[at];
    assert(reference_views(usage.reads@).len() == usage.reads@.len());
    if usage.has_bare_read || usage.reads.len() == 0 {
        return None;
    }
    derive_predicates(&usage.reads, &plan.children[0].get_column_bindings())
}

/// Puts a filter over a plan and keeps what is known of it.
fn filter_over(plan: LogicalPlan, predicates: Vec<Expression>) -> (r: LogicalPlan)
    ensures
        is_filter_over_input(r, views(predicates@)),
        r.children@[0] == plan,
{
    let stats = plan.stats.copy();
    let mut children: Vec<LogicalPlan> = Vec::new();
    children.push(plan);
    LogicalPlan {
        stats,
        operator: LogicalOperator::Filter(
            Filter { expressions: predicates, projection_map: ProjectionMap::All },
        ),
        children,
    }
}

fn materialize(operator: LogicalOperator) -> (r: LogicalOperator)
    ensures
        r == materialized(operator),
{
    match operator {
        LogicalOperator::MaterializedCTE(cte) => {
            let mut cte = cte;
            cte.materialized = CTEMaterialize::Materialized;
            LogicalOperator::MaterializedCTE(cte)
        },
        other => other,
    }
}

/// Moves a new filter as far down as it goes, and answers with the plan in its
/// place. Nothing is claimed of the answer.
pub trait FilterPushdown {
    fn push_down(&mut self, filter: LogicalPlan) -> (r: LogicalPlan);
}

/// Leaves filters where they are.
pub struct KeepFilter;

impl FilterPushdown for KeepFilter {
    fn push_down(&mut self, filter: LogicalPlan) -> (r: LogicalPlan)
        ensures
            r == filter,
    {
        filter
    }
}

/// Whether `after` is what such a pushdown answers for a filter.
pub open spec fn is_pushed_down<P: FilterPushdown>(filter: LogicalPlan, after: LogicalPlan) -> bool {
    exists|pushdown: &mut P| #[trigger] call_ensures(P::push_down, (pushdown, filter), after)
}

/// Whether `after` is a definition under a filter that was pushed down; it
/// keeps what is known of the definition.
pub open spec fn is_filtered_by<P: FilterPushdown>(
    definition: LogicalPlan,
    predicates: Seq<ExpressionView>,
    after: LogicalPlan,
) -> bool {
    &&& after.stats.same_facts(definition.stats)
    &&& exists|filter: LogicalPlan, answer: LogicalPlan| #[trigger]
        is_pushed_down::<P>(filter, answer) && is_filter_over_input(filter, predicates)
            && filter.children@[0] == definition && after.operator == answer.operator
            && after.children == answer.children
}

/// Whether `after` is `before` with its definition filtered where it can be,
/// and otherwise the same.
pub open spec fn is_committed_by<P: FilterPushdown>(
    before: LogicalPlan,
    root: LogicalPlan,
    after: LogicalPlan,
) -> bool {
    match pushed_predicates(before, root) {
        Some(predicates) => {
            &&& after.stats == before.stats
            &&& after.operator == materialized(before.operator)
            &&& after.children@.len() == 2
            &&& is_filtered_by::<P>(before.children@[0], predicates, after.children@[0])
            &&& after.children@[1] == before.children@[1]
        },
        None => after == before,
    }
}

/// Whether some definition got conditions, where `inner` tells it of the inputs.
pub open spec fn is_changed(settled: LogicalPlan, root: LogicalPlan, inner: Seq<bool>) -> bool {
    pushed_predicates(settled, root) is Some || inner.contains(true)
}

/// `after` is `before` with every definition filtered that can be, inputs
/// first, and each new filter pushed down.
pub open spec fn is_pushed_by<P: FilterPushdown>(
    before: LogicalPlan,
    root: LogicalPlan,
    after: LogicalPlan,
    changed: bool,
) -> bool
    decreases before,
{
    exists|settled: LogicalPlan, inner: Seq<bool>|
        {
            &&& #[trigger] is_changed(settled, root, inner) == changed
            &&& settled.stats == before.stats
            &&& settled.operator == before.operator
            &&& settled.children@.len() == before.children@.len()
            &&& inner.len() == before.children@.len()
            &&& forall|i: int|
                #![trigger before.children@[i]]
                #![trigger settled.children@[i]]
                0 <= i < before.children@.len() ==> is_pushed_by::<P>(
                    before.children@[i],
                    root,
                    settled.children@[i],
                    inner[i],
                )
            &&& is_committed_by::<P>(settled, root, after)
        }
}

proof fn lemma_some_get_predicates(
    plans: Seq<LogicalPlan>,
    root: LogicalPlan,
    inner: Seq<bool>,
    n: nat,
)
    requires
        n <= plans.len(),
        inner.len() == plans.len(),
        forall|i: int| 0 <= i < n ==> #[trigger] inner[i] == gets_predicates(plans[i], root),
    ensures
        some_get_predicates(plans, root, n) <==> exists|i: int| 0 <= i < n && #[trigger] inner[i],
    decreases n,
{
    if n > 0 {
        lemma_some_get_predicates(plans, root, inner, (n - 1) as nat);
        assert(inner[n - 1] == gets_predicates(plans[n - 1], root));
    }
}

/// Where filters stay, every definition that can be is filtered.
proof fn lemma_kept_filters(
    before: LogicalPlan,
    root: LogicalPlan,
    after: LogicalPlan,
    changed: bool,
)
    requires
        is_pushed_by::<KeepFilter>(before, root, after, changed),
    ensures
        is_pushed(before, root, after),
        changed == gets_predicates(before, root),
    decreases before,
{
    let (settled, inner) = choose|settled: LogicalPlan, inner: Seq<bool>|
        {
            &&& #[trigger] is_changed(settled, root, inner) == changed
            &&& settled.stats == before.stats
            &&& settled.operator == before.operator
            &&& settled.children@.len() == before.children@.len()
            &&& inner.len() == before.children@.len()
            &&& forall|i: int|
                #![trigger before.children@[i]]
                #![trigger settled.children@[i]]
                0 <= i < before.children@.len() ==> is_pushed_by::<KeepFilter>(
                    before.children@[i],
                    root,
                    settled.children@[i],
                    inner[i],
                )
            &&& is_committed_by::<KeepFilter>(settled, root, after)
        };
    assert forall|i: int|
        #![trigger before.children@[i]]
        #![trigger settled.children@[i]]
        0 <= i < before.children@.len() implies is_pushed(
        before.children@[i],
        root,
        settled.children@[i],
    ) && inner[i] == gets_predicates(before.children@[i], root) by {
        lemma_kept_filters(before.children@[i], root, settled.children@[i], inner[i]);
    }
    if before.operator is MaterializedCTE && before.children@.len() == 2 {
        pushing_keeps_columns(before.children@[0], root, settled.children@[0]);
    }
    assert(pushed_predicates(settled, root) == pushed_predicates(before, root));
    assert forall|i: int| 0 <= i < before.children@.len() implies #[trigger] inner[i]
        == gets_predicates(before.children@[i], root) by {
        assert(is_pushed(before.children@[i], root, settled.children@[i]));
    }
    lemma_some_get_predicates(before.children@, root, inner, before.children@.len());
    if inner.contains(true) {
        let i = choose|i: int| 0 <= i < inner.len() && inner[i] == true;
        assert(inner[i]);
    } else {
        assert forall|i: int| 0 <= i < inner.len() implies !#[trigger] inner[i] by {
            if inner[i] {
                assert(inner.contains(true));
            }
        }
    }
    if let Some(predicates) = pushed_predicates(settled, root) {
        lemma_kept_filter(settled.children@[0], predicates, after.children@[0]);
    }
}

proof fn lemma_kept_filter(
    definition: LogicalPlan,
    predicates: Seq<ExpressionView>,
    after: LogicalPlan,
)
    requires
        is_filtered_by::<KeepFilter>(definition, predicates, after),
    ensures
        is_filter_over_input(after, predicates),
        after.children@[0] == definition,
{
    let (filter, answer) = choose|filter: LogicalPlan, answer: LogicalPlan| #[trigger]
        is_pushed_down::<KeepFilter>(filter, answer) && is_filter_over_input(filter, predicates)
            && filter.children@[0] == definition && after.operator == answer.operator
            && after.children == answer.children;
    assert(answer == filter);
}

/// Filters the first input of an owner, pushes the filter down and keeps the
/// definition.
fn commit<P: FilterPushdown>(
    plan: LogicalPlan,
    predicates: Vec<Expression>,
    pushdown: &mut P,
) -> (r: LogicalPlan)
    requires
        plan.children@.len() == 2,
    ensures
        r.stats == plan.stats,
        r.operator == materialized(plan.operator),
        r.children@.len() == 2,
        is_filtered_by::<P>(plan.children@[0], views(predicates@), r.children@[0]),
        r.children@[1] == plan.children@[1],
{
    let LogicalPlan { stats, operator, children } = plan;
    let mut children = children;
    let reader = children.pop();
    let definition = children.pop();
    let mut inputs: Vec<LogicalPlan> = Vec::new();
    if let (Some(definition), Some(reader)) = (definition, reader) {
        let known = definition.stats.copy();
        let filter = filter_over(definition, predicates);
        let ghost asked = filter;
        let answer = pushdown.push_down(filter);
        assert(is_pushed_down::<P>(asked, answer));
        inputs.push(
            LogicalPlan { stats: known, operator: answer.operator, children: answer.children },
        );
        inputs.push(reader);
    }
    LogicalPlan { stats, operator: materialize(operator), children: inputs }
}

fn push_filters<P: FilterPushdown>(
    plan: LogicalPlan,
    uses: &Vec<CteUse>,
    pushdown: &mut P,
    Ghost(root): Ghost<LogicalPlan>,
) -> (r: (LogicalPlan, bool))
    requires
        described(uses@, root),
        covers(uses@, plan),
    ensures
        is_pushed_by::<P>(plan, root, r.0, r.1),
    decreases plan,
{
    let ghost whole = plan;
    let LogicalPlan { stats, operator, children } = plan;
    let ghost all = children@;
    let mut rest = reversed(children);
    let mut inputs: Vec<LogicalPlan> = Vec::new();
    let ghost mut inner: Seq<bool> = Seq::empty();
    let mut changed: bool = false;
    while rest.len() > 0
        invariant
            rest@.len() <= all.len(),
            whole == plan,
            all == whole.children@,
            rest@ == all.reverse().take(rest@.len() as int),
            inputs@.len() + rest@.len() == all.len(),
            inner.len() == inputs@.len(),
            described(uses@, root),
            forall|k: int|
                #![trigger all[k]]
                0 <= k < all.len() ==> covers(uses@, all[k]),
            forall|k: int|
                #![trigger inputs@[k]]
                0 <= k < inputs@.len() ==> is_pushed_by::<P>(all[k], root, inputs@[k], inner[k]),
            changed == inner.contains(true),
        decreases rest@.len(),
    {
        let ghost n = rest@.len();
        let ghost before = inner;
        if let Some(child) = rest.pop() {
            let ghost k = inputs@.len() as int;
            proof {
                assert(child == all[k]);
                assert(rest@ =~= all.reverse().take(n - 1));
            }
            let (pushed, found) = push_filters(child, uses, pushdown, Ghost(root));
            inputs.push(pushed);
            proof {
                inner = inner.push(found);
                if found {
                    assert(inner[k] == true);
                }
                if before.contains(true) {
                    let i = choose|i: int| 0 <= i < before.len() && before[i] == true;
                    assert(inner[i] == true);
                }
                if inner.contains(true) && !found {
                    let i = choose|i: int| 0 <= i < inner.len() && inner[i] == true;
                    assert(before[i] == true);
                }
            }
            changed = changed || found;
        }
    }
    let settled = LogicalPlan { stats, operator, children: inputs };
    let ghost middle = settled;
    match predicates_for(&settled, uses, Ghost(root)) {
        Some(predicates) => {
            let after = commit(settled, predicates, pushdown);
            assert(is_changed(middle, root, inner) == true);
            assert(is_committed_by::<P>(middle, root, after));
            (after, true)
        },
        None => {
            assert(is_changed(middle, root, inner) == changed);
            assert(is_committed_by::<P>(middle, root, settled));
            (settled, changed)
        },
    }
}

/// Pushes what all readers of a shared definition filter by into it.
#[derive(Clone, Copy, Debug, PartialEq, Eq, Structural)]
pub struct CTEFilterPusher;

/// Whether a plan shares its definition by default.
pub open spec fn is_default_root(plan: LogicalPlan) -> bool {
    plan.operator matches LogicalOperator::MaterializedCTE(cte) && cte.materialized is Default
}

/// `after` is `before` with the definition at the root filtered, where it is
/// shared by default and can be.
pub open spec fn is_pushed_at_root(before: LogicalPlan, after: LogicalPlan, changed: bool) -> bool {
    match pushed_predicates(before, before) {
        Some(predicates) if is_default_root(before) => {
            &&& changed
            &&& after.stats == before.stats
            &&& after.operator == materialized(before.operator)
            &&& after.children@.len() == 2
            &&& is_filter_over_input(after.children@[0], predicates)
            &&& after.children@[0].children@[0] == before.children@[0]
            &&& after.children@[1] == before.children@[1]
        },
        _ => !changed && after == before,
    }
}

/// The same with the new filter pushed down.
pub open spec fn is_pushed_at_root_by<P: FilterPushdown>(
    before: LogicalPlan,
    after: LogicalPlan,
    changed: bool,
) -> bool {
    if is_default_root(before) {
        &&& changed == (pushed_predicates(before, before) is Some)
        &&& is_committed_by::<P>(before, before, after)
    } else {
        !changed && after == before
    }
}

impl CTEFilterPusher {
    pub fn new() -> (r: CTEFilterPusher)
        ensures
            r == CTEFilterPusher,
    {
        CTEFilterPusher
    }

    /// Filters every definition in a plan that can be.
    pub fn optimize_plan(&mut self, plan: LogicalPlan) -> (r: LogicalPlan)
        ensures
            is_pushed(plan, plan, r),
    {
        self.optimize_plan_with_change(plan).0
    }

    /// Filters every definition in a plan that can be, and tells whether there
    /// was any.
    pub fn optimize_plan_with_change(&mut self, plan: LogicalPlan) -> (r: (LogicalPlan, bool))
        ensures
            is_pushed(plan, plan, r.0),
            r.1 == gets_predicates(plan, plan),
    {
        let ghost root = plan;
        let r = self.optimize_plan_with_pushdown(plan, &mut KeepFilter);
        proof {
            lemma_kept_filters(root, root, r.0, r.1);
        }
        r
    }

    /// Filters every definition in a plan that can be, pushes each new filter
    /// down, and tells whether there was any.
    pub fn optimize_plan_with_pushdown<P: FilterPushdown>(
        &mut self,
        plan: LogicalPlan,
        pushdown: &mut P,
    ) -> (r: (LogicalPlan, bool))
        ensures
            is_pushed_by::<P>(plan, plan, r.0, r.1),
    {
        let mut uses: Vec<CteUse> = Vec::new();
        find_candidates(&plan, &plan, &mut uses);
        let ghost root = plan;
        push_filters(plan, &uses, pushdown, Ghost(root))
    }

    /// Filters the definition at the root. The result is kept explicitly, so
    /// that doing it again changes nothing.
    pub fn optimize_default_root_with_change(&mut self, plan: LogicalPlan) -> (r: (
        LogicalPlan,
        bool,
    ))
        ensures
            is_pushed_at_root(plan, r.0, r.1),
    {
        let ghost before = plan;
        let r = self.optimize_default_root_with_pushdown(plan, &mut KeepFilter);
        proof {
            if let Some(predicates) = pushed_predicates(before, before) {
                if is_default_root(before) {
                    lemma_kept_filter(before.children@[0], predicates, r.0.children@[0]);
                }
            }
        }
        r
    }

    /// Filters the definition at the root and pushes the filter down.
    pub fn optimize_default_root_with_pushdown<P: FilterPushdown>(
        &mut self,
        plan: LogicalPlan,
        pushdown: &mut P,
    ) -> (r: (LogicalPlan, bool))
        ensures
            is_pushed_at_root_by::<P>(plan, r.0, r.1),
    {
        let is_default = match &plan.operator {
            LogicalOperator::MaterializedCTE(cte) => match cte.materialized {
                CTEMaterialize::Default => true,
                _ => false,
            },
            _ => false,
        };
        if !is_default {
            return (plan, false);
        }
        let mut uses: Vec<CteUse> = Vec::new();
        find_candidates(&plan, &plan, &mut uses);
        let ghost root = plan;
        match predicates_for(&plan, &uses, Ghost(root)) {
            Some(predicates) => (commit(plan, predicates, pushdown), true),
            None => (plan, false),
        }
    }
}

/// Pushing the new filter down does not make the definition at the root one to
/// filter again.
pub proof fn root_is_pushed_down_once<P: FilterPushdown>(
    before: LogicalPlan,
    after: LogicalPlan,
    again: LogicalPlan,
    changed: bool,
    changed_again: bool,
)
    requires
        is_pushed_at_root_by::<P>(before, after, changed),
        is_pushed_at_root_by::<P>(after, again, changed_again),
        changed,
    ensures
        !changed_again,
        again == after,
{
}

/// Filtering the definition at the root a second time changes nothing.
pub proof fn root_is_filtered_once(
    before: LogicalPlan,
    after: LogicalPlan,
    again: LogicalPlan,
    changed: bool,
    changed_again: bool,
)
    requires
        is_pushed_at_root(before, after, changed),
        is_pushed_at_root(after, again, changed_again),
        changed,
    ensures
        !changed_again,
        again == after,
{
}

/// A plan without bare reads of a definition has a filtered one for each of its
/// reads.
proof fn lemma_filtered_reads_are_all(plan: LogicalPlan, cte_index: usize)
    requires
        has_sound_arity(plan),
        !has_bare_read(plan, cte_index),
    ensures
        count_parts(plan, read_of(cte_index)) == filtered_reads(plan, cte_index).len(),
    decreases plan, 0nat,
{
    let property = read_of(cte_index);
    if filtered_reference(plan) is Some {
        let read = plan.children@[0];
        assert(has_sound_arity(read));
        assert(count_parts(read, property) == count_among(read.children@, property, 0) + if property(
            read,
        ) {
            1nat
        } else {
            0nat
        });
        assert(count_among(read.children@, property, 0) == 0);
        assert(count_among(plan.children@, property, 0) == 0);
        assert(count_among(plan.children@, property, 1) == count_parts(read, property));
    } else if plan.operator is CTERef {
        assert(count_among(plan.children@, property, 0) == 0);
        assert(reads_among(plan.children@, cte_index, 0).len() == 0);
    } else {
        lemma_filtered_among_are_all(plan.children@, cte_index, plan.children@.len());
    }
}

proof fn lemma_filtered_among_are_all(plans: Seq<LogicalPlan>, cte_index: usize, n: nat)
    requires
        n <= plans.len(),
        forall|i: int| 0 <= i < n ==> has_sound_arity(#[trigger] plans[i]),
        !bare_among(plans, cte_index, n),
    ensures
        count_among(plans, read_of(cte_index), n) == reads_among(plans, cte_index, n).len(),
    decreases plans, n,
{
    if n > 0 {
        lemma_filtered_among_are_all(plans, cte_index, (n - 1) as nat);
        lemma_filtered_reads_are_all(plans[n - 1], cte_index);
    }
}

proof fn lemma_bare_among(plans: Seq<LogicalPlan>, cte_index: usize, n: nat, i: int)
    requires
        0 <= i < n <= plans.len(),
        has_bare_read(plans[i], cte_index),
    ensures
        bare_among(plans, cte_index, n),
    decreases n,
{
    if i < n - 1 {
        lemma_bare_among(plans, cte_index, (n - 1) as nat, i);
    }
}

proof fn lemma_read_among(
    plans: Seq<LogicalPlan>,
    cte_index: usize,
    n: nat,
    i: int,
    read: FilteredView,
)
    requires
        0 <= i < n <= plans.len(),
        filtered_reads(plans[i], cte_index).contains(read),
    ensures
        reads_among(plans, cte_index, n).contains(read),
    decreases n,
{
    let before = reads_among(plans, cte_index, (n - 1) as nat);
    let last = filtered_reads(plans[n - 1], cte_index);
    let all = before + last;
    if i < n - 1 {
        lemma_read_among(plans, cte_index, (n - 1) as nat, i, read);
        let k = choose|k: int| 0 <= k < before.len() && before[k] == read;
        assert(all[k] == read);
    } else {
        let k = choose|k: int| 0 <= k < last.len() && last[k] == read;
        assert(all[before.len() + k] == read);
    }
}

/// The read below an operator is filtered by it, where no read is bare.
proof fn lemma_reader_filters(
    plan: LogicalPlan,
    cte_index: usize,
    reader: LogicalPlan,
    i: int,
)
    requires
        has_sound_arity(plan),
        !has_bare_read(plan, cte_index),
        is_part(reader, plan),
        0 <= i < reader.children@.len(),
        read_of(cte_index)(reader.children@[i]),
    ensures
        reader.operator is Filter,
        filtered_reads(plan, cte_index).contains(filtered_read(reader)),
    decreases plan,
{
    if reader == plan {
        if filtered_reference(plan) is Some {
            assert(filtered_reads(plan, cte_index)[0] == filtered_read(reader));
        } else {
            lemma_bare_among(plan.children@, cte_index, plan.children@.len(), i);
        }
    } else {
        let k = choose|k: int|
            #![trigger plan.children@[k]]
            0 <= k < plan.children@.len() && is_part(reader, plan.children@[k]);
        if filtered_reference(plan) is Some {
            assert(has_sound_arity(plan.children@[0]));
            assert(plan.children@[0].children@.len() == 0);
            assert(is_part(reader, plan.children@[0]));
        } else {
            if has_bare_read(plan.children@[k], cte_index) {
                lemma_bare_among(plan.children@, cte_index, plan.children@.len(), k);
            }
            lemma_reader_filters(plan.children@[k], cte_index, reader, i);
            lemma_read_among(
                plan.children@,
                cte_index,
                plan.children@.len(),
                k,
                filtered_read(reader),
            );
        }
    }
}

/// A definition gets conditions only where every read of it, anywhere in the
/// plan, stands right below a filter, and the conditions are those of all of
/// these filters.
pub proof fn every_read_of_a_filtered_definition_is_filtered(
    plan: LogicalPlan,
    root: LogicalPlan,
    cte: MaterializedCTE,
)
    requires
        has_sound_arity(root),
        plan.operator == LogicalOperator::MaterializedCTE(cte),
        pushed_predicates(plan, root) is Some,
    ensures
        !read_of(cte.cte_index)(root),
        forall|reader: LogicalPlan, i: int|
            #![trigger is_part(reader, root), reader.children@[i]]
            is_part(reader, root) && 0 <= i < reader.children@.len() && read_of(cte.cte_index)(
                reader.children@[i],
            ) ==> reader.operator is Filter && filtered_reads(root, cte.cte_index).contains(
                filtered_read(reader),
            ),
        count_parts(root, read_of(cte.cte_index)) == filtered_reads(root, cte.cte_index).len(),
        count_parts(root, read_of(cte.cte_index)) > 0,
        !(cte.materialized is NotMaterialized),
{
    lemma_filtered_reads_are_all(root, cte.cte_index);
    assert forall|reader: LogicalPlan, i: int|
        #![trigger is_part(reader, root), reader.children@[i]]
        is_part(reader, root) && 0 <= i < reader.children@.len() && read_of(cte.cte_index)(
            reader.children@[i],
        ) implies reader.operator is Filter && filtered_reads(root, cte.cte_index).contains(
        filtered_read(reader),
    ) by {
        lemma_reader_filters(root, cte.cte_index, reader, i);
    }
}

/// A row of a definition that a filter right above one of its reads keeps passes
/// all conditions that the definition gets. `holds` judges expressions on that
/// row, in terms of the definition's columns.
pub proof fn filtered_definition_keeps_what_is_read(
    plan: LogicalPlan,
    root: LogicalPlan,
    cte: MaterializedCTE,
    reader: LogicalPlan,
    filter: Filter,
    holds: spec_fn(ExpressionView) -> bool,
)
    requires
        has_sound_arity(root),
        plan.operator == LogicalOperator::MaterializedCTE(cte),
        pushed_predicates(plan, root) is Some,
        is_part(reader, root),
        reader.operator == LogicalOperator::Filter(filter),
        reader.children@.len() == 1,
        read_of(cte.cte_index)(reader.children@[0]),
        respects_connectives(holds),
        forall|k: int|
            0 <= k < filter.expressions@.len() ==> holds(
                substituted(
                    (#[trigger] filter.expressions@[k])@,
                    rename(
                        bindings_of(plan_columns(reader.children@[0])),
                        bindings_of(plan_columns(plan.children@[0])),
                    ),
                ),
            ),
        bindings_of(plan_columns(plan.children@[0])).len() <= usize::MAX,
        forall|k: int|
            0 <= k < filtered_reads(root, cte.cte_index).len() ==> (#[trigger] filtered_reads(
                root,
                cte.cte_index,
            )[k]).bindings.len() == bindings_of(plan_columns(plan.children@[0])).len(),
    ensures
        forall|p: int|
            0 <= p < (pushed_predicates(plan, root)->0).len() ==> holds(
                #[trigger] (pushed_predicates(plan, root)->0)[p],
            ),
{
    lemma_reader_filters(root, cte.cte_index, reader, 0);
    let reads = filtered_reads(root, cte.cte_index);
    let read = filtered_read(reader);
    let i = choose|i: int| 0 <= i < reads.len() && reads[i] == read;
    assert(reads[0].bindings.len() == reads[i].bindings.len());
    assert forall|k: int| 0 <= k < reads[i].filters.len() implies holds(
        substituted(
            #[trigger] reads[i].filters[k],
            rename(reads[i].bindings, bindings_of(plan_columns(plan.children@[0]))),
        ),
    ) by {
        assert(reads[i].filters[k] == filter.expressions@[k]@);
    }
    needed_rows_are_kept(reads, bindings_of(plan_columns(plan.children@[0])), i, holds);
}

/// Filtering the definition at the root touches neither the reader nor what is known
/// of the root.
pub proof fn filtering_the_root_leaves_the_reader_alone(
    before: LogicalPlan,
    after: LogicalPlan,
    changed: bool,
)
    requires
        is_pushed_at_root(before, after, changed),
    ensures
        after.stats == before.stats,
        changed ==> after.children@[1] == before.children@[1],
        changed ==> after.children@[0].operator is Filter && after.children@[0].children@[0]
            == before.children@[0],
        !changed ==> after == before,
{
}

} // verus!
