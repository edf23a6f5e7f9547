//! Statistics of whole plans, from the leaves up. What an operator needs of its
//! inputs is complete before it is settled, and what the first input gives to
//! readers within the others is published before those are visited.

use std::collections::HashMap;
use vstd::prelude::*;

use crate::binding_map::BindingMap;
use crate::estimate::finite_filter::FilterDecision;
use crate::estimate::gathering::{
    columns_after, definition_columns, estimates_anew, needs_estimate, optional_plan,
    publish_columns, published_first_child, LocalOutput, StatisticsGathering,
};
use crate::estimate::output::{GroupedSum, OutputStatistics};
use crate::estimate::publication::{
    has_input_layouts, keeps_distributions, operator_statistics, published_statistics, OutputInputs,
};
use crate::estimate::refresh::{are_base_keys, are_normalized_keys, has_derived_keys, KeyDerivation};
use crate::estimate::relation::{
    decides_rows, default_rows, default_table_cardinality, input_rows, published_after,
    CardinalityInputs, RowDecision,
};
use crate::estimate::relation_proofs::{
    child_inputs, key_views, operator_domains, operator_keys, reduced_keys, retained,
};
use crate::frame::{frames_size, lemma_frames_size_push, lemma_open_size, Frame};
use crate::layout::{
    child_columns, layouts_of, lemma_plan_columns, plan_columns, LogicalOutputLayout,
};
use crate::operator::{CteOutputColumn, Get, GraphScan, LogicalOperator, OutputColumn, SubplanRef};
use crate::plan::{
    lemma_visit_size, plans_size, push_children, referents, reversed, CardinalityEstimate,
    CardinalityProvenance, LogicalPlan, NodeStats,
};
use crate::statistics::{ColumnStatistics, NumericDistribution};
use crate::types::ColumnBinding;
use crate::value::Value;

verus! {

/// What the estimates of a plan need besides the plan: selectivities, and what
/// the engine knows of tables and graphs. Nothing is claimed of the answers.
pub trait PlanFacts: KeyDerivation {
    /// The session's row count for tables without statistics.
    fn default_table_cardinality(&mut self) -> (r: Option<Value>);

    /// Vertices of the label that a graph scan reads, where they are counted.
    fn vertex_count(&mut self, scan: &GraphScan) -> (r: Option<u64>);

    /// Rows that a decision leaves to selectivities.
    fn complete_rows(
        &mut self,
        decision: RowDecision,
        operator: &LogicalOperator,
        children: &Vec<LogicalPlan>,
        layouts: &[LogicalOutputLayout],
        columns: &BindingMap<ColumnStatistics>,
    ) -> (r: Option<CardinalityEstimate>);

    /// A proven bound on an operator's rows, from those of its inputs.
    fn maximum_cardinality(&mut self, operator: &LogicalOperator, inputs: &Vec<Option<u64>>) -> (r:
        Option<u64>);

    /// Statistics that storage keeps, by stored column.
    fn stored_statistics(&mut self, get: &Get) -> (r: HashMap<usize, ColumnStatistics>);

    /// Statistics of the columns of a plan that is kept elsewhere.
    fn subplan_statistics(&mut self, reference: &SubplanRef) -> (r: Vec<ColumnStatistics>);

    /// Statistics of the values of two columns together.
    fn merge(&mut self, left: ColumnStatistics, right: ColumnStatistics) -> (r: ColumnStatistics);

    /// The distribution of a grouped sum, where it has one.
    fn sum_distribution(&mut self, sum: GroupedSum) -> (r: Option<NumericDistribution>);
}

/// Whether every operator of a plan has the inputs that it reads.
pub open spec fn has_all_inputs(plan: LogicalPlan) -> bool
    decreases plan,
{
    &&& has_input_layouts(plan.operator, plan.children@.len())
    &&& forall|i: int|
        #![trigger plan.children@[i]]
        0 <= i < plan.children@.len() ==> has_all_inputs(plan.children@[i])
}

fn has_enough_inputs(plan: &LogicalPlan) -> (r: bool)
    ensures
        r == has_input_layouts(plan.operator, plan.children@.len()),
{
    match &plan.operator {
        LogicalOperator::Filter(_) => plan.children.len() >= 1,
        LogicalOperator::ExternalProject(_) => plan.children.len() >= 1,
        LogicalOperator::SetOperation(_) => plan.children.len() >= 2,
        _ => true,
    }
}

pub open spec fn all_have_inputs(plans: Seq<LogicalPlan>) -> bool {
    forall|i: int| 0 <= i < plans.len() ==> has_all_inputs(#[trigger] plans[i])
}

/// Whether every operator of a plan has the inputs that it reads.
pub fn inputs_are_complete(plan: &LogicalPlan) -> (r: bool)
    ensures
        r == has_all_inputs(*plan),
{
    let mut stack: Vec<&LogicalPlan> = Vec::new();
    stack.push(plan);
    assert(referents(stack@) =~= seq![*plan]);
    assert(referents(stack@)[0] == *plan);
    while stack.len() > 0
        invariant
            all_have_inputs(referents(stack@)) == has_all_inputs(*plan),
        decreases plans_size(referents(stack@), stack@.len()),
    {
        let ghost before = referents(stack@);
        if let Some(top) = stack.pop() {
            let ghost rest = referents(stack@);
            assert(before[rest.len() as int] == *top);
            if !has_enough_inputs(top) {
                return false;
            }
            push_children(top, &mut stack);
            proof {
                let children = top.children@;
                let after = referents(stack@);
                let n = rest.len();
                assert(before.len() == n + 1);
                assert(after.len() == stack@.len());
                assert(rest =~= before.drop_last());
                lemma_visit_size(before);
                assert(after =~= rest + children);
                if all_have_inputs(before) {
                    assert forall|i: int| 0 <= i < after.len() implies has_all_inputs(
                        #[trigger] after[i],
                    ) by {
                        if i < rest.len() {
                            assert(after[i] == before[i]);
                        } else {
                            assert(after[i] == children[i - rest.len()]);
                        }
                    }
                }
                if all_have_inputs(after) {
                    assert forall|i: int| 0 <= i < children.len() implies has_all_inputs(
                        #[trigger] children[i],
                    ) by {
                        assert(after[rest.len() + i] == children[i]);
                    }
                    assert forall|i: int| 0 <= i < before.len() implies has_all_inputs(
                        #[trigger] before[i],
                    ) by {
                        if i < rest.len() {
                            assert(after[i] == before[i]);
                        }
                    }
                }
            }
        }
    }
    true
}

/// The rows of a decision that needs no selectivity.
pub open spec fn decided_rows(decision: RowDecision) -> Option<Option<CardinalityEstimate>> {
    match decision {
        RowDecision::Rows(rows) => Some(rows),
        RowDecision::Filtered(FilterDecision::Rows(rows)) => Some(Some(rows)),
        _ => None,
    }
}

/// Whether `setting` is the row count that the session answered for tables
/// without statistics.
pub open spec fn is_setting<F: PlanFacts>(setting: Option<Value>) -> bool {
    exists|facts: &mut F| #[trigger] call_ensures(F::default_table_cardinality, (facts,), setting)
}

/// Whether `vertices` is what was answered about the label of a graph scan;
/// nothing is asked about other operators.
pub open spec fn is_vertex_count<F: PlanFacts>(
    operator: LogicalOperator,
    vertices: Option<u64>,
) -> bool {
    match operator {
        LogicalOperator::GraphScan(scan) => exists|facts: &mut F| #[trigger]
            call_ensures(F::vertex_count, (facts, &scan), vertices),
        _ => vertices is None,
    }
}

/// Whether `rows` is what was answered about a decision that a selectivity
/// completes.
pub open spec fn are_completed_rows<F: PlanFacts>(
    decision: RowDecision,
    operator: LogicalOperator,
    children: Vec<LogicalPlan>,
    layouts: Seq<Seq<OutputColumn>>,
    known: Map<ColumnBinding, ColumnStatistics>,
    rows: Option<CardinalityEstimate>,
) -> bool {
    exists|facts: &mut F, given: &[LogicalOutputLayout], columns: &BindingMap<ColumnStatistics>|
     #[trigger]
        call_ensures(F::complete_rows, (facts, decision, &operator, &children, given, columns), rows)
            && layouts_of(given@) == layouts && columns@ == known
}

/// Whether `rows` are those of an operator over completed inputs: decided from
/// the inputs, the setting and the vertices, or answered about that decision.
pub open spec fn are_rows_of<F: PlanFacts>(
    rows: Option<CardinalityEstimate>,
    operator: LogicalOperator,
    current: Option<CardinalityEstimate>,
    children: Vec<LogicalPlan>,
    layouts: Seq<Seq<OutputColumn>>,
    known: Map<ColumnBinding, ColumnStatistics>,
    setting: Option<Value>,
    vertices: Option<u64>,
    gathering: StatisticsGathering,
) -> bool {
    &&& is_setting::<F>(setting)
    &&& is_vertex_count::<F>(operator, vertices)
    &&& exists|decision: RowDecision| #[trigger]
        decides_rows(
            decision,
            operator,
            current,
            children@,
            layouts,
            known,
            default_rows(setting),
            vertices,
            gathering.rows.ctes@,
            gathering.rows.delims@,
        ) && match decided_rows(decision) {
            Some(decided) => rows == decided,
            None => are_completed_rows::<F>(decision, operator, children, layouts, known, rows),
        }
}

/// The definition that an operator publishes once it is estimated, and how its
/// columns correspond to those of the producer.
pub open spec fn completed_definition(
    operator: LogicalOperator,
    children: Seq<LogicalPlan>,
    layouts: nat,
) -> Option<(usize, Option<Seq<CteOutputColumn>>)> {
    match operator {
        LogicalOperator::MaterializedCTE(cte) => if layouts > 0 {
            Some((cte.cte_index, Some(cte.output_columns@)))
        } else {
            None
        },
        LogicalOperator::RecursiveCTE(cte) => if layouts > 0 && input_rows(children, 0) is Some {
            Some((cte.cte_index, None))
        } else {
            None
        },
        _ => None,
    }
}

/// Whether only what an operator publishes when it is estimated has been
/// published.
pub open spec fn is_estimated(
    operator: LogicalOperator,
    children: Seq<LogicalPlan>,
    layouts: Seq<Seq<OutputColumn>>,
    known: Map<ColumnBinding, ColumnStatistics>,
    before: StatisticsGathering,
    after: StatisticsGathering,
) -> bool {
    &&& after.proofs == before.proofs
    &&& after.rows.ctes@ == published_after(operator, children, before.rows.ctes@)
    &&& after.rows.delims@ == before.rows.delims@
    &&& after.columns.delims == before.columns.delims
    &&& match completed_definition(operator, children, layouts.len()) {
        Some((index, correspondence)) => {
            &&& after.columns.ctes@.contains_key(index)
            &&& after.columns.ctes@[index].columns@ == definition_columns(
                layouts[0],
                correspondence,
                known,
            )
            &&& after.columns.ctes@.remove(index) == before.columns.ctes@.remove(index)
        },
        None => after.columns.ctes == before.columns.ctes,
    }
}

/// What is known while a plan is gathered.
pub struct Progress {
    pub gathering: StatisticsGathering,
    pub columns: Map<ColumnBinding, ColumnStatistics>,
}

pub open spec fn progress(
    gathering: StatisticsGathering,
    columns: Map<ColumnBinding, ColumnStatistics>,
) -> Progress {
    Progress { gathering, columns }
}

/// What was answered about one operator.
pub struct Answers {
    pub rows: Option<CardinalityEstimate>,
    pub setting: Option<Value>,
    pub vertices: Option<u64>,
    /// Bounds on the rows of the inputs.
    pub maxima: Vec<Option<u64>>,
    pub maximum: Option<u64>,
    pub stored: HashMap<usize, ColumnStatistics>,
    pub subplan: Vec<ColumnStatistics>,
    pub resolved: Seq<ColumnStatistics>,
}

/// Whether `maximum` is what was answered about an operator over inputs with
/// the given bounds.
pub open spec fn is_maximum<F: PlanFacts>(
    operator: LogicalOperator,
    maxima: Vec<Option<u64>>,
    maximum: Option<u64>,
) -> bool {
    exists|facts: &mut F| #[trigger]
        call_ensures(F::maximum_cardinality, (facts, &operator, &maxima), maximum)
}

/// Whether `stored` is what was answered about a scan of a table.
pub open spec fn are_stored_for<F: PlanFacts>(
    get: Get,
    stored: HashMap<usize, ColumnStatistics>,
) -> bool {
    exists|facts: &mut F| #[trigger] call_ensures(F::stored_statistics, (facts, &get), stored)
}

/// Whether `stored` is what storage keeps for an operator; nothing where the
/// operator reads no table.
pub open spec fn are_stored<F: PlanFacts>(
    operator: LogicalOperator,
    stored: HashMap<usize, ColumnStatistics>,
) -> bool {
    match operator {
        LogicalOperator::Get(get) => are_stored_for::<F>(get, stored),
        LogicalOperator::FullTextFilterScan(scan) => are_stored_for::<F>(scan.get, stored),
        _ => stored@ == Map::<usize, ColumnStatistics>::empty(),
    }
}

/// Whether `subplan` is what was answered about a plan that is kept elsewhere;
/// nothing for other operators.
pub open spec fn is_subplan<F: PlanFacts>(
    operator: LogicalOperator,
    subplan: Vec<ColumnStatistics>,
) -> bool {
    match operator {
        LogicalOperator::SubplanRef(reference) => exists|facts: &mut F| #[trigger]
            call_ensures(F::subplan_statistics, (facts, &reference), subplan),
        _ => subplan@ == Seq::<ColumnStatistics>::empty(),
    }
}

/// Whether `merged` is what was answered about the values of two columns.
pub open spec fn is_merged<F: PlanFacts>(
    left: ColumnStatistics,
    right: ColumnStatistics,
    merged: ColumnStatistics,
) -> bool {
    exists|facts: &mut F| #[trigger] call_ensures(F::merge, (facts, left, right), merged)
}

/// Whether `distribution` is what was answered about a grouped sum.
pub open spec fn is_sum_distribution<F: PlanFacts>(
    sum: GroupedSum,
    distribution: Option<NumericDistribution>,
) -> bool {
    exists|facts: &mut F| #[trigger] call_ensures(F::sum_distribution, (facts, sum), distribution)
}

/// Whether `resolved` is `known` with the distribution of its sum, where there
/// is one.
pub open spec fn is_summed<F: PlanFacts>(
    known: ColumnStatistics,
    sum: GroupedSum,
    resolved: ColumnStatistics,
) -> bool {
    exists|distribution: Option<NumericDistribution>| #[trigger]
        is_sum_distribution::<F>(sum, distribution) && resolved == match distribution {
            Some(_) => ColumnStatistics { distribution, ..known },
            None => known,
        }
}

/// Whether `resolved` are the statistics of one column.
pub open spec fn is_resolved<F: PlanFacts>(
    statistics: OutputStatistics,
    resolved: ColumnStatistics,
) -> bool {
    match statistics {
        OutputStatistics::Known(known) => resolved == known,
        OutputStatistics::Merged(left, right) => is_merged::<F>(left, right, resolved),
        OutputStatistics::Summed(known, sum) => is_summed::<F>(known, sum, resolved),
    }
}

/// Whether `resolved` are the statistics of all columns.
pub open spec fn are_resolved<F: PlanFacts>(
    statistics: Seq<(ColumnBinding, OutputStatistics)>,
    resolved: Seq<ColumnStatistics>,
) -> bool {
    &&& resolved.len() == statistics.len()
    &&& forall|i: int|
        #![trigger resolved[i]]
        0 <= i < statistics.len() ==> is_resolved::<F>(statistics[i].1, resolved[i])
}

/// Each column with its resolved statistics.
pub open spec fn with_resolved(
    statistics: Seq<(ColumnBinding, OutputStatistics)>,
    resolved: Seq<ColumnStatistics>,
) -> Seq<(ColumnBinding, ColumnStatistics)> {
    Seq::new(statistics.len(), |i: int| (statistics[i].0, resolved[i]))
}

/// Whether `after` is the node `before` over completed inputs, settled by the
/// answers to what only the engine knows.
pub open spec fn is_settled_by<F: PlanFacts>(
    before: LogicalPlan,
    after: LogicalPlan,
    answers: Answers,
    reached: Progress,
    end: Progress,
) -> bool {
    let columns = plan_columns(after);
    let layouts = child_columns(after.children@);
    let statistics = published_statistics(
        columns,
        operator_statistics(
            before.operator,
            input_rows(after.children@, 0),
            after.stats.estimated_cardinality,
            columns,
            layouts,
            answers.maximum,
            reached.columns,
            answers.stored@,
            answers.subplan@,
            end.gathering.columns.ctes@,
            end.gathering.columns.delims@,
        ),
        keeps_distributions(before.operator),
    );
    &&& after.operator == before.operator
    &&& if estimates_anew(before.operator, before.stats.cardinality_provenance) {
        &&& after.stats.estimated_cardinality == answers.rows
        &&& after.stats.cardinality_provenance == CardinalityProvenance::Statistics
        &&& are_rows_of::<F>(
            answers.rows,
            before.operator,
            before.stats.estimated_cardinality,
            after.children,
            layouts,
            reached.columns,
            answers.setting,
            answers.vertices,
            reached.gathering,
        )
        &&& is_estimated(
            before.operator,
            after.children@,
            layouts,
            reached.columns,
            reached.gathering,
            end.gathering,
        )
    } else {
        &&& after.stats.estimated_cardinality == before.stats.estimated_cardinality
        &&& after.stats.cardinality_provenance == before.stats.cardinality_provenance
        &&& end.gathering == reached.gathering
    }
    &&& after.stats.finite_domains@ == retained(
        operator_domains(
            before.operator,
            columns,
            layouts,
            child_inputs(after.children@),
            end.gathering.proofs.ctes@,
            before.stats.finite_domains@,
        ),
        columns,
    )
    &&& has_derived_keys::<F>(after, end.gathering.proofs.ctes@)
    &&& is_maximum::<F>(before.operator, answers.maxima, answers.maximum)
    &&& are_stored::<F>(before.operator, answers.stored)
    &&& is_subplan::<F>(before.operator, answers.subplan)
    &&& are_resolved::<F>(statistics, answers.resolved)
    &&& end.columns == columns_after(
        reached.columns,
        with_resolved(statistics, answers.resolved),
        statistics.len(),
    )
}

/// The input after the first, as it was before it is visited.
pub open spec fn dependent_input(plan: LogicalPlan) -> Option<LogicalPlan> {
    if plan.children@.len() > 1 {
        Some(plan.children@[1])
    } else {
        None
    }
}

/// Whether `after` is what is known once input `i` of a node is complete.
pub open spec fn is_passed(
    parent: LogicalPlan,
    i: int,
    child: LogicalPlan,
    before: Progress,
    after: Progress,
) -> bool {
    if i == 0 {
        &&& after.columns == before.columns
        &&& published_first_child(
            before.gathering,
            after.gathering,
            parent.operator,
            child,
            plan_columns(child),
            dependent_input(parent),
            before.columns,
        )
    } else {
        after == before
    }
}

/// Progress around the inputs of a node: `entered` holds it before each of the
/// `n` inputs and after the last one, `left` where each input leaves it.
pub open spec fn is_trace(
    entered: Seq<Progress>,
    left: Seq<Progress>,
    n: nat,
    start: Progress,
) -> bool {
    &&& entered.len() == n + 1
    &&& left.len() == n
    &&& entered[0] == start
}

/// `after` is `before` with its statistics gathered, input by input, and
/// `maximum` the proven bound on its rows.
pub open spec fn is_gathered<F: PlanFacts>(
    before: LogicalPlan,
    start: Progress,
    after: LogicalPlan,
    end: Progress,
    maximum: Option<u64>,
) -> bool
    decreases before,
{
    &&& after.children@.len() == before.children@.len()
    &&& exists|entered: Seq<Progress>, left: Seq<Progress>, answers: Answers| #[trigger]
        is_trace(entered, left, before.children@.len(), start) && #[trigger] is_settled_by::<F>(
            before,
            after,
            answers,
            entered.last(),
            end,
        ) && answers.maximum == maximum && answers.maxima@.len() == before.children@.len()
            && forall|i: int|
            #![trigger before.children@[i]]
            #![trigger left[i]]
            0 <= i < before.children@.len() ==> is_gathered::<F>(
                before.children@[i],
                entered[i],
                after.children@[i],
                left[i],
                answers.maxima@[i],
            ) && is_passed(before, i, after.children@[i], left[i], entered[i + 1])
}

/// Gathering leaves the columns of every plan as they are.
pub proof fn gathering_keeps_columns<F: PlanFacts>(
    before: LogicalPlan,
    start: Progress,
    after: LogicalPlan,
    end: Progress,
    maximum: Option<u64>,
)
    requires
        is_gathered::<F>(before, start, after, end, maximum),
    ensures
        plan_columns(after) == plan_columns(before),
    decreases before,
{
    let (entered, left, answers) = choose|
        entered: Seq<Progress>,
        left: Seq<Progress>,
        answers: Answers,
    | #[trigger]
        is_trace(entered, left, before.children@.len(), start) && #[trigger] is_settled_by::<F>(
            before,
            after,
            answers,
            entered.last(),
            end,
        ) && answers.maximum == maximum && answers.maxima@.len() == before.children@.len()
            && forall|i: int|
            #![trigger before.children@[i]]
            #![trigger left[i]]
            0 <= i < before.children@.len() ==> is_gathered::<F>(
                before.children@[i],
                entered[i],
                after.children@[i],
                left[i],
                answers.maxima@[i],
            ) && is_passed(before, i, after.children@[i], left[i], entered[i + 1]);
    assert forall|i: int| 0 <= i < before.children@.len() implies plan_columns(
        #[trigger] after.children@[i],
    ) == plan_columns(before.children@[i]) by {
        gathering_keeps_columns::<F>(
            before.children@[i],
            entered[i],
            after.children@[i],
            left[i],
            answers.maxima@[i],
        );
    }
    lemma_plan_columns(before);
    lemma_plan_columns(after);
    assert(child_columns(after.children@) =~= child_columns(before.children@));
}

/// A completed input.
struct Gathered {
    plan: LogicalPlan,
    layout: LogicalOutputLayout,
    maximum: Option<u64>,
}

fn resolve<F: PlanFacts>(
    statistics: Vec<(ColumnBinding, OutputStatistics)>,
    facts: &mut F,
) -> (r: Vec<(ColumnBinding, ColumnStatistics)>)
    ensures
        exists|resolved: Seq<ColumnStatistics>| #[trigger]
            are_resolved::<F>(statistics@, resolved) && r@ == with_resolved(statistics@, resolved),
{
    let ghost all = statistics@;
    let mut rest = reversed(statistics);
    let mut r: Vec<(ColumnBinding, ColumnStatistics)> = Vec::new();
    let ghost mut resolved: Seq<ColumnStatistics> = Seq::empty();
    while rest.len() > 0
        invariant
            rest@.len() <= all.len(),
            rest@ == all.reverse().take(rest@.len() as int),
            r@.len() + rest@.len() == all.len(),
            are_resolved::<F>(all.take(r@.len() as int), resolved),
            r@ == with_resolved(all.take(r@.len() as int), resolved),
        decreases rest@.len(),
    {
        let ghost n = rest@.len();
        let ghost k = r@.len() as int;
        if let Some((binding, item)) = rest.pop() {
            assert((binding, item) == all[k]);
            assert(rest@ =~= all.reverse().take(n - 1));
            let ghost asked = item;
            let found: ColumnStatistics = match item {
                OutputStatistics::Known(known) => known,
                OutputStatistics::Merged(left, right) => {
                    let merged = facts.merge(left, right);
                    assert(is_merged::<F>(left, right, merged));
                    merged
                },
                OutputStatistics::Summed(known, sum) => {
                    let distribution = facts.sum_distribution(sum);
                    assert(is_sum_distribution::<F>(sum, distribution));
                    match distribution {
                        Some(distribution) => known.with_distribution(Some(distribution)),
                        None => known,
                    }
                },
            };
            assert(is_resolved::<F>(asked, found));
            r.push((binding, found));
            proof {
                let before = resolved;
                resolved = resolved.push(found);
                assert forall|i: int|
                    #![trigger resolved[i]]
                    0 <= i <= k implies is_resolved::<F>(
                    all.take(k + 1)[i].1,
                    resolved[i],
                ) by {
                    if i < k {
                        assert(resolved[i] == before[i]);
                        assert(all.take(k + 1)[i] == all.take(k)[i]);
                    }
                }
                assert(r@ =~= with_resolved(all.take(k + 1), resolved));
            }
        }
    }
    assert(all.take(all.len() as int) =~= all);
    r
}

/// What is kept of the settled inputs of an operator.
struct SettledInputs {
    layouts: Vec<LogicalOutputLayout>,
    maxima: Vec<Option<u64>>,
    entered: Ghost<Seq<Progress>>,
    left: Ghost<Seq<Progress>>,
}

/// Whether the rewritten inputs of a frame are gathered, with so many of the
/// others entered.
spec fn is_under_way<F: PlanFacts>(frame: Frame<SettledInputs>, open: nat) -> bool {
    let all = frame.whole@.children@;
    let n = frame.inputs@.len();
    let state = frame.state;
    &&& frame.is_split(open)
    &&& has_all_inputs(frame.whole@)
    &&& state.layouts@.len() == n
    &&& state.maxima@.len() == n
    &&& state.left@.len() == n
    &&& state.entered@.len() == n + 1
    &&& forall|k: int|
        0 <= k < n ==> (#[trigger] state.layouts@[k]).columns@ == plan_columns(frame.inputs@[k])
    &&& forall|k: int|
        #![trigger state.left@[k]]
        0 <= k < n ==> is_gathered::<F>(
            all[k],
            state.entered@[k],
            frame.inputs@[k],
            state.left@[k],
            state.maxima@[k],
        ) && is_passed(
            frame.whole@,
            k,
            frame.inputs@[k],
            state.left@[k],
            state.entered@[k + 1],
        )
}

/// Whether each frame waits for the one after it, from the whole plan on down
/// to the given one.
spec fn are_waiting<F: PlanFacts>(
    frames: Seq<Frame<SettledInputs>>,
    plan: LogicalPlan,
    entered: Progress,
    whole: LogicalPlan,
    start: Progress,
) -> bool
    decreases frames.len(),
{
    if frames.len() == 0 {
        plan == whole && entered == start
    } else {
        let frame = frames.last();
        &&& is_under_way::<F>(frame, 1)
        &&& plan == frame.next_input()
        &&& entered == frame.state.entered@.last()
        &&& are_waiting::<F>(
            frames.drop_last(),
            frame.whole@,
            frame.state.entered@[0],
            whole,
            start,
        )
    }
}

fn open_frame<F: PlanFacts>(plan: LogicalPlan, Ghost(start): Ghost<Progress>) -> (r: Frame<
    SettledInputs,
>)
    requires
        has_all_inputs(plan),
    ensures
        is_under_way::<F>(r, 0),
        r.whole@ == plan,
        r.state.entered@ == Seq::<Progress>::empty().push(start),
        r.size() == 1 + 2 * plans_size(plan.children@, plan.children@.len()),
{
    let r = Frame::open(
        plan,
        SettledInputs {
            layouts: Vec::new(),
            maxima: Vec::new(),
            entered: Ghost(Seq::empty().push(start)),
            left: Ghost(Seq::empty()),
        },
    );
    proof {
        lemma_open_size(r);
    }
    r
}

impl StatisticsGathering {
    /// Estimates the rows of an operator over completed inputs and publishes
    /// the definition that it owns.
    fn estimate_rows<F: PlanFacts>(
        &mut self,
        operator: &LogicalOperator,
        current: Option<CardinalityEstimate>,
        children: &Vec<LogicalPlan>,
        layouts: &[LogicalOutputLayout],
        columns: &BindingMap<ColumnStatistics>,
        facts: &mut F,
    ) -> (r: Option<CardinalityEstimate>)
        ensures
            exists|setting: Option<Value>, vertices: Option<u64>| #[trigger]
                are_rows_of::<F>(
                    r,
                    *operator,
                    current,
                    *children,
                    layouts_of(layouts@),
                    columns@,
                    setting,
                    vertices,
                    *old(self),
                ),
            is_estimated(
                *operator,
                children@,
                layouts_of(layouts@),
                columns@,
                *old(self),
                *final(self),
            ),
    {
        let ghost start = *self;
        let vertices = match operator {
            LogicalOperator::GraphScan(scan) => facts.vertex_count(scan),
            _ => None,
        };
        let setting = facts.default_table_cardinality();
        assert(is_vertex_count::<F>(*operator, vertices));
        assert(is_setting::<F>(setting));
        let default_table_rows: usize = default_table_cardinality(&setting);
        let inputs = CardinalityInputs { columns, default_table_rows, vertex_count: vertices };
        let decision = self.rows.estimate_plan_cardinality(
            operator,
            current,
            children,
            layouts,
            &inputs,
        );
        let ghost decided = decision;
        if layouts.len() > 0 {
            match operator {
                LogicalOperator::MaterializedCTE(cte) => {
                    self.publish_cte_statistics(
                        cte.cte_index,
                        None,
                        &layouts[0],
                        Some(&cte.output_columns),
                        columns,
                    );
                },
                LogicalOperator::RecursiveCTE(cte) => {
                    if children.len() > 0 && children[0].stats.estimated_cardinality.is_some() {
                        self.publish_cte_statistics(
                            cte.cte_index,
                            None,
                            &layouts[0],
                            None,
                            columns,
                        );
                    }
                },
                _ => {},
            }
        }
        let r = match decision {
            RowDecision::Rows(rows) => rows,
            RowDecision::Filtered(FilterDecision::Rows(rows)) => Some(rows),
            other => facts.complete_rows(other, operator, children, layouts, columns),
        };
        assert(match decided_rows(decided) {
            Some(rows) => r == rows,
            None => are_completed_rows::<F>(
                decided,
                *operator,
                *children,
                layouts_of(layouts@),
                columns@,
                r,
            ),
        });
        assert(are_rows_of::<F>(
            r,
            *operator,
            current,
            *children,
            layouts_of(layouts@),
            columns@,
            setting,
            vertices,
            start,
        ));
        r
    }

    /// The rows of an operator over completed inputs. Nothing is derived or
    /// published of its own output.
    pub fn estimate_native_cardinality<F: PlanFacts>(
        &mut self,
        operator: &LogicalOperator,
        children: &Vec<LogicalPlan>,
        layouts: &[LogicalOutputLayout],
        columns: &BindingMap<ColumnStatistics>,
        facts: &mut F,
    ) -> (r: Option<CardinalityEstimate>)
        ensures
            exists|setting: Option<Value>, vertices: Option<u64>| #[trigger]
                are_rows_of::<F>(
                    r,
                    *operator,
                    None,
                    *children,
                    layouts_of(layouts@),
                    columns@,
                    setting,
                    vertices,
                    *old(self),
                ),
            is_estimated(
                *operator,
                children@,
                layouts_of(layouts@),
                columns@,
                *old(self),
                *final(self),
            ),
    {
        self.estimate_rows(operator, None, children, layouts, columns, facts)
    }

    /// Settles a node over completed inputs.
    fn fold<F: PlanFacts>(
        &mut self,
        stats: NodeStats,
        operator: LogicalOperator,
        children: Vec<LogicalPlan>,
        layouts: Vec<LogicalOutputLayout>,
        maxima: &Vec<Option<u64>>,
        columns: &mut BindingMap<ColumnStatistics>,
        facts: &mut F,
        Ghost(before): Ghost<LogicalPlan>,
    ) -> (r: Gathered)
        requires
            before.stats == stats,
            before.operator == operator,
            has_input_layouts(operator, children@.len()),
            layouts_of(layouts@) == child_columns(children@),
        ensures
            r.plan.children == children,
            r.layout.columns@ == plan_columns(r.plan),
            exists|answers: Answers| #[trigger]
                is_settled_by::<F>(
                    before,
                    r.plan,
                    answers,
                    progress(*old(self), old(columns)@),
                    progress(*final(self), final(columns)@),
                ) && answers.maxima == *maxima && answers.maximum == r.maximum,
    {
        let ghost start = *self;
        let ghost known = columns@;
        let mut stats = stats;
        let anew: bool = needs_estimate(&operator, stats.cardinality_provenance);
        let estimated = if anew {
            self.estimate_rows(
                &operator,
                stats.estimated_cardinality,
                &children,
                layouts.as_slice(),
                columns,
                facts,
            )
        } else {
            None
        };
        let maximum = facts.maximum_cardinality(&operator, maxima);
        assert(is_maximum::<F>(operator, *maxima, maximum));
        let stored = match &operator {
            LogicalOperator::Get(get) => facts.stored_statistics(get),
            LogicalOperator::FullTextFilterScan(scan) => facts.stored_statistics(&scan.get),
            _ => HashMap::new(),
        };
        let subplan = match &operator {
            LogicalOperator::SubplanRef(reference) => facts.subplan_statistics(reference),
            _ => Vec::new(),
        };
        assert(are_stored::<F>(operator, stored));
        assert(is_subplan::<F>(operator, subplan));
        let base = facts.base_unique_keys(&operator, layouts.as_slice(), &children);
        let ghost given = base;
        assert(are_base_keys::<F>(operator, children, given));
        assert(layouts_of(layouts@).len() == layouts@.len());
        let local = self.gather_local(
            &operator,
            &children,
            &mut stats,
            estimated,
            layouts.as_slice(),
            base,
            maximum,
            &OutputInputs { columns: &*columns, stored: &stored, subplan: &subplan },
        );
        let LocalOutput { layout, statistics } = local;
        let ghost listed = statistics@;
        let published = resolve(statistics, facts);
        publish_columns(columns, &published);
        let NodeStats { estimated_cardinality, cardinality_provenance, unique_keys, finite_domains } =
            stats;
        let ghost derived = unique_keys;
        let kept = facts.normalize_unique_keys(unique_keys);
        assert(are_normalized_keys::<F>(derived, kept));
        let stats = NodeStats {
            estimated_cardinality,
            cardinality_provenance,
            unique_keys: kept,
            finite_domains,
        };
        let plan = LogicalPlan { stats, operator, children };
        proof {
            lemma_plan_columns(plan);
            let resolved = choose|resolved: Seq<ColumnStatistics>| #[trigger]
                are_resolved::<F>(listed, resolved) && published@ == with_resolved(listed, resolved);
            let (setting, vertices) = choose|setting: Option<Value>, vertices: Option<u64>|
             #[trigger]
                are_rows_of::<F>(
                    estimated,
                    operator,
                    before.stats.estimated_cardinality,
                    children,
                    layouts_of(layouts@),
                    known,
                    setting,
                    vertices,
                    start,
                );
            let answers = Answers {
                rows: estimated,
                setting,
                vertices,
                maxima: *maxima,
                maximum,
                stored,
                subplan,
                resolved,
            };
            assert(are_base_keys::<F>(plan.operator, plan.children, given));
            assert(are_normalized_keys::<F>(derived, plan.stats.unique_keys));
            assert(key_views(derived@) == reduced_keys(
                operator_keys(
                    plan.operator,
                    plan_columns(plan),
                    child_columns(plan.children@),
                    child_inputs(plan.children@),
                    self.proofs.ctes@,
                    key_views(given@),
                ),
                plan.stats.finite_domains@,
            ));
            assert(has_derived_keys::<F>(plan, self.proofs.ctes@));
            assert(is_settled_by::<F>(
                before,
                plan,
                answers,
                progress(start, known),
                progress(*self, columns@),
            ));
        }
        Gathered { plan, layout, maximum }
    }

    /// Takes the settled next input of an operator, and publishes what the
    /// operator publishes of its first one.
    fn receive<F: PlanFacts>(
        &mut self,
        frame: Frame<SettledInputs>,
        gathered: Gathered,
        columns: &mut BindingMap<ColumnStatistics>,
        Ghost(entered): Ghost<Progress>,
    ) -> (r: Frame<SettledInputs>)
        requires
            is_under_way::<F>(frame, 1),
            entered == frame.state.entered@.last(),
            is_gathered::<F>(
                frame.next_input(),
                entered,
                gathered.plan,
                progress(*old(self), old(columns)@),
                gathered.maximum,
            ),
            gathered.layout.columns@ == plan_columns(gathered.plan),
        ensures
            is_under_way::<F>(r, 0),
            r.whole == frame.whole,
            r.size() == frame.size(),
            r.state.entered@[0] == frame.state.entered@[0],
            r.state.entered@.last() == progress(*final(self), final(columns)@),
    {
        let Frame {
            stats,
            operator,
            rest,
            inputs,
            state,
            whole: Ghost(whole),
        } = frame;
        let SettledInputs { layouts, maxima, entered: Ghost(passed), left: Ghost(left) } = state;
        let ghost reached = progress(*self, columns@);
        let ghost k = inputs@.len() as int;
        let mut inputs = inputs;
        let mut layouts = layouts;
        let mut maxima = maxima;
        if inputs.len() == 0 {
            let dependent: Option<&LogicalPlan> = if rest.len() > 0 {
                Some(&rest[rest.len() - 1])
            } else {
                None
            };
            assert(optional_plan(dependent) == dependent_input(whole));
            self.publish_completed_first_child(
                &operator,
                &gathered.plan,
                &gathered.layout,
                dependent,
                columns,
            );
        }
        let Gathered { plan: settled, layout, maximum } = gathered;
        assert(is_passed(whole, k, settled, reached, progress(*self, columns@)));
        inputs.push(settled);
        layouts.push(layout);
        maxima.push(maximum);
        Frame {
            stats,
            operator,
            rest,
            inputs,
            state: SettledInputs {
                layouts,
                maxima,
                entered: Ghost(passed.push(progress(*self, columns@))),
                left: Ghost(left.push(reached)),
            },
            whole: Ghost(whole),
        }
    }

    /// Settles an operator whose inputs are settled.
    fn close<F: PlanFacts>(
        &mut self,
        frame: Frame<SettledInputs>,
        columns: &mut BindingMap<ColumnStatistics>,
        facts: &mut F,
    ) -> (r: Gathered)
        requires
            is_under_way::<F>(frame, 0),
            frame.inputs@.len() == frame.whole@.children@.len(),
            frame.state.entered@.last() == progress(*old(self), old(columns)@),
        ensures
            is_gathered::<F>(
                frame.whole@,
                frame.state.entered@[0],
                r.plan,
                progress(*final(self), final(columns)@),
                r.maximum,
            ),
            r.layout.columns@ == plan_columns(r.plan),
    {
        let Frame {
            stats,
            operator,
            rest: _,
            inputs,
            state,
            whole: Ghost(whole),
        } = frame;
        let SettledInputs { layouts, maxima, entered: Ghost(entered), left: Ghost(left) } = state;
        assert(layouts_of(layouts@) =~= child_columns(inputs@));
        let r = self.fold(stats, operator, inputs, layouts, &maxima, columns, facts, Ghost(whole));
        proof {
            assert(is_trace(entered, left, whole.children@.len(), entered[0]));
            let answers = choose|answers: Answers| #[trigger]
                is_settled_by::<F>(
                    whole,
                    r.plan,
                    answers,
                    entered.last(),
                    progress(*self, columns@),
                ) && answers.maxima == maxima && answers.maximum == r.maximum;
            assert(is_settled_by::<F>(
                whole,
                r.plan,
                answers,
                entered.last(),
                progress(*self, columns@),
            ));
        }
        r
    }

    /// Gathers a plan input by input. Plans can be deep, so the operators that
    /// wait for an input stand in a list.
    fn gather_node<F: PlanFacts>(
        &mut self,
        plan: LogicalPlan,
        columns: &mut BindingMap<ColumnStatistics>,
        facts: &mut F,
    ) -> (r: Gathered)
        requires
            has_all_inputs(plan),
        ensures
            is_gathered::<F>(
                plan,
                progress(*old(self), old(columns)@),
                r.plan,
                progress(*final(self), final(columns)@),
                r.maximum,
            ),
            r.layout.columns@ == plan_columns(r.plan),
    {
        let ghost whole = plan;
        let ghost start = progress(*self, columns@);
        let mut waiting: Vec<Frame<SettledInputs>> = Vec::new();
        let mut top = open_frame::<F>(plan, Ghost(start));
        loop
            invariant
                is_under_way::<F>(top, 0),
                top.state.entered@.last() == progress(*self, columns@),
                are_waiting::<F>(waiting@, top.whole@, top.state.entered@[0], whole, start),
                start == progress(*old(self), old(columns)@),
                whole == plan,
            decreases frames_size(waiting@, waiting@.len()) + top.size(),
        {
            let ghost before = top;
            let ghost below = waiting@;
            match top.enter() {
                Some(child) => {
                    let ghost now = progress(*self, columns@);
                    let opened = open_frame::<F>(child, Ghost(now));
                    proof {
                        assert(is_under_way::<F>(top, 1));
                        assert(below.push(top).drop_last() =~= below);
                        lemma_frames_size_push(below, top);
                    }
                    waiting.push(top);
                    top = opened;
                },
                None => {
                    assert(is_under_way::<F>(top, 0));
                    let gathered = self.close(top, columns, facts);
                    match waiting.pop() {
                        Some(frame) => {
                            proof {
                                assert(waiting@ =~= below.drop_last());
                                assert(below =~= waiting@.push(frame));
                                lemma_frames_size_push(waiting@, frame);
                            }
                            top = self.receive::<F>(
                                frame,
                                gathered,
                                columns,
                                Ghost(before.state.entered@[0]),
                            );
                        },
                        None => {
                            return gathered;
                        },
                    }
                },
            }
        }
    }

    /// Gathers the statistics of a plan. Statistics of columns are read from
    /// and published to `columns`.
    pub fn gather<F: PlanFacts>(
        &mut self,
        plan: LogicalPlan,
        columns: &mut BindingMap<ColumnStatistics>,
        facts: &mut F,
    ) -> (r: LogicalPlan)
        requires
            has_all_inputs(plan),
        ensures
            exists|maximum: Option<u64>| #[trigger]
                is_gathered::<F>(
                    plan,
                    progress(*old(self), old(columns)@),
                    r,
                    progress(*final(self), final(columns)@),
                    maximum,
                ),
    {
        self.gather_node(plan, columns, facts).plan
    }
}

/// Gathering leaves the operators of a plan as they are, and the rows that a join
/// order has estimated for anything but a filter.
pub proof fn gathering_keeps_join_order_rows<F: PlanFacts>(
    before: LogicalPlan,
    start: Progress,
    after: LogicalPlan,
    end: Progress,
    maximum: Option<u64>,
)
    requires
        is_gathered::<F>(before, start, after, end, maximum),
    ensures
        after.operator == before.operator,
        before.stats.cardinality_provenance == CardinalityProvenance::JoinGraph && !(
        before.operator is Filter) ==> after.stats.estimated_cardinality
            == before.stats.estimated_cardinality && after.stats.cardinality_provenance
            == before.stats.cardinality_provenance,
        before.stats.cardinality_provenance != CardinalityProvenance::JoinGraph
            ==> after.stats.cardinality_provenance == CardinalityProvenance::Statistics,
        before.operator is Filter ==> after.stats.cardinality_provenance
            == CardinalityProvenance::Statistics,
{
}

} // verus!
