//! Facts of a plan, gathered one operator at a time over completed inputs.

use std::collections::HashMap;
use vstd::prelude::*;

use crate::binding_map::BindingMap;
use crate::estimate::groups::{delim_rows, estimate_delim_rows};
use crate::estimate::output::{
    all_computed, all_expression_statistics, collect_output_stats_for_layout, first_position,
    layout_statistics, OutputStatistics,
};
use crate::estimate::publication::{
    has_input_layouts, keeps_distributions, operator_statistics, published_statistics,
    DefinitionColumns, OutputInputs, PublishedColumns,
};
use crate::estimate::relation::{input_rows, PublishedRows};
use crate::estimate::relation_proofs::{
    child_inputs, inputs_of, key_views, operator_domains, operator_keys, publishes, reduced_keys,
    retained, PublishedProofs, RelationProofs,
};
use crate::expression::Expression;
use crate::layout::{bindings_of, layouts_of, operator_columns, LogicalOutputLayout};
use crate::operator::{CteOutputColumn, Join, LogicalOperator, OutputColumn};
use crate::index_list::lemma_push_to_set;
use crate::plan::{
    is_part, lemma_visit_size, plans_size, push_children, referents, CardinalityEstimate,
    CardinalityProvenance, LogicalPlan, NodeStats, UniqueKey,
};
use crate::statistics::{ColumnStatistics, ColumnStatisticsLookup};
use crate::types::ColumnBinding;

verus! {

/// The first `k` columns by position.
pub open spec fn columns_by_position(statistics: Seq<ColumnStatistics>, k: nat) -> Map<
    usize,
    ColumnStatistics,
>
    decreases k,
{
    if k == 0 {
        Map::empty()
    } else {
        columns_by_position(statistics, (k - 1) as nat).insert(
            (k - 1) as usize,
            statistics[k - 1],
        )
    }
}

/// The first `k` columns of a definition by their identity; a column that the
/// producer does not put out is left out.
pub open spec fn columns_by_definition(
    statistics: Seq<ColumnStatistics>,
    bindings: Seq<ColumnBinding>,
    columns: Seq<CteOutputColumn>,
    k: nat,
) -> Map<usize, ColumnStatistics>
    decreases k,
{
    if k == 0 {
        Map::empty()
    } else {
        let before = columns_by_definition(statistics, bindings, columns, (k - 1) as nat);
        match bindings.index_of_first(columns[k - 1].binding) {
            Some(i) => before.insert(columns[k - 1].definition.0, statistics[i]),
            None => before,
        }
    }
}

/// Statistics of a definition's columns.
pub open spec fn definition_columns(
    layout: Seq<OutputColumn>,
    correspondence: Option<Seq<CteOutputColumn>>,
    known: Map<ColumnBinding, ColumnStatistics>,
) -> Map<usize, ColumnStatistics> {
    let statistics = layout_statistics(layout, known);
    match correspondence {
        None => columns_by_position(statistics, statistics.len()),
        Some(columns) => columns_by_definition(
            statistics,
            bindings_of(layout),
            columns,
            columns.len(),
        ),
    }
}

pub open spec fn correspondence_view(correspondence: Option<&Vec<CteOutputColumn>>) -> Option<
    Seq<CteOutputColumn>,
> {
    match correspondence {
        Some(columns) => Some(columns@),
        None => None,
    }
}

/// Collects the statistics of a definition's columns by their identity.
pub fn cte_columns<L: ColumnStatisticsLookup>(
    layout: &LogicalOutputLayout,
    correspondence: Option<&Vec<CteOutputColumn>>,
    columns: &L,
) -> (r: DefinitionColumns)
    ensures
        r.columns@ == definition_columns(
            layout.columns@,
            correspondence_view(correspondence),
            columns.known(),
        ),
{
    broadcast use vstd::std_specs::hash::group_hash_axioms;

    let values = collect_output_stats_for_layout(layout, columns);
    let mut r: HashMap<usize, ColumnStatistics> = HashMap::new();
    match correspondence {
        None => {
            let mut i: usize = 0;
            while i < values.len()
                invariant
                    i <= values@.len(),
                    r@ == columns_by_position(values@, i as nat),
                decreases values@.len() - i,
            {
                r.insert(i, values[i].copy());
                i = i + 1;
            }
        },
        Some(listed) => {
            let bindings = layout.bindings();
            let mut i: usize = 0;
            while i < listed.len()
                invariant
                    i <= listed@.len(),
                    values@.len() == bindings@.len(),
                    r@ == columns_by_definition(values@, bindings@, listed@, i as nat),
                decreases listed@.len() - i,
            {
                if let Some(position) = first_position(&bindings, listed[i].binding) {
                    r.insert(listed[i].definition.0, values[position].copy());
                }
                i = i + 1;
            }
        },
    }
    DefinitionColumns { columns: r }
}

/// Relations of the outer key scans in a plan.
pub open spec fn delim_indices(plan: LogicalPlan) -> Set<usize>
    decreases plan, 0nat,
{
    let below = delim_indices_below(plan.children@, plan.children@.len());
    match plan.operator {
        LogicalOperator::DelimGet(delim) => below.insert(delim.table_index),
        _ => below,
    }
}

/// Relations of the outer key scans in the first `n` plans.
pub open spec fn delim_indices_below(plans: Seq<LogicalPlan>, n: nat) -> Set<usize>
    decreases plans, n,
{
    if n == 0 || n > plans.len() {
        Set::empty()
    } else {
        delim_indices_below(plans, (n - 1) as nat).union(delim_indices(plans[n - 1]))
    }
}

proof fn lemma_delim_indices_below(plans: Seq<LogicalPlan>, more: Seq<LogicalPlan>, n: nat)
    requires
        n <= more.len(),
    ensures
        delim_indices_below(plans + more, plans.len() + n) == delim_indices_below(
            plans,
            plans.len(),
        ).union(delim_indices_below(more, n)),
    decreases n,
{
    let all = plans + more;
    if n == 0 {
        lemma_delim_indices_prefix(plans, all, plans.len());
        assert(delim_indices_below(plans, plans.len()).union(Set::empty()) =~= delim_indices_below(
            plans,
            plans.len(),
        ));
    } else {
        lemma_delim_indices_below(plans, more, (n - 1) as nat);
        assert(all[plans.len() + n - 1] == more[n - 1]);
        assert(delim_indices_below(all, plans.len() + n) =~= delim_indices_below(
            plans,
            plans.len(),
        ).union(delim_indices_below(more, n)));
    }
}

proof fn lemma_delim_indices_prefix(plans: Seq<LogicalPlan>, all: Seq<LogicalPlan>, n: nat)
    requires
        n <= plans.len(),
        n <= all.len(),
        forall|i: int| 0 <= i < n ==> #[trigger] plans[i] == all[i],
    ensures
        delim_indices_below(plans, n) == delim_indices_below(all, n),
    decreases n,
{
    if n > 0 {
        lemma_delim_indices_prefix(plans, all, (n - 1) as nat);
        assert(plans[n - 1] == all[n - 1]);
    }
}

/// Collects the relations of the outer key scans in a plan. Plans can be deep,
/// so the operators that are left to visit stand in a list.
pub fn collect_delim_indices(plan: &LogicalPlan, indices: &mut Vec<usize>)
    ensures
        final(indices)@.to_set() == old(indices)@.to_set().union(delim_indices(*plan)),
{
    let ghost whole = old(indices)@.to_set().union(delim_indices(*plan));
    let mut stack: Vec<&LogicalPlan> = Vec::new();
    stack.push(plan);
    proof {
        let plans = referents(stack@);
        assert(plans =~= seq![*plan]);
        assert(delim_indices_below(plans, 0) =~= Set::empty());
        assert(delim_indices_below(plans, 1) =~= delim_indices(*plan));
    }
    while stack.len() > 0
        invariant
            indices@.to_set().union(delim_indices_below(referents(stack@), stack@.len())) == whole,
        decreases plans_size(referents(stack@), stack@.len()),
    {
        let ghost before = referents(stack@);
        let ghost collected = indices@;
        if let Some(top) = stack.pop() {
            let ghost rest = referents(stack@);
            push_children(top, &mut stack);
            if let LogicalOperator::DelimGet(delim) = &top.operator {
                indices.push(delim.table_index);
                proof {
                    lemma_push_to_set(collected, delim.table_index);
                }
            }
            proof {
                let n = rest.len();
                let children = top.children@;
                assert(before[n as int] == *top);
                assert(before.len() == n + 1);
                assert(referents(stack@).len() == stack@.len());
                assert(rest =~= before.drop_last());
                lemma_visit_size(before);
                assert(delim_indices_below(before, (n + 1) as nat) == delim_indices_below(
                    before,
                    n,
                ).union(delim_indices(*top)));
                lemma_delim_indices_prefix(before, rest, n);
                lemma_delim_indices_below(rest, children, children.len());
                assert(indices@.to_set().union(
                    delim_indices_below(referents(stack@), stack@.len()),
                ) =~= collected.to_set().union(delim_indices_below(before, before.len())));
            }
        }
    }
    assert(indices@.to_set() =~= whole);
}

/// Everything that is gathered for readers elsewhere in the plan.
pub struct StatisticsGathering {
    pub proofs: RelationProofs,
    pub rows: PublishedRows,
    pub columns: PublishedColumns,
}

/// The same value for every key of a set.
pub open spec fn published_for<V>(before: Map<usize, V>, indices: Set<usize>, value: V) -> Map<
    usize,
    V,
> {
    before.union_prefer_right(Map::new(|i: usize| indices.contains(i), |i: usize| value))
}

/// Whether every index of the set holds the statistics, and the others what
/// they held.
pub open spec fn columns_published_for(
    before: Map<usize, Vec<ColumnStatistics>>,
    after: Map<usize, Vec<ColumnStatistics>>,
    indices: Set<usize>,
    statistics: Seq<ColumnStatistics>,
) -> bool {
    &&& after.dom() == before.dom().union(indices)
    &&& forall|i: usize| #[trigger] after.contains_key(i) && indices.contains(i) ==> after[i]@ == statistics
    &&& forall|i: usize| #[trigger] after.contains_key(i) && !indices.contains(i) ==> after[i] == before[i]
}

/// Distinct points of a list of columns.
pub open spec fn distinct_points(statistics: Seq<ColumnStatistics>) -> Seq<u64> {
    statistics.map_values(|item: ColumnStatistics| item.distinct.point)
}

fn points_of(statistics: &Vec<ColumnStatistics>) -> (r: Vec<u64>)
    ensures
        r@ == distinct_points(statistics@),
{
    let mut r: Vec<u64> = Vec::new();
    let mut i: usize = 0;
    while i < statistics.len()
        invariant
            i <= statistics@.len(),
            r@ == distinct_points(statistics@).take(i as int),
        decreases statistics@.len() - i,
    {
        r.push(statistics[i].distinct.point);
        assert(r@ =~= distinct_points(statistics@).take(i + 1));
        i = i + 1;
    }
    assert(r@ =~= distinct_points(statistics@));
    r
}

fn copy_all(statistics: &Vec<ColumnStatistics>) -> (r: Vec<ColumnStatistics>)
    ensures
        r@ == statistics@,
{
    let mut r: Vec<ColumnStatistics> = Vec::new();
    let mut i: usize = 0;
    while i < statistics.len()
        invariant
            i <= statistics@.len(),
            r@ == statistics@.take(i as int),
        decreases statistics@.len() - i,
    {
        r.push(statistics[i].copy());
        assert(r@ =~= statistics@.take(i + 1));
        i = i + 1;
    }
    assert(r@ =~= statistics@);
    r
}

/// Whether only the outer key scans of a dependent plan have been published.
pub open spec fn publishes_delims(
    before: StatisticsGathering,
    after: StatisticsGathering,
    outer: CardinalityEstimate,
    keys: Seq<Expression>,
    dependent: LogicalPlan,
    known: Map<ColumnBinding, ColumnStatistics>,
) -> bool {
    let statistics = all_computed(keys, known);
    &&& after.proofs == before.proofs
    &&& after.rows.ctes == before.rows.ctes
    &&& after.columns.ctes == before.columns.ctes
    &&& after.rows.delims@ == published_for(
        before.rows.delims@,
        delim_indices(dependent),
        delim_rows(distinct_points(statistics), outer),
    )
    &&& columns_published_for(
        before.columns.delims@,
        after.columns.delims@,
        delim_indices(dependent),
        statistics,
    )
}

/// Whether only the columns and rows of a definition have been published.
pub open spec fn publishes_definition(
    before: StatisticsGathering,
    after: StatisticsGathering,
    cte_index: usize,
    rows: Option<CardinalityEstimate>,
    layout: Seq<OutputColumn>,
    correspondence: Option<Seq<CteOutputColumn>>,
    known: Map<ColumnBinding, ColumnStatistics>,
) -> bool {
    &&& after.rows.delims == before.rows.delims
    &&& after.columns.delims == before.columns.delims
    &&& after.rows.ctes@ == match rows {
        Some(rows) => before.rows.ctes@.insert(cte_index, rows),
        None => before.rows.ctes@,
    }
    &&& after.columns.ctes@.contains_key(cte_index)
    &&& after.columns.ctes@[cte_index].columns@ == definition_columns(layout, correspondence, known)
    &&& after.columns.ctes@.remove(cte_index) == before.columns.ctes@.remove(cte_index)
}

/// What has been published once the first input of an operator is complete.
pub open spec fn published_first_child(
    before: StatisticsGathering,
    after: StatisticsGathering,
    parent: LogicalOperator,
    first: LogicalPlan,
    layout: Seq<OutputColumn>,
    dependent: Option<LogicalPlan>,
    known: Map<ColumnBinding, ColumnStatistics>,
) -> bool {
    match parent {
        LogicalOperator::MaterializedCTE(cte) => {
            &&& publishes_definition(
                before,
                after,
                cte.cte_index,
                first.stats.estimated_cardinality,
                layout,
                Some(cte.output_columns@),
                known,
            )
            &&& after.proofs.ctes@.contains_key(cte.cte_index)
            &&& after.proofs.ctes@.remove(cte.cte_index) == before.proofs.ctes@.remove(
                cte.cte_index,
            )
            &&& publishes(after.proofs.ctes@[cte.cte_index], cte.output_columns@, first.stats)
        },
        LogicalOperator::RecursiveCTE(cte) => {
            &&& publishes_definition(
                before,
                after,
                cte.cte_index,
                first.stats.estimated_cardinality,
                layout,
                None,
                known,
            )
            &&& after.proofs == before.proofs
        },
        LogicalOperator::Join(Join::Comparison(join)) => match (
            dependent,
            first.stats.estimated_cardinality,
        ) {
            (Some(right), Some(outer)) => if join.duplicate_eliminated_columns@.len() > 0 {
                publishes_delims(
                    before,
                    after,
                    outer,
                    join.duplicate_eliminated_columns@,
                    right,
                    known,
                )
            } else {
                after == before
            },
            _ => after == before,
        },
        _ => after == before,
    }
}

pub open spec fn optional_plan(plan: Option<&LogicalPlan>) -> Option<LogicalPlan> {
    match plan {
        Some(plan) => Some(*plan),
        None => None,
    }
}

/// Whether a node's rows are estimated anew: a join order's own estimate is
/// kept, except under a filter.
pub open spec fn estimates_anew(operator: LogicalOperator, provenance: CardinalityProvenance) -> bool {
    provenance != CardinalityProvenance::JoinGraph || operator is Filter
}

pub fn needs_estimate(operator: &LogicalOperator, provenance: CardinalityProvenance) -> (r: bool)
    ensures
        r == estimates_anew(*operator, provenance),
{
    match operator {
        LogicalOperator::Filter(_) => true,
        _ => match provenance {
            CardinalityProvenance::JoinGraph => false,
            _ => true,
        },
    }
}

/// What a settled operator puts out.
#[derive(Debug)]
pub struct LocalOutput {
    pub layout: LogicalOutputLayout,
    pub statistics: Vec<(ColumnBinding, OutputStatistics)>,
}

impl StatisticsGathering {
    pub fn new() -> (r: StatisticsGathering)
        ensures
            r.proofs.ctes@ == Map::<usize, PublishedProofs>::empty(),
            r.rows.ctes@ == Map::<usize, CardinalityEstimate>::empty(),
            r.rows.delims@ == Map::<usize, CardinalityEstimate>::empty(),
            r.columns.ctes@ == Map::<usize, DefinitionColumns>::empty(),
            r.columns.delims@ == Map::<usize, Vec<ColumnStatistics>>::empty(),
    {
        StatisticsGathering {
            proofs: RelationProofs::new(),
            rows: PublishedRows::new(),
            columns: PublishedColumns::new(),
        }
    }

    /// Publishes rows and columns of a shared definition.
    pub fn publish_cte_statistics<L: ColumnStatisticsLookup>(
        &mut self,
        cte_index: usize,
        rows: Option<CardinalityEstimate>,
        layout: &LogicalOutputLayout,
        correspondence: Option<&Vec<CteOutputColumn>>,
        columns: &L,
    )
        ensures
            publishes_definition(
                *old(self),
                *final(self),
                cte_index,
                rows,
                layout.columns@,
                correspondence_view(correspondence),
                columns.known(),
            ),
            final(self).proofs == old(self).proofs,
    {
        broadcast use vstd::std_specs::hash::group_hash_axioms;

        if let Some(rows) = rows {
            self.rows.ctes.insert(cte_index, rows);
        }
        let found = cte_columns(layout, correspondence, columns);
        self.columns.ctes.insert(cte_index, found);
        assert(self.columns.ctes@.remove(cte_index) =~= old(self).columns.ctes@.remove(cte_index));
    }

    /// Publishes the distinct outer keys of a dependent join to the scans that
    /// read them.
    pub fn publish_delim_statistics<L: ColumnStatisticsLookup>(
        &mut self,
        outer: CardinalityEstimate,
        duplicate_eliminated_columns: &Vec<Expression>,
        dependent: &LogicalPlan,
        columns: &L,
    )
        ensures
            publishes_delims(
                *old(self),
                *final(self),
                outer,
                duplicate_eliminated_columns@,
                *dependent,
                columns.known(),
            ),
    {
        broadcast use vstd::std_specs::hash::group_hash_axioms;

        let statistics = all_expression_statistics(duplicate_eliminated_columns, columns);
        let estimate = estimate_delim_rows(&points_of(&statistics), outer);
        let mut indices: Vec<usize> = Vec::new();
        collect_delim_indices(dependent, &mut indices);
        let ghost wanted = delim_indices(*dependent);
        assert(Seq::<usize>::empty().to_set() =~= Set::<usize>::empty());
        assert(indices@.to_set() =~= wanted);
        let mut i: usize = 0;
        assert(indices@.take(0).to_set() =~= Set::<usize>::empty());
        assert(self.rows.delims@ =~= published_for(
            self.rows.delims@,
            indices@.take(0).to_set(),
            estimate,
        ));
        assert(self.columns.delims@.dom() =~= self.columns.delims@.dom().union(
            indices@.take(0).to_set(),
        ));
        while i < indices.len()
            invariant
                i <= indices@.len(),
                self.proofs == old(self).proofs,
                self.rows.ctes == old(self).rows.ctes,
                self.columns.ctes == old(self).columns.ctes,
                self.rows.delims@ == published_for(
                    old(self).rows.delims@,
                    indices@.take(i as int).to_set(),
                    estimate,
                ),
                columns_published_for(
                    old(self).columns.delims@,
                    self.columns.delims@,
                    indices@.take(i as int).to_set(),
                    statistics@,
                ),
            decreases indices@.len() - i,
        {
            let index: usize = indices[i];
            let ghost before = self.columns.delims@;
            self.rows.delims.insert(index, estimate);
            self.columns.delims.insert(index, copy_all(&statistics));
            proof {
                let seen = indices@.take(i as int);
                assert(indices@.take(i + 1) =~= seen.push(index));
                lemma_push_to_set(seen, index);
                assert(self.rows.delims@ =~= published_for(
                    old(self).rows.delims@,
                    indices@.take(i + 1).to_set(),
                    estimate,
                ));
                assert(self.columns.delims@.dom() =~= old(self).columns.delims@.dom().union(
                    indices@.take(i + 1).to_set(),
                ));
                assert forall|k: usize| #[trigger] self.columns.delims@.contains_key(k)
                    && !indices@.take(i + 1).to_set().contains(k) implies self.columns.delims@[k]
                    == old(self).columns.delims@[k] by {
                    assert(before.contains_key(k));
                }
                assert forall|k: usize| #[trigger] self.columns.delims@.contains_key(k)
                    && indices@.take(i + 1).to_set().contains(k) implies self.columns.delims@[k]@
                    == statistics@ by {
                    if k != index {
                        assert(before.contains_key(k));
                    }
                }
            }
            i = i + 1;
        }
        assert(indices@.take(i as int) =~= indices@);
    }

    /// Publishes what the first input of an operator gives to readers within
    /// the other inputs, before those are gathered.
    pub fn publish_completed_first_child<L: ColumnStatisticsLookup>(
        &mut self,
        parent: &LogicalOperator,
        first: &LogicalPlan,
        layout: &LogicalOutputLayout,
        dependent: Option<&LogicalPlan>,
        columns: &L,
    )
        ensures
            published_first_child(
                *old(self),
                *final(self),
                *parent,
                *first,
                layout.columns@,
                optional_plan(dependent),
                columns.known(),
            ),
    {
        match parent {
            LogicalOperator::MaterializedCTE(cte) => {
                self.proofs.publish(cte.cte_index, &cte.output_columns, &first.stats);
                self.publish_cte_statistics(
                    cte.cte_index,
                    first.stats.estimated_cardinality,
                    layout,
                    Some(&cte.output_columns),
                    columns,
                );
            },
            LogicalOperator::RecursiveCTE(cte) => {
                self.publish_cte_statistics(
                    cte.cte_index,
                    first.stats.estimated_cardinality,
                    layout,
                    None,
                    columns,
                );
            },
            LogicalOperator::Join(Join::Comparison(join)) => {
                if join.duplicate_eliminated_columns.len() > 0 {
                    if let (Some(right), Some(outer)) = (
                        dependent,
                        first.stats.estimated_cardinality,
                    ) {
                        self.publish_delim_statistics(
                            outer,
                            &join.duplicate_eliminated_columns,
                            right,
                            columns,
                        );
                    }
                }
            },
            _ => {},
        }
    }

    /// Settles one operator over completed inputs: its rows as estimated, its
    /// keys and domains, and the statistics of its columns. Column statistics
    /// are derived from what was known before; the caller publishes them.
    pub fn gather_local<'a, L: ColumnStatisticsLookup>(
        &self,
        operator: &LogicalOperator,
        children: &Vec<LogicalPlan>,
        stats: &mut NodeStats,
        estimated: Option<CardinalityEstimate>,
        layouts: &[LogicalOutputLayout],
        base_keys: Vec<UniqueKey>,
        guaranteed_rows: Option<u64>,
        inputs: &OutputInputs<'a, L>,
    ) -> (r: LocalOutput)
        requires
            has_input_layouts(*operator, layouts@.len()),
        ensures
            r.layout.columns@ == operator_columns(*operator, layouts_of(layouts@)),
            final(stats).estimated_cardinality == if estimates_anew(
                *operator,
                old(stats).cardinality_provenance,
            ) {
                estimated
            } else {
                old(stats).estimated_cardinality
            },
            final(stats).cardinality_provenance == if estimates_anew(
                *operator,
                old(stats).cardinality_provenance,
            ) {
                CardinalityProvenance::Statistics
            } else {
                old(stats).cardinality_provenance
            },
            final(stats).finite_domains@ == retained(
                operator_domains(
                    *operator,
                    r.layout.columns@,
                    layouts_of(layouts@),
                    child_inputs(children@),
                    self.proofs.ctes@,
                    old(stats).finite_domains@,
                ),
                r.layout.columns@,
            ),
            key_views(final(stats).unique_keys@) == reduced_keys(
                operator_keys(
                    *operator,
                    r.layout.columns@,
                    layouts_of(layouts@),
                    child_inputs(children@),
                    self.proofs.ctes@,
                    key_views(base_keys@),
                ),
                final(stats).finite_domains@,
            ),
            r.statistics@ == published_statistics(
                r.layout.columns@,
                operator_statistics(
                    *operator,
                    input_rows(children@, 0),
                    final(stats).estimated_cardinality,
                    r.layout.columns@,
                    layouts_of(layouts@),
                    guaranteed_rows,
                    inputs.columns.known(),
                    inputs.stored@,
                    inputs.subplan@,
                    self.columns.ctes@,
                    self.columns.delims@,
                ),
                keeps_distributions(*operator),
            ),
    {
        if needs_estimate(operator, stats.cardinality_provenance) {
            stats.estimated_cardinality = estimated;
            stats.cardinality_provenance = CardinalityProvenance::Statistics;
        }
        let layout = operator.output_layout_from_children(layouts);
        let facts = inputs_of(children);
        self.proofs.derive(operator, &layout, layouts, &facts, base_keys, stats);
        let child_rows: Option<CardinalityEstimate> = if children.len() > 0 {
            children[0].stats.estimated_cardinality
        } else {
            None
        };
        let statistics = self.columns.update_output_column_stats(
            operator,
            child_rows,
            stats.estimated_cardinality,
            &layout,
            layouts,
            guaranteed_rows,
            inputs,
        );
        LocalOutput { layout, statistics }
    }
}

/// The column statistics after the first `k` published columns.
pub open spec fn columns_after(
    before: Map<ColumnBinding, ColumnStatistics>,
    published: Seq<(ColumnBinding, ColumnStatistics)>,
    k: nat,
) -> Map<ColumnBinding, ColumnStatistics>
    decreases k,
{
    if k == 0 {
        before
    } else {
        columns_after(before, published, (k - 1) as nat).insert(
            published[k - 1].0,
            published[k - 1].1,
        )
    }
}

/// Publishes the statistics of an operator's output columns.
pub fn publish_columns(
    columns: &mut BindingMap<ColumnStatistics>,
    published: &Vec<(ColumnBinding, ColumnStatistics)>,
)
    ensures
        final(columns)@ == columns_after(old(columns)@, published@, published@.len()),
{
    let ghost before = columns@;
    let mut i: usize = 0;
    while i < published.len()
        invariant
            i <= published@.len(),
            columns@ == columns_after(before, published@, i as nat),
        decreases published@.len() - i,
    {
        columns.insert(published[i].0, published[i].1.copy());
        i = i + 1;
    }
}

/// A reader of a definition's columns by position finds the statistics of the column
/// at that position.
pub proof fn positions_find_their_columns(statistics: Seq<ColumnStatistics>, k: nat, i: usize)
    requires
        k <= statistics.len() <= usize::MAX,
    ensures
        columns_by_position(statistics, k).contains_key(i) <==> i < k,
        i < k ==> columns_by_position(statistics, k)[i] == statistics[i as int],
    decreases k,
{
    if k > 0 {
        positions_find_their_columns(statistics, (k - 1) as nat, i);
    }
}

/// A reader of a definition's columns by identity finds the statistics of the column
/// that the definition puts out under that identity.
pub proof fn identities_find_their_columns(
    statistics: Seq<ColumnStatistics>,
    bindings: Seq<ColumnBinding>,
    columns: Seq<CteOutputColumn>,
    k: nat,
    j: int,
    i: int,
)
    requires
        0 <= j < k <= columns.len(),
        statistics.len() == bindings.len(),
        0 <= i < bindings.len(),
        bindings[i] == columns[j].binding,
        forall|m: int| 0 <= m < i ==> #[trigger] bindings[m] != bindings[i],
        forall|m: int|
            0 <= m < k && m != j ==> (#[trigger] columns[m]).definition != columns[j].definition,
    ensures
        columns_by_definition(statistics, bindings, columns, k).contains_key(
            columns[j].definition.0,
        ),
        columns_by_definition(statistics, bindings, columns, k)[columns[j].definition.0]
            == statistics[i],
    decreases k,
{
    if j < k - 1 {
        identities_find_their_columns(statistics, bindings, columns, (k - 1) as nat, j, i);
        assert(columns[k - 1].definition != columns[j].definition);
    } else {
        let binding = columns[j].binding;
        assert(bindings.contains(binding));
        bindings.index_of_first_ensures(binding);
        let found = bindings.index_of_first(binding)->0;
        if found < i {
            assert(bindings[found] != bindings[i]);
        }
    }
}

/// The outer key scans of a plan are those that occur somewhere in it.
pub proof fn outer_key_scans_occur_in_the_plan(plan: LogicalPlan, index: usize)
    ensures
        delim_indices(plan).contains(index) <==> exists|part: LogicalPlan| #[trigger]
            is_part(part, plan) && scans_outer_keys(part, index),
    decreases plan, 0nat,
{
    lemma_delims_among(plan.children@, plan.children@.len(), index);
    assert(is_part(plan, plan));
    if delim_indices_below(plan.children@, plan.children@.len()).contains(index) {
        let i = choose|i: int|
            #![trigger plan.children@[i]]
            0 <= i < plan.children@.len() && delim_indices(plan.children@[i]).contains(index);
        outer_key_scans_occur_in_the_plan(plan.children@[i], index);
        let part = choose|part: LogicalPlan| #[trigger]
            is_part(part, plan.children@[i]) && scans_outer_keys(part, index);
        assert(is_part(part, plan));
    }
    if exists|part: LogicalPlan| #[trigger] is_part(part, plan) && scans_outer_keys(part, index) {
        let part = choose|part: LogicalPlan| #[trigger]
            is_part(part, plan) && scans_outer_keys(part, index);
        if part != plan {
            let i = choose|i: int|
                #![trigger plan.children@[i]]
                0 <= i < plan.children@.len() && is_part(part, plan.children@[i]);
            outer_key_scans_occur_in_the_plan(plan.children@[i], index);
        }
    }
}

/// Whether a plan scans the outer keys of a relation.
pub open spec fn scans_outer_keys(plan: LogicalPlan, index: usize) -> bool {
    plan.operator matches LogicalOperator::DelimGet(delim) && delim.table_index == index
}

proof fn lemma_delims_among(plans: Seq<LogicalPlan>, n: nat, index: usize)
    requires
        n <= plans.len(),
    ensures
        delim_indices_below(plans, n).contains(index) <==> exists|i: int|
            #![trigger plans[i]]
            0 <= i < n && delim_indices(plans[i]).contains(index),
    decreases n,
{
    if n > 0 {
        lemma_delims_among(plans, (n - 1) as nat, index);
        assert(plans[n - 1] == plans[n - 1]);
    }
}

} // verus!
