//! Column statistics that operators publish for their readers.

use std::collections::HashMap;
use vstd::prelude::*;

use crate::estimate::output::{
    aggregate_expression_statistics, aggregated_statistics, all_computed, all_expression_statistics,
    collect_output_stats_for_layout, estimate_grouped_sum_distribution, filter_output_stats,
    filter_statistics, grouped_sum, layout_statistics, merge_setop_output_stats,
    project_column_statistics, set_statistics, unknown_statistics, unknown_stats_for_types,
    OutputStatistics,
};
use crate::expression::{Expression, ExpressionView};
use crate::layout::{bindings_of, layouts_of, projected, LogicalOutputLayout};
use crate::operator::{Aggregate, CteColumnId, Get, LogicalOperator, OutputColumn};
use crate::plan::CardinalityEstimate;
use crate::statistics::{ColumnStatistics, ColumnStatisticsLookup};
use crate::types::{ColumnBinding, LogicalType};

verus! {

/// Statistics of the columns of one shared definition, by their identity.
pub struct DefinitionColumns {
    pub columns: HashMap<usize, ColumnStatistics>,
}

/// Column statistics of producers, for the operators that read them.
pub struct PublishedColumns {
    /// By shared definition.
    pub ctes: HashMap<usize, DefinitionColumns>,
    /// By relation of the outer key scan.
    pub delims: HashMap<usize, Vec<ColumnStatistics>>,
}

/// What an operator reads besides its inputs.
pub struct OutputInputs<'a, L> {
    pub columns: &'a L,
    /// Statistics that storage keeps, by stored column.
    pub stored: &'a HashMap<usize, ColumnStatistics>,
    /// Statistics of the columns of a plan that is kept elsewhere.
    pub subplan: &'a Vec<ColumnStatistics>,
}

/// Statistics of column `definition` of a published definition.
pub open spec fn definition_statistics(
    columns: Map<usize, ColumnStatistics>,
    definition: usize,
    logical_type: LogicalType,
) -> ColumnStatistics {
    if columns.contains_key(definition) {
        columns[definition]
    } else {
        ColumnStatistics::unknown(logical_type)
    }
}

fn statistics_of_definition(
    columns: &HashMap<usize, ColumnStatistics>,
    definition: usize,
    logical_type: LogicalType,
) -> (r: ColumnStatistics)
    ensures
        r == definition_statistics(columns@, definition, logical_type),
{
    broadcast use vstd::std_specs::hash::group_hash_axioms;

    match columns.get(&definition) {
        Some(statistics) => statistics.copy(),
        None => ColumnStatistics::create_unknown(logical_type),
    }
}

/// Whether an operator passes value distributions on. What drops or repeats
/// rows under a condition does not, as the distribution is an unconditional
/// one.
pub open spec fn keeps_distributions(operator: LogicalOperator) -> bool {
    match operator {
        LogicalOperator::Get(_) => true,
        LogicalOperator::SubplanRef(_) => true,
        LogicalOperator::Projection(_) => true,
        LogicalOperator::RowFetch => true,
        LogicalOperator::ExternalProject(_) => true,
        LogicalOperator::Order => true,
        LogicalOperator::Aggregate(_) => true,
        LogicalOperator::SetOperation(_) => true,
        LogicalOperator::MaterializedCTE(_) => true,
        LogicalOperator::CTERef(_) => true,
        LogicalOperator::DelimGet(_) => true,
        _ => false,
    }
}

pub fn preserves_distribution(operator: &LogicalOperator) -> (r: bool)
    ensures
        r == keeps_distributions(*operator),
{
    match operator {
        LogicalOperator::Get(_) => true,
        LogicalOperator::SubplanRef(_) => true,
        LogicalOperator::Projection(_) => true,
        LogicalOperator::RowFetch => true,
        LogicalOperator::ExternalProject(_) => true,
        LogicalOperator::Order => true,
        LogicalOperator::Aggregate(_) => true,
        LogicalOperator::SetOperation(_) => true,
        LogicalOperator::MaterializedCTE(_) => true,
        LogicalOperator::CTERef(_) => true,
        LogicalOperator::DelimGet(_) => true,
        _ => false,
    }
}

/// Statistics of a stored column behind output `i` of a scan.
pub open spec fn stored_statistics(
    get: Get,
    stored: Map<usize, ColumnStatistics>,
    i: int,
) -> ColumnStatistics {
    match if i < get.stored_columns@.len() {
        get.stored_columns@[i]
    } else {
        None
    } {
        Some(column) => definition_statistics(stored, column, get.returned_types@[i]),
        None => ColumnStatistics::unknown(get.returned_types@[i]),
    }
}

/// Statistics of a scan: those that storage keeps.
pub open spec fn scan_statistics(get: Get, stored: Map<usize, ColumnStatistics>) -> Seq<
    ColumnStatistics,
> {
    if get.has_table && get.has_storage {
        Seq::new(get.returned_types@.len(), |i: int| stored_statistics(get, stored, i))
    } else {
        unknown_statistics(get.returned_types@)
    }
}

pub fn get_output_stats(get: &Get, stored: &HashMap<usize, ColumnStatistics>) -> (r: Vec<
    ColumnStatistics,
>)
    ensures
        r@ == scan_statistics(*get, stored@),
{
    if !get.has_table || !get.has_storage {
        return unknown_stats_for_types(&get.returned_types);
    }
    let mut r: Vec<ColumnStatistics> = Vec::new();
    let mut i: usize = 0;
    while i < get.returned_types.len()
        invariant
            get.has_table,
            get.has_storage,
            i <= get.returned_types@.len(),
            r@ == scan_statistics(*get, stored@).take(i as int),
        decreases get.returned_types@.len() - i,
    {
        let column: Option<usize> = if i < get.stored_columns.len() {
            get.stored_columns[i]
        } else {
            None
        };
        r.push(
            match column {
                Some(column) => statistics_of_definition(stored, column, get.returned_types[i]),
                None => ColumnStatistics::create_unknown(get.returned_types[i]),
            },
        );
        assert(r@ =~= scan_statistics(*get, stored@).take(i + 1));
        i = i + 1;
    }
    assert(r@ =~= scan_statistics(*get, stored@));
    r
}

/// Statistics as they are.
pub open spec fn known_statistics(statistics: Seq<ColumnStatistics>) -> Seq<OutputStatistics> {
    statistics.map_values(|item: ColumnStatistics| OutputStatistics::Known(item))
}

fn as_known(statistics: &Vec<ColumnStatistics>) -> (r: Vec<OutputStatistics>)
    ensures
        r@ == known_statistics(statistics@),
{
    let mut r: Vec<OutputStatistics> = Vec::new();
    let mut i: usize = 0;
    while i < statistics.len()
        invariant
            i <= statistics@.len(),
            r@ == known_statistics(statistics@).take(i as int),
        decreases statistics@.len() - i,
    {
        r.push(OutputStatistics::Known(statistics[i].copy()));
        assert(r@ =~= known_statistics(statistics@).take(i + 1));
        i = i + 1;
    }
    assert(r@ =~= known_statistics(statistics@));
    r
}

/// Whether the results of an aggregation can have the distribution of a sum:
/// every group is formed once and none is dropped.
pub open spec fn forms_plain_groups(aggregate: Aggregate) -> bool {
    aggregate.post_reduction is None && aggregate.grouping_sets@.len() == 0
        && aggregate.groups@.len() > 0
}

/// The sum that an aggregate forms, where rows of input and groups are known.
pub open spec fn aggregate_sum(
    aggregate: Aggregate,
    e: ExpressionView,
    input_rows: Option<CardinalityEstimate>,
    group_rows: Option<CardinalityEstimate>,
    layouts: Seq<Seq<OutputColumn>>,
    known: Map<ColumnBinding, ColumnStatistics>,
) -> Option<crate::estimate::output::GroupedSum> {
    match (input_rows, group_rows) {
        (Some(input), Some(groups)) => if forms_plain_groups(aggregate) && layouts.len() > 0 {
            grouped_sum(e, input.expected, groups.expected, bindings_of(layouts[0]), known)
        } else {
            None
        },
        _ => None,
    }
}

/// Statistics of one aggregate's result.
pub open spec fn aggregate_output(
    aggregate: Aggregate,
    e: ExpressionView,
    input_rows: Option<CardinalityEstimate>,
    group_rows: Option<CardinalityEstimate>,
    layouts: Seq<Seq<OutputColumn>>,
    guaranteed_rows: Option<u64>,
    known: Map<ColumnBinding, ColumnStatistics>,
) -> OutputStatistics {
    let own = aggregated_statistics(e, known, guaranteed_rows);
    match aggregate_sum(aggregate, e, input_rows, group_rows, layouts, known) {
        Some(sum) => OutputStatistics::Summed(own, sum),
        None => OutputStatistics::Known(own),
    }
}

/// Statistics of an aggregation: its groups, its aggregates and its grouping
/// markers.
pub open spec fn aggregate_statistics(
    aggregate: Aggregate,
    input_rows: Option<CardinalityEstimate>,
    group_rows: Option<CardinalityEstimate>,
    layouts: Seq<Seq<OutputColumn>>,
    guaranteed_rows: Option<u64>,
    known: Map<ColumnBinding, ColumnStatistics>,
) -> Seq<OutputStatistics> {
    known_statistics(all_computed(aggregate.groups@, known)) + aggregate.aggregates@.map_values(
        |e: Expression|
            aggregate_output(
                aggregate,
                e@,
                input_rows,
                group_rows,
                layouts,
                guaranteed_rows,
                known,
            ),
    ) + Seq::new(
        aggregate.grouping_functions as nat,
        |i: int| OutputStatistics::Known(ColumnStatistics::unknown(LogicalType::BigInt)),
    )
}

fn aggregate_output_stats<L: ColumnStatisticsLookup>(
    aggregate: &Aggregate,
    input_rows: Option<CardinalityEstimate>,
    group_rows: Option<CardinalityEstimate>,
    layouts: &[LogicalOutputLayout],
    guaranteed_rows: Option<u64>,
    columns: &L,
) -> (r: Vec<OutputStatistics>)
    ensures
        r@ == aggregate_statistics(
            *aggregate,
            input_rows,
            group_rows,
            layouts_of(layouts@),
            guaranteed_rows,
            columns.known(),
        ),
{
    let ghost known = columns.known();
    let ghost inputs = layouts_of(layouts@);
    let groups = all_expression_statistics(&aggregate.groups, columns);
    let mut r = as_known(&groups);
    let ghost first = r@;
    let ghost results = aggregate.aggregates@.map_values(
        |e: Expression|
            aggregate_output(
                *aggregate,
                e@,
                input_rows,
                group_rows,
                inputs,
                guaranteed_rows,
                known,
            ),
    );
    let plain: bool = aggregate.post_reduction.is_none() && aggregate.grouping_sets.len() == 0
        && aggregate.groups.len() > 0;
    let mut i: usize = 0;
    assert(r@ =~= first + results.take(0));
    while i < aggregate.aggregates.len()
        invariant
            i <= aggregate.aggregates@.len(),
            known == columns.known(),
            inputs == layouts_of(layouts@),
            plain == forms_plain_groups(*aggregate),
            results == aggregate.aggregates@.map_values(
                |e: Expression|
                    aggregate_output(
                        *aggregate,
                        e@,
                        input_rows,
                        group_rows,
                        inputs,
                        guaranteed_rows,
                        known,
                    ),
            ),
            r@ == first + results.take(i as int),
        decreases aggregate.aggregates@.len() - i,
    {
        let e = &aggregate.aggregates[i];
        let own = aggregate_expression_statistics(e, columns, guaranteed_rows);
        let sum = match (input_rows, group_rows) {
            (Some(input), Some(groups)) => if plain && layouts.len() > 0 {
                let positions = layouts[0].bindings();
                assert(inputs[0] == layouts@[0].columns@);
                estimate_grouped_sum_distribution(
                    e,
                    input.expected,
                    groups.expected,
                    &positions,
                    columns,
                )
            } else {
                None
            },
            _ => None,
        };
        r.push(
            match sum {
                Some(sum) => OutputStatistics::Summed(own, sum),
                None => OutputStatistics::Known(own),
            },
        );
        proof {
            assert(results.take(i + 1) =~= results.take(i as int).push(results[i as int]));
            assert(r@ =~= first + results.take(i + 1));
        }
        i = i + 1;
    }
    assert(results.take(i as int) =~= results);
    let ghost second = r@;
    let ghost markers = Seq::new(
        aggregate.grouping_functions as nat,
        |i: int| OutputStatistics::Known(ColumnStatistics::unknown(LogicalType::BigInt)),
    );
    let mut g: usize = 0;
    assert(r@ =~= second + markers.take(0));
    while g < aggregate.grouping_functions
        invariant
            g <= aggregate.grouping_functions,
            markers == Seq::new(
                aggregate.grouping_functions as nat,
                |i: int| OutputStatistics::Known(ColumnStatistics::unknown(LogicalType::BigInt)),
            ),
            r@ == second + markers.take(g as int),
        decreases aggregate.grouping_functions - g,
    {
        r.push(OutputStatistics::Known(ColumnStatistics::create_unknown(LogicalType::BigInt)));
        proof {
            assert(markers.take(g + 1) =~= markers.take(g as int).push(markers[g as int]));
            assert(r@ =~= second + markers.take(g + 1));
        }
        g = g + 1;
    }
    assert(markers.take(g as int) =~= markers);
    r
}

/// Statistics of a reference to a published definition.
pub open spec fn reference_statistics(
    ctes: Map<usize, DefinitionColumns>,
    cte_index: usize,
    definitions: Seq<CteColumnId>,
    types: Seq<LogicalType>,
) -> Seq<ColumnStatistics> {
    if ctes.contains_key(cte_index) {
        Seq::new(
            if definitions.len() <= types.len() {
                definitions.len()
            } else {
                types.len()
            },
            |i: int|
                definition_statistics(ctes[cte_index].columns@, definitions[i].0, types[i]),
        )
    } else {
        unknown_statistics(types)
    }
}

/// Statistics of a fixpoint: its anchor's, by position.
pub open spec fn fixpoint_statistics(
    ctes: Map<usize, DefinitionColumns>,
    cte_index: usize,
    types: Seq<LogicalType>,
) -> Seq<ColumnStatistics> {
    if ctes.contains_key(cte_index) {
        Seq::new(
            types.len(),
            |i: int| definition_statistics(ctes[cte_index].columns@, i as usize, types[i]),
        )
    } else {
        unknown_statistics(types)
    }
}

/// Statistics that an operator's output columns have.
pub open spec fn operator_statistics(
    operator: LogicalOperator,
    input_rows: Option<CardinalityEstimate>,
    own_rows: Option<CardinalityEstimate>,
    output: Seq<OutputColumn>,
    layouts: Seq<Seq<OutputColumn>>,
    guaranteed_rows: Option<u64>,
    known: Map<ColumnBinding, ColumnStatistics>,
    stored: Map<usize, ColumnStatistics>,
    subplan: Seq<ColumnStatistics>,
    ctes: Map<usize, DefinitionColumns>,
    delims: Map<usize, Vec<ColumnStatistics>>,
) -> Seq<OutputStatistics> {
    match operator {
        LogicalOperator::Get(get) => known_statistics(scan_statistics(get, stored)),
        LogicalOperator::SubplanRef(_) => known_statistics(subplan),
        LogicalOperator::Projection(projection) => known_statistics(
            all_computed(projection.expressions@, known),
        ),
        LogicalOperator::Filter(filter) => known_statistics(
            filter_statistics(filter, layouts[0], known),
        ),
        LogicalOperator::ExternalProject(project) => known_statistics(
            layout_statistics(layouts[0], known) + all_computed(project.expressions@, known),
        ),
        LogicalOperator::ExternalTable(table) => known_statistics(
            unknown_statistics(table.returned_types@),
        ),
        LogicalOperator::Aggregate(aggregate) => aggregate_statistics(
            aggregate,
            input_rows,
            own_rows,
            layouts,
            guaranteed_rows,
            known,
        ),
        LogicalOperator::SetOperation(set) => set_statistics(
            layouts[0],
            layouts[1],
            set.types@,
            known,
        ),
        LogicalOperator::RecursiveCTE(cte) => known_statistics(
            fixpoint_statistics(ctes, cte.cte_index, cte.column_types@),
        ),
        LogicalOperator::CTERef(reference) => known_statistics(
            reference_statistics(
                ctes,
                reference.cte_index,
                reference.definition_columns@,
                reference.column_types@,
            ),
        ),
        LogicalOperator::DelimGet(delim) => known_statistics(
            if delims.contains_key(delim.table_index) {
                delims[delim.table_index]@
            } else {
                unknown_statistics(delim.chunk_types@)
            },
        ),
        LogicalOperator::SearchScan(search) => known_statistics(
            all_computed(search.projections@, known),
        ),
        LogicalOperator::FullTextFilterScan(scan) => known_statistics(
            projected(scan_statistics(scan.get, stored), scan.projection_map),
        ),
        _ => known_statistics(layout_statistics(output, known)),
    }
}

/// Statistics without a value distribution, unless the operator keeps them.
pub open spec fn conditioned(statistics: OutputStatistics, keeps: bool) -> OutputStatistics {
    match statistics {
        OutputStatistics::Known(known) => if keeps {
            statistics
        } else {
            OutputStatistics::Known(ColumnStatistics { distribution: None, ..known })
        },
        _ => statistics,
    }
}

/// Each output column with its statistics.
pub open spec fn published_statistics(
    output: Seq<OutputColumn>,
    statistics: Seq<OutputStatistics>,
    keeps: bool,
) -> Seq<(ColumnBinding, OutputStatistics)> {
    Seq::new(
        if output.len() <= statistics.len() {
            output.len()
        } else {
            statistics.len()
        },
        |i: int| (output[i].binding, conditioned(statistics[i], keeps)),
    )
}

/// Whether the layouts of the inputs that an operator reads are given.
pub open spec fn has_input_layouts(operator: LogicalOperator, layouts: nat) -> bool {
    match operator {
        LogicalOperator::Filter(_) => layouts >= 1,
        LogicalOperator::ExternalProject(_) => layouts >= 1,
        LogicalOperator::SetOperation(_) => layouts >= 2,
        _ => true,
    }
}

impl PublishedColumns {
    pub fn new() -> (r: PublishedColumns)
        ensures
            r.ctes@ == Map::<usize, DefinitionColumns>::empty(),
            r.delims@ == Map::<usize, Vec<ColumnStatistics>>::empty(),
    {
        PublishedColumns { ctes: HashMap::new(), delims: HashMap::new() }
    }

    fn reference_columns(
        &self,
        cte_index: usize,
        definitions: &Vec<CteColumnId>,
        types: &Vec<LogicalType>,
    ) -> (r: Vec<ColumnStatistics>)
        ensures
            r@ == reference_statistics(self.ctes@, cte_index, definitions@, types@),
    {
        broadcast use vstd::std_specs::hash::group_hash_axioms;

        let Some(published) = self.ctes.get(&cte_index) else {
            return unknown_stats_for_types(types);
        };
        let ghost wanted = reference_statistics(self.ctes@, cte_index, definitions@, types@);
        let mut r: Vec<ColumnStatistics> = Vec::new();
        let mut i: usize = 0;
        while i < definitions.len() && i < types.len()
            invariant
                i <= definitions@.len(),
                i <= types@.len(),
                self.ctes@.contains_key(cte_index),
                *published == self.ctes@[cte_index],
                wanted == reference_statistics(self.ctes@, cte_index, definitions@, types@),
                r@ == wanted.take(i as int),
            decreases types@.len() - i,
        {
            r.push(
                statistics_of_definition(&published.columns, definitions[i].0, types[i]),
            );
            assert(r@ =~= wanted.take(i + 1));
            i = i + 1;
        }
        assert(r@ =~= wanted);
        r
    }

    fn fixpoint_columns(&self, cte_index: usize, types: &Vec<LogicalType>) -> (r: Vec<
        ColumnStatistics,
    >)
        ensures
            r@ == fixpoint_statistics(self.ctes@, cte_index, types@),
    {
        broadcast use vstd::std_specs::hash::group_hash_axioms;

        let Some(published) = self.ctes.get(&cte_index) else {
            return unknown_stats_for_types(types);
        };
        let ghost wanted = fixpoint_statistics(self.ctes@, cte_index, types@);
        let mut r: Vec<ColumnStatistics> = Vec::new();
        let mut i: usize = 0;
        while i < types.len()
            invariant
                i <= types@.len(),
                self.ctes@.contains_key(cte_index),
                *published == self.ctes@[cte_index],
                wanted == fixpoint_statistics(self.ctes@, cte_index, types@),
                r@ == wanted.take(i as int),
            decreases types@.len() - i,
        {
            r.push(statistics_of_definition(&published.columns, i, types[i]));
            assert(r@ =~= wanted.take(i + 1));
            i = i + 1;
        }
        assert(r@ =~= wanted);
        r
    }

    /// Derives the statistics of an operator's output columns from those of
    /// its inputs. Bounds and distinct counts survive every operator; a value
    /// distribution survives only where no condition applies.
    pub fn update_output_column_stats<'a, L: ColumnStatisticsLookup>(
        &self,
        operator: &LogicalOperator,
        input_rows: Option<CardinalityEstimate>,
        own_rows: Option<CardinalityEstimate>,
        output: &LogicalOutputLayout,
        layouts: &[LogicalOutputLayout],
        guaranteed_rows: Option<u64>,
        inputs: &OutputInputs<'a, L>,
    ) -> (r: Vec<(ColumnBinding, OutputStatistics)>)
        requires
            has_input_layouts(*operator, layouts@.len()),
        ensures
            r@ == published_statistics(
                output.columns@,
                operator_statistics(
                    *operator,
                    input_rows,
                    own_rows,
                    output.columns@,
                    layouts_of(layouts@),
                    guaranteed_rows,
                    inputs.columns.known(),
                    inputs.stored@,
                    inputs.subplan@,
                    self.ctes@,
                    self.delims@,
                ),
                keeps_distributions(*operator),
            ),
    {
        broadcast use vstd::std_specs::hash::group_hash_axioms;

        let statistics: Vec<OutputStatistics> = match operator {
            LogicalOperator::Get(get) => as_known(&get_output_stats(get, inputs.stored)),
            LogicalOperator::SubplanRef(_) => as_known(inputs.subplan),
            LogicalOperator::Projection(projection) => as_known(
                &all_expression_statistics(&projection.expressions, inputs.columns),
            ),
            LogicalOperator::Filter(filter) => {
                assert(layouts_of(layouts@)[0] == layouts@[0].columns@);
                as_known(&filter_output_stats(filter, &layouts[0], inputs.columns))
            },
            LogicalOperator::ExternalProject(project) => {
                assert(layouts_of(layouts@)[0] == layouts@[0].columns@);
                let mut all = collect_output_stats_for_layout(&layouts[0], inputs.columns);
                let mut computed = all_expression_statistics(
                    &project.expressions,
                    inputs.columns,
                );
                all.append(&mut computed);
                as_known(&all)
            },
            LogicalOperator::ExternalTable(table) => as_known(
                &unknown_stats_for_types(&table.returned_types),
            ),
            LogicalOperator::Aggregate(aggregate) => aggregate_output_stats(
                aggregate,
                input_rows,
                own_rows,
                layouts,
                guaranteed_rows,
                inputs.columns,
            ),
            LogicalOperator::SetOperation(set) => {
                assert(layouts_of(layouts@)[0] == layouts@[0].columns@);
                assert(layouts_of(layouts@)[1] == layouts@[1].columns@);
                merge_setop_output_stats(&layouts[0], &layouts[1], &set.types, inputs.columns)
            },
            LogicalOperator::RecursiveCTE(cte) => as_known(
                &self.fixpoint_columns(cte.cte_index, &cte.column_types),
            ),
            LogicalOperator::CTERef(reference) => as_known(
                &self.reference_columns(
                    reference.cte_index,
                    &reference.definition_columns,
                    &reference.column_types,
                ),
            ),
            LogicalOperator::DelimGet(delim) => match self.delims.get(&delim.table_index) {
                Some(published) => as_known(published),
                None => as_known(&unknown_stats_for_types(&delim.chunk_types)),
            },
            LogicalOperator::SearchScan(search) => as_known(
                &all_expression_statistics(&search.projections, inputs.columns),
            ),
            LogicalOperator::FullTextFilterScan(scan) => as_known(
                &project_column_statistics(
                    get_output_stats(&scan.get, inputs.stored),
                    &scan.projection_map,
                ),
            ),
            _ => as_known(&collect_output_stats_for_layout(output, inputs.columns)),
        };
        assert(statistics@ =~= operator_statistics(
            *operator,
            input_rows,
            own_rows,
            output.columns@,
            layouts_of(layouts@),
            guaranteed_rows,
            inputs.columns.known(),
            inputs.stored@,
            inputs.subplan@,
            self.ctes@,
            self.delims@,
        ));
        condition_statistics(output, statistics, preserves_distribution(operator))
    }
}

fn condition_statistics(
    output: &LogicalOutputLayout,
    statistics: Vec<OutputStatistics>,
    keeps: bool,
) -> (r: Vec<(ColumnBinding, OutputStatistics)>)
    ensures
        r@ == published_statistics(output.columns@, statistics@, keeps),
{
    let ghost wanted = published_statistics(output.columns@, statistics@, keeps);
    let ghost all = statistics@;
    let mut r: Vec<(ColumnBinding, OutputStatistics)> = Vec::new();
    let mut i: usize = 0;
    let mut rest = statistics;
    while i < output.columns.len() && rest.len() > 0
        invariant
            i <= output.columns@.len(),
            i + rest@.len() == all.len(),
            rest@ == all.skip(i as int),
            wanted == published_statistics(output.columns@, all, keeps),
            r@ == wanted.take(i as int),
        decreases rest@.len(),
    {
        let item = rest.remove(0);
        let kept = match item {
            OutputStatistics::Known(known) => if keeps {
                OutputStatistics::Known(known)
            } else {
                OutputStatistics::Known(known.with_distribution(None))
            },
            other => other,
        };
        r.push((output.columns[i].binding, kept));
        proof {
            assert(rest@ =~= all.skip(i + 1));
            assert(r@ =~= wanted.take(i + 1));
        }
        i = i + 1;
    }
    assert(r@ =~= wanted);
    r
}

/// An operator that drops or repeats rows puts out no value distribution.
pub proof fn dropped_rows_drop_distributions(
    operator: LogicalOperator,
    output: Seq<OutputColumn>,
    statistics: Seq<OutputStatistics>,
    i: int,
)
    requires
        operator is Filter || operator is Join || operator is Limit || operator is TopN
            || operator is Distinct || operator is DependentJoin,
        0 <= i < published_statistics(output, statistics, keeps_distributions(operator)).len(),
    ensures
        published_statistics(output, statistics, keeps_distributions(
            operator,
        ))[i].1 matches OutputStatistics::Known(known) ==> known.distribution is None,
{
}

/// Publishing statistics changes nothing of them but the distribution, and gives each
/// column its own.
pub proof fn published_columns_keep_their_statistics(
    output: Seq<OutputColumn>,
    statistics: Seq<OutputStatistics>,
    keeps: bool,
    i: int,
)
    requires
        output.len() == statistics.len(),
        0 <= i < output.len(),
    ensures
        published_statistics(output, statistics, keeps).len() == output.len(),
        published_statistics(output, statistics, keeps)[i].0 == output[i].binding,
        keeps ==> published_statistics(output, statistics, keeps)[i].1 == statistics[i],
        statistics[i] matches OutputStatistics::Known(known) ==> (published_statistics(
            output,
            statistics,
            keeps,
        )[i].1 matches OutputStatistics::Known(after) && after.distinct == known.distinct
            && after.minimum == known.minimum && after.maximum == known.maximum
            && after.guaranteed_distinct_upper == known.guaranteed_distinct_upper),
{
}

/// A projection passes on the statistics of the columns that it projects.
pub proof fn projected_columns_keep_their_statistics(
    expressions: Seq<Expression>,
    known: Map<ColumnBinding, ColumnStatistics>,
    i: int,
    binding: ColumnBinding,
)
    requires
        0 <= i < expressions.len(),
        expressions[i]@ matches ExpressionView::ColumnRef(c) && c.binding == binding,
        known.contains_key(binding),
    ensures
        all_computed(expressions, known)[i] == known[binding],
{
}

/// Only groups that are formed once and all kept can have the distribution of a sum.
pub proof fn reduced_groups_have_no_sum(
    aggregate: Aggregate,
    e: ExpressionView,
    input_rows: Option<CardinalityEstimate>,
    group_rows: Option<CardinalityEstimate>,
    layouts: Seq<Seq<OutputColumn>>,
    known: Map<ColumnBinding, ColumnStatistics>,
)
    requires
        aggregate.post_reduction is Some || aggregate.grouping_sets@.len() > 0
            || aggregate.groups@.len() == 0 || input_rows is None || group_rows is None,
    ensures
        aggregate_sum(aggregate, e, input_rows, group_rows, layouts, known) is None,
{
}

} // verus!
