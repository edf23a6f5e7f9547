use std::collections::HashMap;
use std::sync::Arc;

use paro_optimizer::binding_map::BindingMap;
use paro_optimizer::domain::{Domain, DomainValue, FiniteDomains};
use paro_optimizer::estimate::cardinality::{adjust_join_estimate, apply_limit_estimate};
use paro_optimizer::estimate::correlation::{
    correlate_join_condition_selectivities, SelectivityBits,
};
use paro_optimizer::estimate::finite_filter::{
    complete_finite_filter, estimate_filter_cardinality, finite_filter_fraction, FilterDecision,
    FiniteFilterSelectivity,
};
use paro_optimizer::estimate::gathering::StatisticsGathering;
use paro_optimizer::estimate::graph::{
    expand_directions, graph_expand_rows, graph_name_for_plan, graph_scan_rows, hop_multiplier,
    label_vertices, quantifier_bounds,
};
use paro_optimizer::estimate::groups::estimate_group_distinct;
use paro_optimizer::estimate::join::{
    complete_comparison_join, equality_condition_values, equality_relation_pair,
    estimate_comparison_join, estimate_same_domain_semi_join, JoinDecision,
};
use paro_optimizer::estimate::output::{
    aggregate_expression_statistics, estimate_grouped_sum_distribution, filter_output_stats,
    GroupedSum,
};
use paro_optimizer::estimate::refresh::{refresh, KeyDerivation};
use paro_optimizer::estimate::relation::{
    default_table_cardinality, extract_constant_usize, scan_predicates, RowDecision,
};
use paro_optimizer::estimate::walk::{inputs_are_complete, PlanFacts};
use paro_optimizer::expression::{
    AggregateExpression, AggregateFunction, ColumnRefExpression, ComparisonExpression,
    ConjunctionExpression, ConstantExpression, Expression, ReferenceExpression,
};
use paro_optimizer::layout::LogicalOutputLayout;
use paro_optimizer::operator::{
    Aggregate, CTERef, ComparisonJoin, CteColumnId, CteOutputColumn, DelimGet, ExpandDirection,
    ExpressionGet, ExternalTable, Filter, FullTextFilterScan, Get, GraphExpand, GraphScan, Join,
    JoinCondition, Limit, LogicalOperator, MaterializedCTE, PathQuantifier, Projection,
    ProjectionMap, SearchScan, SetOperation, SubplanRef,
};
use paro_optimizer::plan::{
    CardinalityEstimate, CardinalityProvenance, LogicalPlan, UniqueKey, UniqueKeyColumn,
    UniqueKeyNullSemantics, UniqueKeyProvenance,
};
use paro_optimizer::statistics::{
    ColumnStatistics, DistinctEvidence, DistinctProvenance, NumericDistribution,
};
use paro_optimizer::types::{
    CTEMaterialize, ColumnBinding, ComparisonType, ConjunctionType, JoinBuildSideConstraint,
    JoinComparisonType, JoinType, LogicalType, SetOpType,
};
use paro_optimizer::value::Value;

type Columns = BindingMap<ColumnStatistics>;

fn column_ref(table_index: usize, column_index: usize) -> Expression {
    Expression::ColumnRef(Arc::new(ColumnRefExpression {
        binding: ColumnBinding::new(table_index, column_index),
        depth: 0,
        return_type: LogicalType::BigInt,
    }))
}

fn constant(value: i64) -> Expression {
    Expression::Constant(Arc::new(ConstantExpression {
        value: Value::BigInt(value),
        return_type: LogicalType::BigInt,
    }))
}

fn equals(table: usize, column: usize, value: i64) -> Expression {
    Expression::Comparison(Arc::new(ComparisonExpression {
        comparison_type: ComparisonType::Equal,
        left: column_ref(table, column),
        right: constant(value),
    }))
}

fn equality(
    left_table: usize,
    left_column: usize,
    right_table: usize,
    right_column: usize,
) -> JoinCondition {
    JoinCondition {
        left: column_ref(left_table, left_column),
        right: column_ref(right_table, right_column),
        comparison: JoinComparisonType::Equal,
    }
}

fn comparison_join(
    join_type: JoinType,
    conditions: Vec<JoinCondition>,
    duplicate_eliminated_columns: Vec<Expression>,
) -> ComparisonJoin {
    ComparisonJoin {
        join_type,
        conditions,
        left_projection_map: ProjectionMap::All,
        right_projection_map: ProjectionMap::All,
        duplicate_eliminated_columns,
        mark_index: 0,
        build_side_constraint: JoinBuildSideConstraint::Free,
    }
}

fn values_of(table_index: usize, values: Vec<i64>) -> LogicalPlan {
    LogicalPlan::synthetic(
        LogicalOperator::ExpressionGet(ExpressionGet {
            table_index,
            rows: values
                .into_iter()
                .map(|value| vec![constant(value)])
                .collect(),
            types: vec![LogicalType::BigInt],
        }),
        vec![],
    )
}

fn values_relation(table_index: usize, rows: usize) -> LogicalPlan {
    values_of(table_index, vec![1; rows])
}

fn filter(expressions: Vec<Expression>) -> Filter {
    Filter {
        expressions,
        projection_map: ProjectionMap::All,
    }
}

fn aggregate(
    groups: Vec<Expression>,
    grouping_sets: Vec<Vec<usize>>,
    aggregates: Vec<Expression>,
) -> LogicalOperator {
    LogicalOperator::Aggregate(Aggregate {
        group_index: 2,
        aggregate_index: 3,
        groupings_index: 4,
        groups,
        grouping_sets,
        aggregates,
        grouping_functions: 0,
        post_reduction: None,
    })
}

fn cte_ref(cte_index: usize, table_index: usize) -> LogicalPlan {
    LogicalPlan::synthetic(
        LogicalOperator::CTERef(CTERef {
            cte_index,
            table_index,
            definition_columns: vec![CteColumnId(0)],
            column_types: vec![LogicalType::BigInt],
        }),
        vec![],
    )
}

fn observed(point: u64) -> ColumnStatistics {
    ColumnStatistics {
        distinct: DistinctEvidence {
            point,
            provenance: DistinctProvenance::Observed,
            ..DistinctEvidence::default()
        },
        ..ColumnStatistics::create_unknown(LogicalType::BigInt)
    }
}

fn of_constant(value: i64) -> ColumnStatistics {
    ColumnStatistics {
        minimum: Some(Value::BigInt(value)),
        maximum: Some(Value::BigInt(value)),
        ..ColumnStatistics::create_unknown(LogicalType::BigInt)
    }
}

/// Selectivity of all conditions of a join: known domains, or a tenth.
fn join_selectivity(
    join: &ComparisonJoin,
    left: &[ColumnBinding],
    right: &[ColumnBinding],
    left_rows: u64,
    right_rows: u64,
    columns: &Columns,
) -> f64 {
    let conditions = join
        .conditions
        .iter()
        .map(|condition| {
            let selectivity =
                match equality_condition_values(condition, left, right, left_rows, right_rows, columns)
                {
                    Some(values) => 1.0 / values as f64,
                    None => 0.1,
                };
            (
                equality_relation_pair(condition, left, right),
                SelectivityBits(selectivity.to_bits()),
            )
        })
        .collect();
    product(&conditions)
}

fn product(conditions: &Vec<(Option<(usize, usize)>, SelectivityBits)>) -> f64 {
    let correlated = correlate_join_condition_selectivities(conditions);
    let mut result = 1.0;
    for bits in &correlated.independent {
        result *= f64::from_bits(bits.0);
    }
    for (_, bits) in &correlated.strongest {
        result *= f64::from_bits(bits.0);
    }
    result.clamp(0.0, 1.0)
}

fn scaled(estimate: CardinalityEstimate, selectivity: f64) -> CardinalityEstimate {
    let one = |value: u64, selectivity: f64| ((value as f64) * selectivity).round() as u64;
    let expected = one(estimate.expected, selectivity);
    CardinalityEstimate {
        min: one(estimate.min, selectivity * 0.5).min(expected),
        expected,
        max: one(estimate.max, (selectivity * 1.5).clamp(0.0, 1.0)).max(expected),
    }
}

/// Statistics of the vertices that a graph counts.
struct GraphCounts {
    vertices: u64,
    steps: u64,
}

/// Answers with fixed selectivities, and knows of no key.
struct Facts {
    graph: Option<GraphCounts>,
    /// Distinct values of a stored column.
    stored: Option<(usize, u64)>,
}

struct Gatherer {
    gathering: StatisticsGathering,
    columns: Columns,
    facts: Facts,
}

fn gatherer() -> Gatherer {
    Gatherer {
        gathering: StatisticsGathering::new(),
        columns: BindingMap::new(),
        facts: Facts {
            graph: None,
            stored: None,
        },
    }
}

impl Gatherer {
    fn gather(&mut self, plan: LogicalPlan) -> LogicalPlan {
        assert!(inputs_are_complete(&plan));
        self.gathering
            .gather(plan, &mut self.columns, &mut self.facts)
    }
}

impl KeyDerivation for Facts {
    fn base_unique_keys(
        &mut self,
        _operator: &LogicalOperator,
        _layouts: &[LogicalOutputLayout],
        _children: &Vec<LogicalPlan>,
    ) -> Vec<UniqueKey> {
        vec![]
    }

    fn normalize_unique_keys(&mut self, keys: Vec<UniqueKey>) -> Vec<UniqueKey> {
        keys
    }
}

impl PlanFacts for Facts {
    fn default_table_cardinality(&mut self) -> Option<Value> {
        None
    }

    fn vertex_count(&mut self, _scan: &GraphScan) -> Option<u64> {
        self.graph.as_ref().map(|graph| graph.vertices)
    }

    fn complete_rows(
        &mut self,
        decision: RowDecision,
        operator: &LogicalOperator,
        children: &Vec<LogicalPlan>,
        layouts: &[LogicalOutputLayout],
        columns: &Columns,
    ) -> Option<CardinalityEstimate> {
        match decision {
            RowDecision::Filtered(FilterDecision::Scaled { child, finite }) => {
                assert!(finite.residuals.is_empty());
                let rows = (child.expected as f64 * fraction(&finite)).round() as u64;
                Some(complete_finite_filter(child, rows))
            }
            RowDecision::Filtered(FilterDecision::BySelectivity { child }) => match operator {
                LogicalOperator::Filter(filter) if filter.expressions.is_empty() => {
                    Some(CardinalityEstimate::exact(child.expected))
                }
                _ => Some(scaled(child, 0.1)),
            },
            RowDecision::Joined { left, right } => {
                let LogicalOperator::Join(Join::Comparison(join)) = operator else {
                    panic!("a comparison join");
                };
                let left_bindings = layouts[0].bindings();
                let right_bindings = layouts[1].bindings();
                let left_keys = &children[0].stats.unique_keys;
                let right_keys = &children[1].stats.unique_keys;
                assert!(matches!(
                    estimate_comparison_join(
                        join,
                        left,
                        right,
                        &left_bindings,
                        &right_bindings,
                        left_keys,
                        right_keys,
                        columns,
                    ),
                    JoinDecision::BySelectivity
                ));
                let selectivity = join_selectivity(
                    join,
                    &left_bindings,
                    &right_bindings,
                    left.expected,
                    right.expected,
                    columns,
                );
                let pairs = CardinalityEstimate {
                    min: left.min * right.min,
                    expected: left.expected * right.expected,
                    max: left.max * right.max,
                };
                Some(complete_comparison_join(
                    scaled(pairs, selectivity),
                    join,
                    left,
                    right,
                    &left_bindings,
                    &right_bindings,
                    left_keys,
                    right_keys,
                ))
            }
            RowDecision::Expanded { rows, hops } => {
                let graph = self.graph.as_ref().unwrap();
                let source = graph.vertices.max(1) as f64;
                let factor = (graph.steps as f64 / source).max(1.0 / source);
                Some(graph_expand_rows(
                    (rows as f64 * factor.max(0.01) * hops as f64).ceil() as u64,
                ))
            }
            RowDecision::Scanned { rows, .. } => Some(CardinalityEstimate::exact(rows)),
            other => panic!("unexpected decision {other:?}"),
        }
    }

    fn maximum_cardinality(
        &mut self,
        _operator: &LogicalOperator,
        _inputs: &Vec<Option<u64>>,
    ) -> Option<u64> {
        None
    }

    fn stored_statistics(&mut self, _get: &Get) -> HashMap<usize, ColumnStatistics> {
        self.stored
            .into_iter()
            .map(|(column, values)| {
                let mut statistics = ColumnStatistics::create_unknown(LogicalType::BigInt);
                statistics.distinct.point = values;
                (column, statistics)
            })
            .collect()
    }

    fn subplan_statistics(&mut self, _reference: &SubplanRef) -> Vec<ColumnStatistics> {
        vec![]
    }

    fn merge(&mut self, left: ColumnStatistics, _right: ColumnStatistics) -> ColumnStatistics {
        left
    }

    fn sum_distribution(&mut self, _sum: GroupedSum) -> Option<NumericDistribution> {
        None
    }
}

fn fraction(selected: &FiniteFilterSelectivity) -> f64 {
    selected
        .shares
        .iter()
        .fold(1.0, |fraction, share| {
            fraction
                * if share.known == 0 {
                    0.0
                } else {
                    share.kept as f64 / share.known as f64
                }
        })
}

fn integers(values: &[i128]) -> Domain {
    let mut domain = Domain::new();
    for value in values {
        domain.insert(DomainValue::Integer(*value));
    }
    domain
}

#[test]
fn finite_filter_domain_is_counted_once_and_is_not_a_frequency_proof() {
    let mut domains = FiniteDomains::new();
    domains.insert(ColumnBinding::new(1, 0), integers(&[1, 2]));
    let selected =
        finite_filter_fraction(&vec![equals(1, 0, 1), equals(1, 0, 1)], &domains).unwrap();
    assert_eq!(fraction(&selected), 0.5);
    assert!(!selected.impossible);
    assert!(selected.residuals.is_empty());
    assert!(
        finite_filter_fraction(&vec![equals(1, 0, 3)], &domains)
            .unwrap()
            .impossible
    );

    // Numerical underflow of an independence prior is not a proof that
    // a conjunction has no matching row.
    let mut domains = FiniteDomains::new();
    for table in 0..1200 {
        domains.insert(ColumnBinding::new(table, 0), integers(&[1, 2]));
    }
    let predicates = (0..1200).map(|table| equals(table, 0, 1)).collect();
    let selected = finite_filter_fraction(&predicates, &domains).unwrap();
    assert_eq!(fraction(&selected), 0.0);
    assert!(!selected.impossible);
}

#[test]
fn an_impossible_filter_passes_nothing() {
    let mut domains = FiniteDomains::new();
    domains.insert(ColumnBinding::new(1, 0), integers(&[1, 2]));
    let child = CardinalityEstimate::exact(10);
    assert!(matches!(
        estimate_filter_cardinality(&vec![equals(1, 0, 3)], child, &domains),
        FilterDecision::Rows(rows) if rows == CardinalityEstimate::exact(0)
    ));
    let FilterDecision::Scaled { finite, .. } =
        estimate_filter_cardinality(&vec![equals(1, 0, 2)], child, &domains)
    else {
        panic!("half of the values pass");
    };
    assert_eq!(finite.shares[0].kept, 1);
    assert_eq!(finite.shares[0].known, 2);
    assert_eq!(
        complete_finite_filter(child, 5),
        CardinalityEstimate {
            min: 0,
            expected: 5,
            max: 10,
        }
    );
    assert!(matches!(
        estimate_filter_cardinality(&vec![equals(2, 0, 2)], child, &domains),
        FilterDecision::BySelectivity { .. }
    ));
}

#[test]
fn statistics_gathering_sets_expression_get_and_limit_cardinality() {
    let projection = LogicalPlan::synthetic(
        LogicalOperator::Projection(Projection {
            table_index: 2,
            expressions: vec![column_ref(1, 0)],
        }),
        vec![values_relation(1, 10)],
    );
    let plan = LogicalPlan::synthetic(
        LogicalOperator::Limit(Limit {
            limit: Some(constant(3)),
            offset: None,
        }),
        vec![projection],
    );

    let mut gatherer = gatherer();
    let gathered = gatherer.gather(plan);

    assert_eq!(
        gathered.stats.estimated_cardinality,
        Some(CardinalityEstimate::exact(3))
    );
    assert_eq!(
        gathered.children[0].stats.estimated_cardinality,
        Some(CardinalityEstimate::exact(10))
    );
    assert!(gatherer.columns.get(&ColumnBinding::new(2, 0)).is_some());
}

#[test]
fn graph_steps_multiply_their_input() {
    let scan = LogicalPlan::synthetic(
        LogicalOperator::GraphScan(GraphScan {
            table_index: 3,
            graph_name: "g".to_string(),
            label: "v".to_string(),
            filter: None,
            types: vec![LogicalType::BigInt],
        }),
        vec![],
    );
    let filtered = LogicalPlan::synthetic(LogicalOperator::Filter(filter(vec![])), vec![scan]);
    let plan = LogicalPlan::synthetic(
        LogicalOperator::GraphExpand(GraphExpand {
            table_index: 4,
            source_label: "v".to_string(),
            edge_label: "e".to_string(),
            target_label: "v".to_string(),
            direction: ExpandDirection::Forward,
            quantifier: None,
            types: vec![LogicalType::BigInt],
        }),
        vec![filtered],
    );
    assert_eq!(graph_name_for_plan(&plan), Some(&"g".to_string()));
    let mut gatherer = gatherer();
    gatherer.facts.graph = Some(GraphCounts {
        vertices: 10,
        steps: 10,
    });
    let gathered = gatherer.gather(plan);
    assert_eq!(
        gathered.stats.estimated_cardinality,
        Some(CardinalityEstimate {
            min: 5,
            expected: 10,
            max: 20,
        })
    );
    assert_eq!(
        gathered.children[0].children[0].stats.estimated_cardinality,
        Some(CardinalityEstimate::exact(10))
    );
}

#[test]
fn path_quantifiers_are_bounded() {
    assert_eq!(quantifier_bounds(None), (1, 1));
    assert_eq!(quantifier_bounds(Some(PathQuantifier::Plus)), (1, 4));
    assert_eq!(quantifier_bounds(Some(PathQuantifier::Star)), (0, 4));
    assert_eq!(
        quantifier_bounds(Some(PathQuantifier::Bounded {
            lower: 2,
            upper: Some(9),
        })),
        (2, 4)
    );
    assert_eq!(hop_multiplier(1, 1), 1);
    assert_eq!(hop_multiplier(0, 0), 1);
    assert_eq!(hop_multiplier(2, 3), 3);
    assert_eq!(hop_multiplier(6, 4), 6);
    assert_eq!(expand_directions(ExpandDirection::Both), (true, true));
    assert_eq!(expand_directions(ExpandDirection::Backward), (false, true));
    assert_eq!(label_vertices(None, true), 100);
    assert_eq!(label_vertices(None, false), 1000);
    assert_eq!(label_vertices(Some(7), true), 7);
    assert_eq!(
        graph_scan_rows(100, 30, true),
        CardinalityEstimate {
            min: 15,
            expected: 30,
            max: 100,
        }
    );
}

#[test]
fn materialized_cte_publishes_producer_cardinality_before_its_consumer() {
    let plan = LogicalPlan::synthetic(
        LogicalOperator::MaterializedCTE(MaterializedCTE {
            cte_index: 9,
            cte_name: "shared".to_string(),
            column_types: vec![LogicalType::BigInt],
            materialized: CTEMaterialize::Materialized,
            output_columns: vec![CteOutputColumn {
                definition: CteColumnId(0),
                binding: ColumnBinding::new(1, 0),
            }],
            ref_count: 1,
        }),
        vec![values_relation(1, 37), cte_ref(9, 2)],
    );

    let gathered = gatherer().gather(plan);

    assert_eq!(
        gathered.children[1].stats.estimated_cardinality,
        Some(CardinalityEstimate::exact(37))
    );
    assert_eq!(
        gathered.stats.estimated_cardinality,
        Some(CardinalityEstimate::exact(37))
    );
}

#[test]
fn detached_cte_reference_retains_its_owner_cardinality_summary() {
    let mut reference = cte_ref(9, 2);
    reference.stats.estimated_cardinality = Some(CardinalityEstimate::exact(37));

    let gathered = gatherer().gather(reference);

    assert_eq!(
        gathered.stats.estimated_cardinality,
        Some(CardinalityEstimate::exact(37))
    );
}

#[test]
fn delim_join_publishes_outer_key_domain_before_its_consumer() {
    let outer = values_of(1, (0..35).map(|value| value % 7).collect());
    let delim = LogicalPlan::synthetic(
        LogicalOperator::DelimGet(DelimGet {
            table_index: 9,
            chunk_types: vec![LogicalType::BigInt],
        }),
        vec![],
    );
    let plan = LogicalPlan::synthetic(
        LogicalOperator::Join(Join::Comparison(comparison_join(
            JoinType::Inner,
            vec![equality(1, 0, 9, 0)],
            vec![column_ref(1, 0)],
        ))),
        vec![outer, delim],
    );

    let mut gatherer = gatherer();
    let gathered = gatherer.gather(plan);
    let estimate = gathered.children[1]
        .stats
        .estimated_cardinality
        .expect("DelimGet should inherit the outer key domain");
    assert!(estimate.expected > 1 && estimate.expected < 35);
    assert_eq!(estimate.max, estimate.expected * 2);
    assert!(gatherer.columns.get(&ColumnBinding::new(9, 0)).is_some());
}

#[test]
fn dummy_scan_is_the_exact_one_row_relation() {
    let gathered =
        gatherer().gather(LogicalPlan::synthetic(LogicalOperator::DummyScan, vec![]));

    assert_eq!(
        gathered.stats.estimated_cardinality,
        Some(CardinalityEstimate::exact(1))
    );
}

#[test]
fn residual_filter_reestimates_from_current_input_not_stale_join_graph() {
    let mut plan = LogicalPlan::synthetic(
        LogicalOperator::Filter(filter(vec![])),
        vec![values_relation(1, 10)],
    );
    plan.stats.estimated_cardinality = Some(CardinalityEstimate::exact(1000));
    plan.stats.cardinality_provenance = CardinalityProvenance::JoinGraph;
    let gathered = gatherer().gather(plan);
    assert_eq!(gathered.stats.estimated_cardinality.unwrap().expected, 10);
    assert_eq!(
        gathered.stats.cardinality_provenance,
        CardinalityProvenance::Statistics
    );
}

#[test]
fn statistics_gathering_preserves_join_graph_cardinality_provenance() {
    let mut plan = LogicalPlan::synthetic(
        LogicalOperator::Join(Join::Comparison(comparison_join(
            JoinType::Inner,
            vec![equality(1, 0, 2, 0)],
            vec![],
        ))),
        vec![values_relation(1, 10), values_relation(2, 20)],
    );
    plan.stats.estimated_cardinality = Some(CardinalityEstimate::exact(73));
    plan.stats.cardinality_provenance = CardinalityProvenance::JoinGraph;

    let gathered = gatherer().gather(plan);

    assert_eq!(
        gathered.stats.estimated_cardinality,
        Some(CardinalityEstimate::exact(73))
    );
    assert_eq!(
        gathered.stats.cardinality_provenance,
        CardinalityProvenance::JoinGraph
    );
}

#[test]
fn grouped_aggregate_over_proven_empty_input_is_empty() {
    let plan = LogicalPlan::synthetic(
        aggregate(vec![column_ref(1, 0)], vec![], vec![]),
        vec![values_relation(1, 0)],
    );

    let gathered = gatherer().gather(plan);

    assert_eq!(
        gathered.stats.estimated_cardinality,
        Some(CardinalityEstimate::exact(0))
    );
}

#[test]
fn known_group_distinct_count_has_a_finite_uncertainty_envelope() {
    let mut columns = BindingMap::new();
    columns.insert(ColumnBinding::new(1, 0), observed(2));

    assert_eq!(
        estimate_group_distinct(&column_ref(1, 0), &columns, 4_096, 4_096),
        (2, Some(4))
    );
}

#[test]
fn singleton_range_is_exact_without_forging_an_hll_observation() {
    let mut columns = BindingMap::new();
    columns.insert(
        ColumnBinding::new(1, 0),
        of_constant(2001).with_guaranteed_distinct_upper(1),
    );

    assert_eq!(
        estimate_group_distinct(&column_ref(1, 0), &columns, 4_096, 4_096),
        (1, Some(1))
    );
}

#[test]
fn value_selecting_aggregate_preserves_its_input_domain_statistics() {
    let mut columns = BindingMap::new();
    columns.insert(
        ColumnBinding::new(1, 0),
        ColumnStatistics {
            distinct: observed(3).distinct,
            ..of_constant(7)
        },
    );
    let expression = Expression::Aggregate(Arc::new(AggregateExpression {
        function: AggregateFunction::PreservesInputDomain,
        children: vec![column_ref(1, 0)],
        distinct: false,
        filter: None,
        ordered: false,
        return_type: LogicalType::BigInt,
    }));

    let unconstrained = aggregate_expression_statistics(&expression, &columns, None);
    assert_eq!(unconstrained.distinct.point, 3);
    assert_eq!(unconstrained.guaranteed_distinct_upper, None);

    let output = aggregate_expression_statistics(&expression, &columns, Some(1));

    assert_eq!(output.distinct.point, 1);
    assert!(matches!(output.minimum, Some(Value::BigInt(7))));
    assert!(matches!(output.maximum, Some(Value::BigInt(7))));
}

#[test]
fn filter_output_replaces_storage_hll_with_exact_equality_domain() {
    let mut columns = BindingMap::new();
    let binding = ColumnBinding::new(1, 0);
    columns.insert(binding, observed(3));
    let child = values_relation(1, 4);
    let mut output = filter_output_stats(
        &filter(vec![equals(1, 0, 2001)]),
        &child.output_layout(),
        &columns,
    );
    assert_eq!(output.len(), 1);
    assert_eq!(output[0].distinct.point, 1);
    assert!(matches!(output[0].minimum, Some(Value::BigInt(2001))));
    columns.insert(binding, output.remove(0));
    assert_eq!(
        estimate_group_distinct(&column_ref(1, 0), &columns, 4, 4),
        (1, Some(1))
    );
}

#[test]
fn filter_output_stats_follow_non_identity_projection_order() {
    let mut columns = BindingMap::new();
    columns.insert(ColumnBinding::new(1, 0), of_constant(7));
    columns.insert(ColumnBinding::new(1, 2), of_constant(99));
    let child = LogicalPlan::synthetic(
        LogicalOperator::ExpressionGet(ExpressionGet {
            table_index: 1,
            rows: vec![vec![constant(7), constant(8), constant(99)]],
            types: vec![LogicalType::BigInt; 3],
        }),
        vec![],
    );
    let filter = Filter {
        expressions: vec![equals(1, 0, 2001)],
        projection_map: ProjectionMap::Columns(vec![2, 0]),
    };

    let output = filter_output_stats(&filter, &child.output_layout(), &columns);

    assert_eq!(output.len(), 2);
    assert!(matches!(output[0].minimum, Some(Value::BigInt(99))));
    assert!(matches!(output[1].minimum, Some(Value::BigInt(2001))));
    assert_eq!(output[1].guaranteed_distinct_upper, Some(1));
}

#[test]
fn finite_equality_disjunction_publishes_a_plan_invariant_domain() {
    let mut columns = BindingMap::new();
    let binding = ColumnBinding::new(1, 0);
    columns.insert(binding, observed(3));
    let either = Expression::Conjunction(Arc::new(ConjunctionExpression {
        conjunction_type: ConjunctionType::Or,
        children: vec![equals(1, 0, 2001), equals(1, 0, 2002), equals(1, 0, 2001)],
    }));
    let child = values_relation(1, 4);

    let mut output = filter_output_stats(&filter(vec![either]), &child.output_layout(), &columns);
    assert_eq!(output.len(), 1);
    assert_eq!(output[0].distinct.point, 2);
    assert_eq!(output[0].guaranteed_distinct_upper, Some(2));
    assert!(matches!(output[0].minimum, Some(Value::BigInt(2001))));
    assert!(matches!(output[0].maximum, Some(Value::BigInt(2002))));
    columns.insert(binding, output.remove(0));
    assert_eq!(
        estimate_group_distinct(&column_ref(1, 0), &columns, 4, 4),
        (2, Some(2))
    );
}

#[test]
fn same_domain_semi_join_does_not_count_duplicate_demand_rows_twice() {
    let mut columns = BindingMap::new();
    let shared = || ColumnStatistics {
        distinct: observed(3).distinct,
        ..of_constant(7)
    };
    columns.insert(ColumnBinding::new(1, 0), shared());
    columns.insert(ColumnBinding::new(2, 0), shared());

    let join = comparison_join(JoinType::Semi, vec![equality(1, 0, 2, 0)], vec![]);
    let estimate = estimate_same_domain_semi_join(
        &join,
        CardinalityEstimate {
            min: 36_000,
            expected: 73_049,
            max: 90_000,
        },
        CardinalityEstimate {
            min: 362,
            expected: 724,
            max: 1_086,
        },
        &[ColumnBinding::new(1, 0)],
        &[ColumnBinding::new(2, 0)],
        &columns,
    )
    .expect("same-domain semi join estimate");

    assert_eq!(estimate.expected, 724);
    assert_eq!(estimate.max, 1_086);
}

#[test]
fn empty_grouping_set_emits_one_row_over_empty_input() {
    let plan = LogicalPlan::synthetic(
        aggregate(vec![column_ref(1, 0)], vec![vec![]], vec![]),
        vec![values_relation(1, 0)],
    );

    let gathered = gatherer().gather(plan);

    assert_eq!(
        gathered.stats.estimated_cardinality,
        Some(CardinalityEstimate::exact(1))
    );
}

#[test]
fn mark_and_single_joins_preserve_left_cardinality() {
    let left = CardinalityEstimate::exact(73);
    let right = CardinalityEstimate::exact(2);
    let inner = CardinalityEstimate::exact(1);

    assert_eq!(
        adjust_join_estimate(inner, left, right, JoinType::Mark),
        left
    );
    assert_eq!(
        adjust_join_estimate(inner, left, right, JoinType::Single),
        left
    );

    // This is the correlated-aggregate failure shape: the dependent side
    // currently estimates to zero, but MARK/SINGLE still emit one derived
    // value for every preserved row.
    let empty = CardinalityEstimate::exact(0);
    assert_eq!(
        adjust_join_estimate(empty, left, empty, JoinType::Mark),
        left
    );
    assert_eq!(
        adjust_join_estimate(empty, left, empty, JoinType::Single),
        left
    );
}

#[test]
fn composite_equalities_share_one_marginal_domain_per_relation_pair() {
    let conditions = [equality(0, 0, 1, 0), equality(0, 1, 1, 1)];
    let pair = equality_relation_pair(&conditions[0], &[], &[]);
    assert_eq!(pair, equality_relation_pair(&conditions[1], &[], &[]));
    let selectivity = product(&vec![
        (pair, SelectivityBits((1.0f64 / 200_000.0).to_bits())),
        (pair, SelectivityBits((1.0f64 / 10_000.0).to_bits())),
    ]);
    assert_eq!(selectivity, 1.0 / 200_000.0);
}

#[test]
fn equalities_between_different_relation_pairs_remain_independent() {
    let first_pair = equality_relation_pair(&equality(0, 0, 1, 0), &[], &[]);
    let second_pair = equality_relation_pair(&equality(2, 0, 3, 0), &[], &[]);
    assert_ne!(first_pair, second_pair);
    let selectivity = product(&vec![
        (first_pair, SelectivityBits((1.0f64 / 200_000.0).to_bits())),
        (first_pair, SelectivityBits((1.0f64 / 10_000.0).to_bits())),
        (second_pair, SelectivityBits((1.0f64 / 25.0).to_bits())),
    ]);
    assert_eq!(selectivity, 1.0 / 200_000.0 / 25.0);
}

#[test]
fn physical_references_recover_their_relation_pair_from_join_inputs() {
    let reference = |index| {
        Expression::Reference(Arc::new(ReferenceExpression {
            index,
            return_type: LogicalType::BigInt,
        }))
    };
    let condition = JoinCondition {
        left: reference(1),
        right: reference(0),
        comparison: JoinComparisonType::Equal,
    };
    assert_eq!(
        equality_relation_pair(
            &condition,
            &[ColumnBinding::new(4, 0), ColumnBinding::new(2, 1)],
            &[ColumnBinding::new(7, 3)]
        ),
        Some((2, 7))
    );
}

#[test]
fn a_unique_dimension_matches_each_fact_row_at_most_once() {
    let mut columns = BindingMap::new();
    columns.insert(ColumnBinding::new(1, 0), observed(100));
    columns.insert(ColumnBinding::new(2, 0), observed(100));
    let join = comparison_join(JoinType::Inner, vec![equality(1, 0, 2, 0)], vec![]);
    let key = vec![UniqueKey {
        columns: vec![UniqueKeyColumn {
            output_index: 0,
            binding: ColumnBinding::new(2, 0),
        }],
        provenance: UniqueKeyProvenance::Declared,
        null_semantics: UniqueKeyNullSemantics::NullsEqual,
    }];
    let fact = CardinalityEstimate::exact(1000);
    let dimension = CardinalityEstimate::exact(20);
    let JoinDecision::Rows(rows) = estimate_comparison_join(
        &join,
        fact,
        dimension,
        &[ColumnBinding::new(1, 0)],
        &[ColumnBinding::new(2, 0)],
        &Vec::new(),
        &key,
        &columns,
    ) else {
        panic!("the key decides");
    };
    assert_eq!(rows, CardinalityEstimate::exact(200));
}

#[test]
fn limits_apply_to_every_number() {
    let estimate = CardinalityEstimate {
        min: 5,
        expected: 10,
        max: 20,
    };
    assert_eq!(
        apply_limit_estimate(estimate, Some(8), 4),
        CardinalityEstimate {
            min: 1,
            expected: 6,
            max: 8,
        }
    );
    assert_eq!(extract_constant_usize(&constant(3)), Some(3));
    assert_eq!(extract_constant_usize(&constant(-3)), None);
    assert_eq!(extract_constant_usize(&column_ref(1, 0)), None);
    assert_eq!(default_table_cardinality(&None), 1000);
    assert_eq!(default_table_cardinality(&Some(Value::Integer(7))), 7);
    assert_eq!(default_table_cardinality(&Some(Value::BigInt(0))), 1000);
}

#[test]
fn leaves_estimate_their_rows() {
    let get = |storage_rows| {
        LogicalPlan::synthetic(
            LogicalOperator::Get(Get {
                table_index: 1,
                returned_types: vec![LogicalType::BigInt],
                has_table: true,
                has_storage: true,
                storage_rows,
                stored_columns: vec![Some(0)],
                runtime_filter_expressions: vec![],
            }),
            vec![],
        )
    };
    let rows = |plan| gatherer().gather(plan).stats.estimated_cardinality;
    assert_eq!(rows(get(Some(5))), Some(CardinalityEstimate::exact(5)));
    assert_eq!(rows(get(Some(0))), Some(CardinalityEstimate::exact(1)));
    assert_eq!(rows(get(None)), Some(CardinalityEstimate::exact(1000)));
    let routine = |rows_hint| {
        LogicalPlan::synthetic(
            LogicalOperator::ExternalTable(ExternalTable {
                table_index: 1,
                returned_types: vec![LogicalType::BigInt],
                rows_hint,
            }),
            vec![values_relation(2, 2)],
        )
    };
    assert_eq!(
        rows(routine(Some(3))),
        Some(CardinalityEstimate {
            min: 0,
            expected: 6,
            max: 96,
        })
    );
    assert_eq!(
        rows(routine(None)),
        Some(CardinalityEstimate {
            min: 0,
            expected: 200,
            max: 2_000_000_000,
        })
    );
}

fn layout(table: usize, tag: LogicalType) -> LogicalOutputLayout {
    LogicalOutputLayout {
        columns: [LogicalType::Integer, LogicalType::Integer, tag]
            .into_iter()
            .enumerate()
            .map(|(i, logical_type)| paro_optimizer::operator::OutputColumn {
                binding: ColumnBinding::new(table, i),
                logical_type,
            })
            .collect(),
    }
}

fn key(layout: &LogicalOutputLayout) -> UniqueKey {
    UniqueKey {
        columns: (0..2)
            .map(|i| UniqueKeyColumn {
                output_index: i,
                binding: layout.columns[i].binding,
            })
            .collect(),
        provenance: UniqueKeyProvenance::Derived,
        null_semantics: UniqueKeyNullSemantics::NullsEqual,
    }
}

fn tagged(layout: &LogicalOutputLayout, tag: &str) -> FiniteDomains {
    let mut domains = FiniteDomains::new();
    domains.insert(
        layout.columns[2].binding,
        Domain::singleton(DomainValue::String(tag.to_string())),
    );
    domains
}

fn union(tag: &str, collated: bool) -> paro_optimizer::plan::NodeStats {
    let left = layout(1, LogicalType::Varchar);
    let right = layout(2, LogicalType::Varchar);
    let output = layout(
        3,
        if collated {
            LogicalType::CollatedVarchar(paro_optimizer::types::CollationId(1))
        } else {
            LogicalType::Varchar
        },
    );
    let left_domains = tagged(&left, "s");
    let right_domains = tagged(&right, tag);
    let left_keys = vec![key(&left)];
    let right_keys = vec![key(&right)];
    let operator = LogicalOperator::SetOperation(SetOperation {
        table_index: 3,
        setop_type: SetOpType::Union,
        setop_all: true,
        types: output.types(),
    });
    let mut stats = paro_optimizer::plan::NodeStats::default();
    paro_optimizer::estimate::relation_proofs::RelationProofs::new().derive(
        &operator,
        &output,
        &[left, right],
        &[
            paro_optimizer::estimate::relation_proofs::ProofInput {
                keys: &left_keys,
                domains: &left_domains,
            },
            paro_optimizer::estimate::relation_proofs::ProofInput {
                keys: &right_keys,
                domains: &right_domains,
            },
        ],
        Vec::new(),
        &mut stats,
    );
    stats
}

#[test]
fn disjoint_union_requires_complete_branch_keys() {
    let result = union("c", false);
    assert_eq!(result.unique_keys.len(), 1);
    assert_eq!(result.unique_keys[0].columns.len(), 3);
    // Knowing the first attribute does not determine the second one.
    assert!(!result.unique_keys.iter().any(|k| k.columns.len() == 1));
    assert!(
        union("s", false).unique_keys.is_empty(),
        "overlapping branch tags cannot prove uniqueness"
    );
    assert!(
        union("S", true).unique_keys.is_empty(),
        "byte-distinct tags do not prove disjointness under a collation"
    );
}

#[test]
fn only_proven_non_null_constants_reduce_composite_keys() {
    let output = layout(1, LogicalType::Varchar);
    let keys = vec![key(&output)];
    for (value, expected_width) in [(DomainValue::Integer(2001), 1), (DomainValue::Null, 2)] {
        let mut domains = FiniteDomains::new();
        domains.insert(output.columns[1].binding, Domain::singleton(value));
        let operator = LogicalOperator::Filter(filter(vec![]));
        let mut stats = paro_optimizer::plan::NodeStats::default();
        paro_optimizer::estimate::relation_proofs::RelationProofs::new().derive(
            &operator,
            &output,
            &[layout(1, LogicalType::Varchar)],
            &[paro_optimizer::estimate::relation_proofs::ProofInput {
                keys: &keys,
                domains: &domains,
            }],
            vec![keys[0].copy()],
            &mut stats,
        );
        assert_eq!(stats.unique_keys[0].columns.len(), expected_width);
    }
}

#[test]
fn cte_keys_follow_definition_identity_not_reader_positions() {
    let producer = union("c", false);
    let source = layout(3, LogicalType::Varchar);
    let output = layout(9, LogicalType::Varchar);
    let mut proofs = paro_optimizer::estimate::relation_proofs::RelationProofs::new();
    let columns = source
        .columns
        .iter()
        .enumerate()
        .map(|(i, column)| CteOutputColumn {
            definition: CteColumnId(i),
            binding: column.binding,
        })
        .collect::<Vec<_>>();
    proofs.publish(7, &columns, &producer);
    let reference = |definition_columns| {
        LogicalOperator::CTERef(CTERef {
            cte_index: 7,
            table_index: 9,
            definition_columns,
            column_types: output.types(),
        })
    };
    let mut stats = paro_optimizer::plan::NodeStats::default();
    proofs.derive(
        &reference(vec![CteColumnId(2), CteColumnId(0), CteColumnId(1)]),
        &output,
        &[],
        &[],
        Vec::new(),
        &mut stats,
    );
    assert_eq!(stats.unique_keys.len(), 1);
    assert_eq!(
        stats
            .finite_domains
            .get(&output.columns[0].binding)
            .unwrap()
            .len(),
        2
    );
    proofs.derive(
        &reference(vec![CteColumnId(2), CteColumnId(0)]),
        &output,
        &[],
        &[],
        Vec::new(),
        &mut stats,
    );
    assert!(
        stats.unique_keys.is_empty(),
        "pruning a key column loses the proof"
    );
}

fn normal_cdf(value: f64) -> f64 {
    let absolute = value.abs();
    let t = 1.0 / (1.0 + 0.231_641_9 * absolute);
    let density = 0.398_942_280_401_432_7 * (-0.5 * absolute * absolute).exp();
    let tail = density
        * t
        * (0.319_381_530
            + t * (-0.356_563_782
                + t * (1.781_477_937 + t * (-1.821_255_978 + t * 1.330_274_429))));
    if value >= 0.0 {
        1.0 - tail
    } else {
        tail
    }
}

fn decimal(precision: u8) -> LogicalType {
    LogicalType::Decimal {
        precision,
        scale: 2,
    }
}

#[test]
fn grouped_decimal_sum_uses_logical_scale_and_reference_lineage() {
    let input_type = decimal(15);
    let sum = Expression::Aggregate(Arc::new(AggregateExpression {
        function: AggregateFunction::Sum,
        children: vec![Expression::Reference(Arc::new(ReferenceExpression {
            index: 1,
            return_type: input_type,
        }))],
        distinct: false,
        filter: None,
        ordered: false,
        return_type: decimal(38),
    }));
    let mut columns = BindingMap::new();
    columns.insert(
        ColumnBinding::new(10, 1),
        ColumnStatistics {
            minimum: Some(Value::Decimal(100, 15, 2)),
            maximum: Some(Value::Decimal(5_000, 15, 2)),
            ..ColumnStatistics::create_unknown(input_type)
        },
    );
    let positions = vec![ColumnBinding::new(10, 0), ColumnBinding::new(10, 1)];
    let grouped =
        estimate_grouped_sum_distribution(&sum, 6_000_000, 1_500_000, &positions, &columns)
            .unwrap();
    let logical = |value: &Value| match value {
        Value::Decimal(digits, _, scale) => *digits as f64 / 10f64.powi(i32::from(*scale)),
        _ => panic!("a decimal"),
    };
    let minimum = logical(&grouped.minimum);
    let maximum = logical(&grouped.maximum);
    let rows = (grouped.input_rows as f64 / grouped.group_rows as f64).max(1.0);
    let mean = rows * (minimum + maximum) * 0.5;
    assert_eq!(mean, 102.0, "decimal moments use logical units");
    let input_mean = (minimum + maximum) * 0.5;
    let variance = rows * ((maximum - minimum).powi(2) / 12.0)
        + (rows - 1.0).max(0.0) * input_mean.powi(2);
    let above = 1.0 - normal_cdf((300.0 - mean) / variance.sqrt());
    let expected = (1_500_000.0 * above).round() as u64;
    assert!(expected < 1_500, "expected a selective upper tail: {expected}");
    assert!(expected > 1);
    assert_eq!(grouped.input_type, input_type);
    assert!(
        estimate_grouped_sum_distribution(&sum, 1, 1, &vec![ColumnBinding::new(10, 0)], &columns)
            .is_none(),
        "a position without a column has no lineage"
    );
}

#[test]
fn scans_are_estimated_by_everything_that_they_filter() {
    let get = || Get {
        table_index: 1,
        returned_types: vec![LogicalType::BigInt],
        has_table: true,
        has_storage: true,
        storage_rows: Some(10),
        stored_columns: vec![Some(0)],
        runtime_filter_expressions: vec![equals(1, 0, 4)],
    };
    let search = LogicalOperator::SearchScan(SearchScan {
        get: get(),
        table_index: 2,
        absorbed_predicates: vec![equals(1, 0, 1)],
        residual_predicates: vec![equals(1, 0, 2)],
        projections: vec![],
        limit: 5,
    });
    let expected = vec![equals(1, 0, 1), equals(1, 0, 2), equals(1, 0, 4)];
    assert_eq!(
        format!("{:?}", scan_predicates(&search)),
        format!("{expected:?}")
    );
    let full_text = LogicalOperator::FullTextFilterScan(FullTextFilterScan {
        get: get(),
        match_expression: equals(1, 0, 0),
        other_predicates: vec![equals(1, 0, 1)],
        residual_predicates: vec![equals(1, 0, 2)],
        projection_map: ProjectionMap::All,
    });
    let expected = vec![
        equals(1, 0, 0),
        equals(1, 0, 1),
        equals(1, 0, 2),
        equals(1, 0, 4),
    ];
    assert_eq!(
        format!("{:?}", scan_predicates(&full_text)),
        format!("{expected:?}")
    );
    assert!(scan_predicates(&LogicalOperator::Get(get())).is_empty());
}

/// Knows of no key, and counts what it is asked to normalize.
struct NoKeys {
    asked: Vec<usize>,
}

impl KeyDerivation for NoKeys {
    fn base_unique_keys(
        &mut self,
        _operator: &LogicalOperator,
        layouts: &[LogicalOutputLayout],
        children: &Vec<LogicalPlan>,
    ) -> Vec<UniqueKey> {
        assert_eq!(layouts.len(), children.len());
        vec![]
    }

    fn normalize_unique_keys(&mut self, keys: Vec<UniqueKey>) -> Vec<UniqueKey> {
        self.asked.push(keys.len());
        keys
    }
}

#[test]
fn refreshing_hands_the_domains_of_a_definition_to_its_readers() {
    let mut definition = LogicalPlan::synthetic(
        LogicalOperator::Filter(filter(vec![equals(1, 0, 7)])),
        vec![values_of(1, vec![6, 7])],
    );
    definition.stats.estimated_cardinality = Some(CardinalityEstimate::exact(5));
    let mut plan = LogicalPlan::synthetic(
        LogicalOperator::MaterializedCTE(MaterializedCTE {
            cte_index: 9,
            cte_name: "shared".to_string(),
            column_types: vec![LogicalType::BigInt],
            materialized: CTEMaterialize::Materialized,
            output_columns: vec![CteOutputColumn {
                definition: CteColumnId(0),
                binding: ColumnBinding::new(1, 0),
            }],
            ref_count: 1,
        }),
        vec![definition, cte_ref(9, 2)],
    );
    // What a node held before is forgotten.
    plan.stats.finite_domains.insert(
        ColumnBinding::new(2, 0),
        Domain::singleton(DomainValue::Null),
    );
    let columns = plan.get_column_bindings();

    let mut keys = NoKeys { asked: vec![] };
    let refreshed = refresh(plan, &mut keys);

    assert_eq!(keys.asked, vec![0, 0, 0, 0]);
    assert_eq!(refreshed.get_column_bindings(), columns);
    assert_eq!(
        refreshed.children[0].stats.estimated_cardinality,
        Some(CardinalityEstimate::exact(5))
    );
    assert!(refreshed.children[0].children[0]
        .stats
        .finite_domains
        .is_empty());
    let seven = DomainValue::from_value(&Value::BigInt(7)).unwrap();
    for plan in [&refreshed, &refreshed.children[1]] {
        let domain = plan
            .stats
            .finite_domains
            .get(&ColumnBinding::new(2, 0))
            .expect("the reader knows the definition's values");
        assert_eq!(domain.len(), 1);
        assert!(domain.contains(&seven));
    }
}

#[test]
fn a_filter_without_input_is_incomplete() {
    let filter = || LogicalOperator::Filter(filter(vec![]));
    let incomplete = LogicalPlan::synthetic(filter(), vec![]);
    assert!(!inputs_are_complete(&incomplete));
    assert!(!inputs_are_complete(&LogicalPlan::synthetic(
        filter(),
        vec![incomplete]
    )));
    assert!(inputs_are_complete(&LogicalPlan::synthetic(
        filter(),
        vec![values_relation(1, 2)]
    )));
}

#[test]
fn gathering_keeps_the_columns_of_a_plan() {
    let plan = LogicalPlan::synthetic(
        LogicalOperator::Join(Join::Comparison(comparison_join(
            JoinType::Inner,
            vec![equality(1, 0, 2, 0)],
            vec![],
        ))),
        vec![values_relation(1, 4), values_relation(2, 3)],
    );
    let columns = plan.get_column_bindings();
    let mut gatherer = gatherer();
    let gathered = gatherer.gather(plan);
    assert_eq!(gathered.get_column_bindings(), columns);
    assert_eq!(
        gathered.children[0].stats.estimated_cardinality,
        Some(CardinalityEstimate::exact(4))
    );
    assert_eq!(
        gathered.stats.cardinality_provenance,
        CardinalityProvenance::Statistics
    );
}

#[test]
fn native_rows_are_estimated_without_publishing_columns() {
    let mut child = values_relation(1, 10);
    child.stats.estimated_cardinality = Some(CardinalityEstimate::exact(10));
    let layouts = vec![child.output_layout()];
    let limit = LogicalOperator::Limit(Limit {
        limit: Some(constant(3)),
        offset: None,
    });
    let mut gatherer = gatherer();
    let rows = gatherer.gathering.estimate_native_cardinality(
        &limit,
        &vec![child],
        &layouts,
        &gatherer.columns,
        &mut gatherer.facts,
    );
    assert_eq!(rows, Some(CardinalityEstimate::exact(3)));
    assert!(gatherer.columns.get(&ColumnBinding::new(1, 0)).is_none());
}

#[test]
fn scans_publish_what_storage_keeps_of_their_columns() {
    let get = || Get {
        table_index: 1,
        returned_types: vec![LogicalType::BigInt, LogicalType::BigInt],
        has_table: true,
        has_storage: true,
        storage_rows: Some(10),
        stored_columns: vec![None, Some(4)],
        runtime_filter_expressions: vec![],
    };
    let plain = LogicalOperator::Get(get());
    let full_text = LogicalOperator::FullTextFilterScan(FullTextFilterScan {
        get: get(),
        match_expression: equals(1, 0, 0),
        other_predicates: vec![],
        residual_predicates: vec![],
        projection_map: ProjectionMap::All,
    });
    for operator in [plain, full_text] {
        let mut gatherer = gatherer();
        gatherer.facts.stored = Some((4, 6));
        let gathered = gatherer.gather(LogicalPlan::synthetic(operator, vec![]));
        let points: Vec<u64> = gathered
            .get_column_bindings()
            .iter()
            .map(|binding| gatherer.columns.get(binding).unwrap().distinct.point)
            .collect();
        assert_eq!(points, vec![0, 6]);
    }
}

fn limited_chain(plan: LogicalPlan, depth: usize) -> LogicalPlan {
    let mut plan = plan;
    for _ in 0..depth {
        plan = LogicalPlan::synthetic(
            LogicalOperator::Limit(Limit {
                limit: None,
                offset: None,
            }),
            vec![plan],
        );
    }
    plan
}

/// The plan below a chain of limits.
fn below_limits(plan: &LogicalPlan, depth: usize) -> &LogicalPlan {
    let mut current = plan;
    for _ in 0..depth {
        assert!(matches!(&current.operator, LogicalOperator::Limit(_)));
        current = &current.children[0];
    }
    current
}

#[test]
fn statistics_gathering_uses_a_heap_stack_for_deep_plans() {
    const DEPTH: usize = 10_000;
    let plan = limited_chain(values_relation(17, 1), DEPTH);
    let mut gatherer = gatherer();
    let gathered = gatherer.gather(plan);
    assert!(gatherer.columns.get(&ColumnBinding::new(17, 0)).is_some());
    assert!(matches!(
        &below_limits(&gathered, DEPTH).operator,
        LogicalOperator::ExpressionGet(_)
    ));
    assert_eq!(
        gathered.stats.estimated_cardinality,
        Some(CardinalityEstimate::exact(1))
    );
}

#[test]
fn delimiter_collection_uses_a_heap_stack_for_a_deep_dependent_rhs() {
    const DEPTH: usize = 10_000;
    let outer = values_of(1, (0..35).map(|value| value % 7).collect());
    let delim = LogicalPlan::synthetic(
        LogicalOperator::DelimGet(DelimGet {
            table_index: 9,
            chunk_types: vec![LogicalType::BigInt],
        }),
        vec![],
    );
    let plan = LogicalPlan::synthetic(
        LogicalOperator::Join(Join::Comparison(comparison_join(
            JoinType::Inner,
            vec![equality(1, 0, 9, 0)],
            vec![column_ref(1, 0)],
        ))),
        vec![outer, limited_chain(delim, DEPTH)],
    );
    let mut gatherer = gatherer();
    let gathered = gatherer.gather(plan);
    let dependent = below_limits(&gathered.children[1], DEPTH);
    assert!(matches!(&dependent.operator, LogicalOperator::DelimGet(_)));
    let estimate = dependent
        .stats
        .estimated_cardinality
        .expect("deep DelimGet should inherit the outer key domain");
    assert!(estimate.expected > 1 && estimate.expected < 35);
    assert!(gatherer.columns.get(&ColumnBinding::new(9, 0)).is_some());
}

#[test]
fn graph_name_lookup_uses_a_heap_stack_for_a_deep_graph_chain() {
    const DEPTH: usize = 10_000;
    let mut child = LogicalPlan::synthetic(
        LogicalOperator::GraphScan(GraphScan {
            table_index: 3,
            graph_name: "g".to_string(),
            label: "v".to_string(),
            filter: None,
            types: vec![LogicalType::BigInt],
        }),
        vec![],
    );
    for _ in 0..DEPTH {
        child = LogicalPlan::synthetic(LogicalOperator::Filter(filter(vec![])), vec![child]);
    }
    let plan = LogicalPlan::synthetic(
        LogicalOperator::GraphExpand(GraphExpand {
            table_index: 4,
            source_label: "v".to_string(),
            edge_label: "e".to_string(),
            target_label: "v".to_string(),
            direction: ExpandDirection::Forward,
            quantifier: None,
            types: vec![LogicalType::BigInt],
        }),
        vec![child],
    );
    let mut gatherer = gatherer();
    gatherer.facts.graph = Some(GraphCounts {
        vertices: 10,
        steps: 10,
    });
    let gathered = gatherer.gather(plan);
    assert_eq!(
        gathered.stats.estimated_cardinality,
        Some(CardinalityEstimate {
            min: 5,
            expected: 10,
            max: 20,
        })
    );
    let mut child = &gathered.children[0];
    for _ in 0..DEPTH {
        assert!(matches!(&child.operator, LogicalOperator::Filter(_)));
        child = &child.children[0];
    }
    let LogicalOperator::GraphScan(scan) = &child.operator else {
        panic!("expected graph-scan leaf");
    };
    assert_eq!(scan.graph_name, "g");
    assert_eq!(
        child.stats.estimated_cardinality,
        Some(CardinalityEstimate::exact(10))
    );
}

/// Knows one key of every scan, and keeps all keys as they are.
struct ScanKeys;

impl KeyDerivation for ScanKeys {
    fn base_unique_keys(
        &mut self,
        operator: &LogicalOperator,
        _layouts: &[LogicalOutputLayout],
        _children: &Vec<LogicalPlan>,
    ) -> Vec<UniqueKey> {
        match operator {
            LogicalOperator::ExpressionGet(_) => vec![key(&layout(17, LogicalType::BigInt))],
            _ => vec![],
        }
    }

    fn normalize_unique_keys(&mut self, keys: Vec<UniqueKey>) -> Vec<UniqueKey> {
        keys
    }
}

#[test]
fn refreshing_keeps_the_keys_that_are_answered() {
    const DEPTH: usize = 10_000;
    let plan = limited_chain(values_relation(17, 3), DEPTH);
    let refreshed = refresh(plan, &mut ScanKeys);
    let scan = below_limits(&refreshed, DEPTH);
    let known = key(&layout(17, LogicalType::BigInt));
    assert_eq!(scan.stats.unique_keys.len(), 1);
    assert_eq!(
        scan.stats.unique_keys[0].columns.len(),
        known.columns.len()
    );
    assert!(scan.stats.unique_keys[0]
        .columns
        .iter()
        .zip(&known.columns)
        .all(|(kept, answered)| kept == answered));
}
