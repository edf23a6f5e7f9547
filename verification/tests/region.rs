use std::sync::Arc;

use paro_optimizer::cost::join_conditions::{
    collect_comparisons, condition_profile, ComparisonWidths, CutPredicate, JoinConditionProfile,
    JoinEdgeOrientation,
};
use paro_optimizer::cost::join_work::{
    build_candidate, cost_breakdown_for_cardinality, HashJoinWork, JoinBuildCandidate,
    JoinCostInputs, JoinSide, JoinWork, RowWidth,
};
use paro_optimizer::cost::number::Number;
use paro_optimizer::cost::region::{
    estimate_hash_probe_row_width, estimate_join, hash_match_row_bytes, nested_loop_cursor_bytes,
    peak_build_bytes, reduction_filtering_side, CostedJoin, DPJoinNode, JoinBuildSide,
    JoinEstimates, JoinRows, RegionCostModel, RelationStats, CROSS_PRODUCT_SELECTION_BYTES,
    HASH_BUCKET_CACHE_LINE_BYTES,
};
use paro_optimizer::cost::relation_set::JoinRelationSet;
use paro_optimizer::expression::{
    ColumnRefExpression, ComparisonExpression, ConjunctionExpression, Expression,
    OperatorExpression,
};
use paro_optimizer::plan::CardinalityProvenance;
use paro_optimizer::types::{
    ColumnBinding, ComparisonType, ConjunctionType, LogicalType, OperatorType,
};

fn number(value: f64) -> Number {
    Number::from_bits(value.to_bits())
}

fn value(number: Number) -> f64 {
    f64::from_bits(number.bits)
}

/// A row layout: eight bytes of header, four of each integer.
fn row_width(payload: usize) -> usize {
    payload + 8
}

fn hash_build_width(payload: usize, condition: usize) -> usize {
    payload + condition + 16
}

const INTEGER_WIDTH: usize = 4;

fn with_cardinality(cardinality: usize) -> RelationStats {
    RelationStats {
        cardinality,
        risk_cardinality: cardinality,
        materialization_cardinality: cardinality,
        estimated_payload_width: 1,
        contains_control_region: false,
        cardinality_provenance: CardinalityProvenance::Statistics,
        has_materialization_domains: false,
    }
}

fn relation(index: usize) -> Arc<JoinRelationSet> {
    Arc::new(JoinRelationSet::new(vec![index]))
}

fn leaf(model: &RegionCostModel, index: usize) -> DPJoinNode {
    let set = relation(index);
    let stats = model.relations[index];
    let risk = stats.risk_cardinality.max(stats.cardinality);
    let floor = model.atomic_floor(&set);
    let width = model.payload_width(&set);
    DPJoinNode::leaf(
        set,
        width,
        number(stats.cardinality as f64),
        number(risk as f64),
        number(floor.max(risk) as f64),
    )
}

fn column(table_index: usize, column_index: usize) -> Expression {
    Expression::ColumnRef(Arc::new(ColumnRefExpression {
        binding: ColumnBinding::new(table_index, column_index),
        depth: 0,
        return_type: LogicalType::Integer,
    }))
}

fn comparison(
    left: usize,
    right: usize,
    comparison_type: ComparisonType,
    orientation: JoinEdgeOrientation,
) -> CutPredicate {
    CutPredicate {
        orientation: Some(orientation),
        filter: Expression::Comparison(Arc::new(ComparisonExpression {
            comparison_type,
            left: column(left, 0),
            right: column(right, 0),
        })),
    }
}

fn profile(predicates: &Vec<CutPredicate>) -> JoinConditionProfile {
    let comparisons = collect_comparisons(predicates);
    let widths = comparisons
        .iter()
        .map(|_| ComparisonWidths {
            left: INTEGER_WIDTH,
            right: INTEGER_WIDTH,
            key: INTEGER_WIDTH,
        })
        .collect::<Vec<_>>();
    let has_join_conditions = predicates.iter().any(|p| p.orientation.is_some());
    condition_profile(&comparisons, &widths, has_join_conditions)
}

fn equality(left: usize, right: usize) -> JoinConditionProfile {
    profile(&vec![comparison(
        left,
        right,
        ComparisonType::Equal,
        JoinEdgeOrientation::Forward,
    )])
}

fn no_conditions() -> JoinConditionProfile {
    profile(&Vec::new())
}

fn amount(work: JoinWork) -> f64 {
    match work {
        JoinWork::Nothing => 0.0,
        JoinWork::Rows { rows, width } => {
            let bytes = match width {
                RowWidth::Bytes(bytes) => bytes,
                RowWidth::Row { payload } => row_width(payload),
                RowWidth::HashBuild { payload, condition } => hash_build_width(payload, condition),
                RowWidth::Payload(bytes) => bytes,
            };
            value(rows) * bytes as f64
        }
        JoinWork::HashBuildRows {
            rows,
            payload,
            condition,
        } => {
            value(rows) * hash_build_width(payload, condition) as f64
                + value(rows) * HASH_BUCKET_CACHE_LINE_BYTES as f64
        }
        JoinWork::Pairs {
            left,
            right,
            pair_bytes,
        } => value(left) * value(right) * pair_bytes as f64,
        JoinWork::Priced(_) | JoinWork::PricedPairs { .. } => panic!("no calibrated prices here"),
    }
}

/// The cheaper side is built, unless a filtering control region has to stay.
fn cheaper_side(
    filtering_side: Option<JoinBuildSide>,
    left: JoinBuildCandidate,
    right: JoinBuildCandidate,
) -> JoinBuildSide {
    match filtering_side {
        Some(JoinBuildSide::Left) if left.contains_control_region => JoinBuildSide::Left,
        Some(JoinBuildSide::Right) if right.contains_control_region => JoinBuildSide::Right,
        _ if amount(left.serialized_work) < amount(right.serialized_work) => JoinBuildSide::Left,
        _ => JoinBuildSide::Right,
    }
}

#[derive(Clone, Copy)]
struct Breakdown {
    build: f64,
    probe: f64,
    match_output: f64,
    children: f64,
}

impl Breakdown {
    fn total(self) -> f64 {
        self.build + self.probe + self.match_output + self.children
    }
}

struct Joined {
    breakdown: Breakdown,
    node: DPJoinNode,
}

/// Joins two trees, given the rows that are expected of the join.
fn join(
    model: &RegionCostModel,
    left: &DPJoinNode,
    right: &DPJoinNode,
    conditions: JoinConditionProfile,
    reduction: Option<JoinEdgeOrientation>,
    expected: f64,
) -> Joined {
    let combination = Arc::new(left.set.union(&right.set));
    let materialization = |set: &JoinRelationSet| number(model.atomic_floor(set) as f64);
    let estimates = JoinEstimates {
        expected: number(expected),
        risk: number(expected),
        materialization: materialization(&combination),
        left_materialization: materialization(&left.set),
        right_materialization: materialization(&right.set),
        before_activation: None,
    };
    let rows = estimate_join(left, right, reduction, estimates);
    let side = |child: &DPJoinNode, materialization_rows: Number| JoinSide {
        cardinality: child.cardinality,
        risk_rows: child.risk_cardinality,
        materialization_rows,
        output_payload_width: child.output_payload_width,
        contains_control_region: model.contains_control_region(&child.set),
        cost: child.cost,
    };
    let inputs = JoinCostInputs {
        left: side(left, rows.left_materialization),
        right: side(right, rows.right_materialization),
        conditions,
        filtering_side: reduction_filtering_side(reduction),
        join_rows: rows.priced,
        output_payload_width: rows.output_payload_width,
        priced: false,
    };
    let build_side = cheaper_side(
        inputs.filtering_side,
        build_candidate(&inputs, JoinBuildSide::Left),
        build_candidate(&inputs, JoinBuildSide::Right),
    );
    let work = cost_breakdown_for_cardinality(&inputs, build_side);
    let breakdown = Breakdown {
        build: amount(work.build),
        probe: amount(work.probe),
        match_output: amount(work.match_output),
        children: value(work.left_cost) + value(work.right_cost),
    };
    let bytes = |rows: Number, width: usize| (value(rows) * width as f64) as u64;
    let peak = peak_build_bytes(
        left,
        right,
        build_side,
        bytes(rows.left_materialization, left.output_payload_width),
        bytes(rows.right_materialization, right.output_payload_width),
    );
    let node = DPJoinNode::intermediate(
        left,
        right,
        CostedJoin {
            combination,
            rows,
            cost: number(breakdown.total()),
            build_side,
            peak_build_bytes: peak,
        },
    );
    Joined { breakdown, node }
}

#[test]
fn test_dp_join_node_leaf() {
    let set = relation(0);

    let node = DPJoinNode::leaf(set.clone(), 7, number(0.0), number(0.0), number(0.0));

    assert!(node.is_leaf);
    assert_eq!(value(node.cost), 0.0);
    assert_eq!(value(node.cardinality), 0.0);
    assert_eq!(node.output_payload_width, 7);
    assert!(Arc::ptr_eq(&node.set, &set));
    assert!(Arc::ptr_eq(&node.left_set, &set));
}

#[test]
fn test_dp_join_node_intermediate() {
    let left = relation(0);
    let right = relation(1);
    let combined = Arc::new(left.union(&right));

    let node = DPJoinNode::intermediate(
        &DPJoinNode::leaf(left.clone(), 5, number(10.0), number(10.0), number(10.0)),
        &DPJoinNode::leaf(right.clone(), 6, number(5.0), number(5.0), number(5.0)),
        CostedJoin {
            combination: combined.clone(),
            rows: JoinRows {
                cardinality: number(50.0),
                risk_cardinality: number(50.0),
                materialization_cardinality: number(50.0),
                materialization_is_reduction_bound: false,
                output_payload_width: 11,
                left_materialization: number(10.0),
                right_materialization: number(5.0),
                priced: number(50.0),
            },
            cost: number(
                Breakdown {
                    build: 25.0,
                    probe: 25.0,
                    match_output: 25.0,
                    children: 25.0,
                }
                .total(),
            ),
            build_side: JoinBuildSide::Right,
            peak_build_bytes: 30,
        },
    );

    assert!(!node.is_leaf);
    assert_eq!(value(node.cost), 100.0);
    assert_eq!(value(node.cardinality), 50.0);
    assert_eq!(node.output_payload_width, 11);
    assert!(Arc::ptr_eq(&node.left_set, &left));
    assert!(Arc::ptr_eq(&node.right_set, &right));
}

#[test]
fn test_init_cost_model() {
    let mut cost_model = RegionCostModel::new();

    let stats = vec![with_cardinality(1000), with_cardinality(500)];

    let rows = cost_model.init_cost_model(&stats);

    // Check that cardinalities were initialized
    assert_eq!(rows[0].expected, 1000);
    assert_eq!(rows[1].expected, 500);

    cost_model.reset();
    assert!(cost_model.relations.is_empty());
}

#[test]
fn test_get_cardinality() {
    let mut cost_model = RegionCostModel::new();
    let rows = cost_model.init_cost_model(&vec![with_cardinality(1000)]);
    assert_eq!(rows[0].expected, 1000);
    assert!(cost_model.activated(&relation(0)).is_empty());
}

#[test]
fn leaf_risk_cardinality_does_not_replace_its_expected_estimate() {
    let mut cost_model = RegionCostModel::new();
    let mut stats = with_cardinality(100);
    stats.risk_cardinality = 500;
    let rows = cost_model.init_cost_model(&vec![stats]);

    assert_eq!(rows[0].expected, 100);
    assert_eq!(rows[0].risk, 500);
    assert_eq!(rows[0].materialization, 500);
}

#[test]
fn hash_orientation_uses_materialization_risk_without_repricing_cpu_work() {
    let mut left_stats = with_cardinality(10);
    left_stats.risk_cardinality = 10;
    left_stats.materialization_cardinality = 10_000;
    left_stats.estimated_payload_width = 8;
    let mut right_stats = with_cardinality(100);
    right_stats.risk_cardinality = 100;
    right_stats.materialization_cardinality = 100;
    right_stats.estimated_payload_width = 8;

    let mut model = RegionCostModel::new();
    model.init_cost_model(&vec![left_stats, right_stats]);
    let combined = JoinRelationSet::new(vec![0, 1]);
    assert_eq!(model.atomic_floor(&combined), 10_000);
    let left = leaf(&model, 0);
    let right = leaf(&model, 1);
    let conditions = equality(0, 1);
    let joined = join(&model, &left, &right, conditions, None, 1.0);

    assert_eq!(joined.node.build_side, JoinBuildSide::Right);
    let expected_right_build = value(right.risk_cardinality)
        * hash_build_width(right.output_payload_width, conditions.right_payload_width) as f64
        + value(right.risk_cardinality) * HASH_BUCKET_CACHE_LINE_BYTES as f64;
    assert_eq!(joined.breakdown.build, expected_right_build);
}

#[test]
fn residual_activation_requires_full_support_and_is_not_multiplied_on_revisit() {
    let mut model = RegionCostModel::new();
    model.init_cost_model(&vec![
        with_cardinality(10),
        with_cardinality(10),
        with_cardinality(10),
    ]);
    let pair = JoinRelationSet::new(vec![0, 1]);
    let all = JoinRelationSet::new(vec![0, 1, 2]);
    let last = JoinRelationSet::new(vec![2]);
    let kept = |model: &RegionCostModel, activated: Vec<usize>| {
        activated
            .into_iter()
            .map(|i| value(model.residual_selectivities[i].1))
            .product::<f64>()
    };
    model
        .residual_selectivities
        .push((JoinRelationSet::new(vec![0, 1, 2]), number(0.25)));
    assert_eq!(kept(&model, model.activated(&pair)), 1.0);
    assert_eq!(kept(&model, model.activated(&all)), 0.25);
    assert_eq!(kept(&model, model.activated(&all)), 0.25);
    assert_eq!(kept(&model, model.inherited(&pair, &last)), 1.0);
    model
        .residual_selectivities
        .push((JoinRelationSet::new(vec![0, 1]), number(0.5)));
    assert_eq!(kept(&model, model.inherited(&pair, &last)), 0.5);
    assert_eq!(kept(&model, model.activated(&all)), 0.125);
    // What an input has activated, the join activates too.
    for index in model.inherited(&pair, &last) {
        assert!(model.activated(&all).contains(&index));
    }
}

#[test]
fn materialization_rows_keep_their_own_distinct_domains() {
    let mut left_stats = with_cardinality(10);
    left_stats.materialization_cardinality = 1_000_000;
    left_stats.has_materialization_domains = true;
    let mut right_stats = with_cardinality(10);
    right_stats.materialization_cardinality = 1_000_000;
    right_stats.has_materialization_domains = true;

    let mut model = RegionCostModel::new();
    let rows = model.init_cost_model(&vec![left_stats, right_stats]);
    assert!(rows[0].own_materialization_domains);
    assert!(rows[1].own_materialization_domains);
    assert_eq!(rows[0].materialization, 1_000_000);

    let joined = JoinRelationSet::new(vec![0, 1]);
    assert_eq!(model.atomic_floor(&joined), 1_000_000);
}

#[test]
fn test_compute_cost_leaf_nodes() {
    let mut cost_model = RegionCostModel::new();
    cost_model.init_cost_model(&vec![with_cardinality(1000), with_cardinality(500)]);

    // Create leaf nodes
    let left = leaf(&cost_model, 0);
    let right = leaf(&cost_model, 1);

    // Join cardinality = (1000 * 500) / max(100, 50) = 5000
    let cost = join(&cost_model, &left, &right, no_conditions(), None, 5000.0)
        .breakdown
        .total();

    assert!(cost > 0.0);
}

#[test]
fn test_compute_cost_with_existing_costs() {
    let mut cost_model = RegionCostModel::new();
    cost_model.init_cost_model(&vec![with_cardinality(1000), with_cardinality(500)]);

    // Create nodes with existing costs
    let mut left = leaf(&cost_model, 0);
    left.is_leaf = false;
    left.cost = number(100.0);
    let mut right = leaf(&cost_model, 1);
    right.is_leaf = false;
    right.cost = number(50.0);

    let cost = join(&cost_model, &left, &right, no_conditions(), None, 5000.0)
        .breakdown
        .total();

    // Cost should include left.cost + right.cost
    assert!(cost >= 150.0); // At least the sum of child costs
}

#[test]
fn test_compute_cost_and_create_node() {
    let mut cost_model = RegionCostModel::new();
    cost_model.init_cost_model(&vec![with_cardinality(1000), with_cardinality(500)]);

    // Create leaf nodes
    let left = leaf(&cost_model, 0);
    let right = leaf(&cost_model, 1);

    // Create join node
    let join_node = join(&cost_model, &left, &right, no_conditions(), None, 5000.0).node;

    assert!(!join_node.is_leaf);
    assert!(value(join_node.cost) > 0.0);
    assert!(value(join_node.cardinality) > 0.0);
    assert_eq!(join_node.set.count(), 2);
}

#[test]
fn test_three_way_join_cost() {
    let mut cost_model = RegionCostModel::new();
    cost_model.init_cost_model(&vec![
        with_cardinality(1000),
        with_cardinality(500),
        with_cardinality(200),
    ]);

    // Create leaf nodes
    let a = leaf(&cost_model, 0);
    let b = leaf(&cost_model, 1);
    let c = leaf(&cost_model, 2);

    // Compare two join orders: (A, B) with C against A with (B, C)
    let ab = join(&cost_model, &a, &b, no_conditions(), None, 5000.0).node;
    let ab_c = join(&cost_model, &ab, &c, no_conditions(), None, 40_000.0).node;

    let bc = join(&cost_model, &b, &c, no_conditions(), None, 4000.0).node;
    let a_bc = join(&cost_model, &a, &bc, no_conditions(), None, 40_000.0).node;

    // Both should have valid costs
    assert!(value(ab_c.cost) > 0.0);
    assert!(value(a_bc.cost) > 0.0);
}

#[test]
fn hash_input_orientation_matches_width_aware_build_side_for_every_join() {
    let mut left_stats = with_cardinality(10);
    left_stats.estimated_payload_width = 1_024;
    let mut right_stats = with_cardinality(100);
    right_stats.estimated_payload_width = 8;
    let mut model = RegionCostModel::new();
    model.init_cost_model(&vec![left_stats, right_stats]);
    let left = leaf(&model, 0);
    let right = leaf(&model, 1);

    let conditions = equality(0, 1);
    let inner = join(&model, &left, &right, conditions, None, 100.0);
    let inner_cost = inner.breakdown;
    assert_eq!(
        inner_cost.build,
        100.0
            * (hash_build_width(8, INTEGER_WIDTH) + HASH_BUCKET_CACHE_LINE_BYTES) as f64,
        "the wider ten-row input costs more to serialize than the narrow hundred-row input"
    );
    assert_eq!(
        inner_cost.probe,
        10.0 * estimate_hash_probe_row_width(INTEGER_WIDTH) as f64
    );

    let reduction = join(
        &model,
        &left,
        &right,
        conditions,
        Some(JoinEdgeOrientation::Forward),
        100.0,
    );
    let reduction_cost = reduction.breakdown;
    assert_eq!(reduction_cost.build, inner_cost.build);
    assert_eq!(reduction_cost.probe, inner_cost.probe);
    assert!(reduction_cost.match_output < inner_cost.match_output);
    assert!(reduction_cost.total() < inner_cost.total());
    assert_eq!(reduction.node.output_payload_width, 1_024);
}

#[test]
fn reduction_materialization_risk_is_bounded_by_the_preserved_child() {
    let mut preserved_stats = with_cardinality(64);
    preserved_stats.risk_cardinality = 1_092;
    preserved_stats.materialization_cardinality = 1_092;
    let mut filtering_stats = with_cardinality(291_606);
    filtering_stats.risk_cardinality = 291_606;
    filtering_stats.materialization_cardinality = 291_606;
    let mut model = RegionCostModel::new();
    model.init_cost_model(&vec![preserved_stats, filtering_stats]);

    let preserved = leaf(&model, 0);
    let filtering = leaf(&model, 1);
    let estimate = 64.0 * 291_606.0;
    let forward = join(
        &model,
        &preserved,
        &filtering,
        equality(0, 1),
        Some(JoinEdgeOrientation::Forward),
        estimate,
    )
    .node;
    let inverted = join(
        &model,
        &filtering,
        &preserved,
        equality(0, 1),
        Some(JoinEdgeOrientation::Inverted),
        estimate,
    )
    .node;

    assert_eq!(value(forward.materialization_cardinality), 1_092.0);
    assert_eq!(value(inverted.materialization_cardinality), 1_092.0);
    assert_eq!(forward.output_payload_width, preserved.output_payload_width);
    assert_eq!(
        inverted.output_payload_width,
        preserved.output_payload_width
    );
    assert!(forward.materialization_is_reduction_bound);
    // A reduction puts out no more rows than it preserves, and the rows stay in
    // order.
    assert_eq!(value(forward.cardinality), 64.0);
    assert!(value(forward.cardinality) <= value(forward.risk_cardinality));
    assert!(value(forward.risk_cardinality) <= value(forward.materialization_cardinality));

    // The bound belongs to the tree: a join above it keeps it.
    let above = join(
        &model,
        &forward,
        &filtering,
        equality(0, 1),
        Some(JoinEdgeOrientation::Forward),
        estimate,
    )
    .node;
    assert_eq!(value(above.materialization_cardinality), 1_092.0);
}

#[test]
fn hash_probe_work_does_not_assume_runtime_filter_pushdown() {
    let mut model = RegionCostModel::new();
    model.init_cost_model(&vec![with_cardinality(10), with_cardinality(1_000)]);
    let build = leaf(&model, 0);
    let probe = leaf(&model, 1);

    let cost = join(&model, &build, &probe, equality(0, 1), None, 10.0).breakdown;
    assert_eq!(
        cost.probe,
        1_000.0 * estimate_hash_probe_row_width(INTEGER_WIDTH) as f64,
        "runtime-filter eligibility belongs to physical pushdown, not the join graph"
    );
}

#[test]
fn range_join_does_not_claim_an_equality_runtime_filter() {
    let mut model = RegionCostModel::new();
    model.init_cost_model(&vec![with_cardinality(10), with_cardinality(1_000)]);
    let left = leaf(&model, 0);
    let right = leaf(&model, 1);
    let conditions = profile(&vec![comparison(
        0,
        1,
        ComparisonType::LessThan,
        JoinEdgeOrientation::Forward,
    )]);
    assert!(!conditions.has_hash_key);
    let join_rows = 3_000.0;

    let cost = join(&model, &left, &right, conditions, None, join_rows).breakdown;
    assert_eq!(cost.build, 10.0 * row_width(1) as f64);
    assert_eq!(cost.match_output, join_rows * row_width(2) as f64);
    assert_eq!(
        cost.probe,
        10.0 * 1_000.0 * (2 * INTEGER_WIDTH + nested_loop_cursor_bytes()) as f64,
        "range joins materialize one side, evaluate every pair, and copy accepted rows"
    );
}

#[test]
fn reduction_control_region_remains_on_the_build_side() {
    let mut preserved_stats = with_cardinality(10);
    preserved_stats.estimated_payload_width = 8;
    let mut filtering_stats = with_cardinality(100);
    filtering_stats.estimated_payload_width = 1_024;
    filtering_stats.contains_control_region = true;
    let mut model = RegionCostModel::new();
    model.init_cost_model(&vec![preserved_stats, filtering_stats]);
    let preserved = leaf(&model, 0);
    let filtering = leaf(&model, 1);

    let cost = join(
        &model,
        &preserved,
        &filtering,
        equality(0, 1),
        Some(JoinEdgeOrientation::Forward),
        10.0,
    )
    .breakdown;
    assert_eq!(
        cost.build,
        100.0
            * (hash_build_width(1_024, INTEGER_WIDTH) + HASH_BUCKET_CACHE_LINE_BYTES) as f64
    );
}

#[test]
fn test_cross_product_cost() {
    let mut cost_model = RegionCostModel::new();

    // No join filters - this will be a cross product
    cost_model.init_cost_model(&vec![with_cardinality(100), with_cardinality(50)]);

    let left = leaf(&cost_model, 0);
    let right = leaf(&cost_model, 1);

    let cost = join(&cost_model, &left, &right, no_conditions(), None, 5_000.0)
        .breakdown
        .total();

    assert_eq!(
        cost,
        50.0 * row_width(1) as f64 + 100.0 * 50.0 * CROSS_PRODUCT_SELECTION_BYTES as f64,
        "cross product materializes the smaller input and emits one repeated-row ordinal per pair"
    );
}

#[test]
fn unoriented_graph_predicate_uses_cross_product_cost_contract() {
    let predicates = vec![CutPredicate {
        orientation: None,
        filter: Expression::Operator(Arc::new(OperatorExpression {
            operator_type: OperatorType::Coalesce,
            children: vec![column(0, 0), column(1, 0)],
            return_type: LogicalType::Boolean,
        })),
    }];
    let conditions = profile(&predicates);
    assert!(!conditions.has_join_conditions);

    let mut model = RegionCostModel::new();
    model.init_cost_model(&vec![with_cardinality(100), with_cardinality(50)]);
    let left = leaf(&model, 0);
    let right = leaf(&model, 1);
    let cost = join(&model, &left, &right, conditions, None, 5_000.0).breakdown;

    assert_eq!(cost.build, 50.0 * row_width(1) as f64);
    assert_eq!(
        cost.probe,
        100.0 * 50.0 * CROSS_PRODUCT_SELECTION_BYTES as f64
    );
    assert_eq!(cost.match_output, 0.0);
}

#[test]
fn a_cut_lists_the_comparisons_of_a_conjunction_in_order() {
    let predicates = vec![CutPredicate {
        orientation: Some(JoinEdgeOrientation::Inverted),
        filter: Expression::Conjunction(Arc::new(ConjunctionExpression {
            conjunction_type: ConjunctionType::And,
            children: vec![
                Expression::Comparison(Arc::new(ComparisonExpression {
                    comparison_type: ComparisonType::LessThan,
                    left: column(0, 0),
                    right: column(1, 0),
                })),
                column(0, 1),
                Expression::Comparison(Arc::new(ComparisonExpression {
                    comparison_type: ComparisonType::NotDistinctFrom,
                    left: column(0, 0),
                    right: column(1, 0),
                })),
            ],
        })),
    }];
    let comparisons = collect_comparisons(&predicates);
    assert_eq!(comparisons.len(), 2);
    assert!(!comparisons[0].is_hash_key);
    assert!(comparisons[1].is_hash_key);

    let profile = profile(&predicates);
    assert!(profile.has_hash_key);
    assert_eq!(profile.left_payload_width, 2 * INTEGER_WIDTH);
    assert_eq!(profile.hash_key_width, INTEGER_WIDTH);
}

#[test]
fn calibrated_prices_compare_whole_joins() {
    let side = |rows: f64, width: usize, cost: f64| JoinSide {
        cardinality: number(rows),
        risk_rows: number(rows),
        materialization_rows: number(rows),
        output_payload_width: width,
        contains_control_region: false,
        cost: number(cost),
    };
    let inputs = JoinCostInputs {
        left: side(10.0, 8, 3.0),
        right: side(100.0, 128, 4.0),
        conditions: equality(0, 1),
        filtering_side: None,
        join_rows: number(20.0),
        output_payload_width: 136,
        priced: true,
    };
    let work = HashJoinWork {
        build_rows: number(10.0),
        probe_rows: number(100.0),
        output_rows: number(20.0),
        build_width: 8,
        probe_width: 128,
        output_width: 136,
        key_width: INTEGER_WIDTH,
    };
    assert_eq!(
        build_candidate(&inputs, JoinBuildSide::Left).serialized_work,
        JoinWork::Priced(work)
    );
    let breakdown = cost_breakdown_for_cardinality(&inputs, JoinBuildSide::Left);
    assert_eq!(breakdown.build, JoinWork::Priced(work));
    assert_eq!(breakdown.probe, JoinWork::Nothing);
    assert_eq!(value(breakdown.left_cost) + value(breakdown.right_cost), 7.0);

    let crossing = JoinCostInputs {
        conditions: no_conditions(),
        ..inputs
    };
    assert_eq!(
        cost_breakdown_for_cardinality(&crossing, JoinBuildSide::Left).build,
        JoinWork::PricedPairs {
            work: HashJoinWork {
                build_rows: number(100.0),
                probe_rows: number(10.0),
                build_width: 128,
                probe_width: 8,
                key_width: 0,
                ..work
            },
            has_conditions: false,
        }
    );
}

#[test]
fn rows_to_materialize_do_not_change_the_price() {
    let side = |rows: f64, materialized: f64| JoinSide {
        cardinality: number(rows),
        risk_rows: number(rows),
        materialization_rows: number(materialized),
        output_payload_width: 8,
        contains_control_region: false,
        cost: number(0.0),
    };
    let inputs = JoinCostInputs {
        left: side(10.0, 10.0),
        right: side(100.0, 100.0),
        conditions: equality(0, 1),
        filtering_side: None,
        join_rows: number(20.0),
        output_payload_width: 16,
        priced: false,
    };
    let risky = JoinCostInputs {
        left: side(10.0, 1_000_000.0),
        ..inputs
    };
    for build_side in [JoinBuildSide::Left, JoinBuildSide::Right] {
        assert_eq!(
            cost_breakdown_for_cardinality(&inputs, build_side),
            cost_breakdown_for_cardinality(&risky, build_side)
        );
    }
    assert_ne!(
        build_candidate(&inputs, JoinBuildSide::Left),
        build_candidate(&risky, JoinBuildSide::Left)
    );
}

#[test]
fn unknown_relations_add_no_width() {
    let mut model = RegionCostModel::new();
    model.init_cost_model(&vec![with_cardinality(1), with_cardinality(2)]);
    assert_eq!(model.payload_width(&JoinRelationSet::new(vec![0, 1, 9])), 2);
    assert!(!model.contains_control_region(&JoinRelationSet::new(vec![0, 9])));
    assert_eq!(model.atomic_floor(&JoinRelationSet::empty()), 0);
    assert_eq!(
        model.relation_provenance(1),
        CardinalityProvenance::Statistics
    );
}

#[test]
fn relation_sets_are_sets() {
    let a = JoinRelationSet::new(vec![3, 1, 3]);
    assert_eq!(a.relations(), &vec![1, 3]);
    assert_eq!(a.count(), 2);
    assert!(a.contains(3));
    assert!(!a.contains(2));
    let b = a.union(&JoinRelationSet::new(vec![2, 1]));
    assert_eq!(b.relations(), &vec![1, 2, 3]);
    assert!(b.contains_all(&a));
    assert!(!a.contains_all(&b));
}

#[test]
fn widths_follow_the_size_of_a_word() {
    let word = std::mem::size_of::<usize>();
    assert_eq!(hash_match_row_bytes(), 2 * (4 + word));
    assert_eq!(nested_loop_cursor_bytes(), 2 * word);
    assert_eq!(estimate_hash_probe_row_width(5), 5 + 8 + 64 + word + 4);
}

#[test]
fn unknown_ranking_prior_is_not_promoted_by_join_composition() {
    let mut model = RegionCostModel::new();
    let mut unknown = with_cardinality(1000);
    unknown.cardinality_provenance = CardinalityProvenance::Unknown;
    model.init_cost_model(&vec![unknown, with_cardinality(50)]);
    let mut left = leaf(&model, 0);
    left.cardinality_provenance = model.relation_provenance(0);
    let right = leaf(&model, 1);
    let joined = join(&model, &left, &right, equality(0, 1), None, 50_000.0);
    assert!(value(joined.node.cardinality) > 1.0);
    assert_eq!(
        joined.node.cardinality_provenance,
        CardinalityProvenance::Unknown
    );
    let above = join(&model, &right, &joined.node, equality(1, 0), None, 10.0);
    assert_eq!(
        above.node.cardinality_provenance,
        CardinalityProvenance::Unknown
    );
    let known = join(&model, &right, &leaf(&model, 1), equality(1, 1), None, 10.0);
    assert_eq!(
        known.node.cardinality_provenance,
        CardinalityProvenance::JoinGraph
    );
}
