use std::sync::Arc;

use paro_optimizer::cte::demand_producer::{
    build_demand_relation, push_current_cte, push_group_demand, CTEDemandPusher, TableIndexes,
};
use paro_optimizer::cte::demand_pushdown::{
    constrains, copy_join_demand, demand_sites, direct_cte_side, replay_safe_demand, JoinedDemand,
};
use paro_optimizer::cte::filter_pusher::{CTEFilterPusher, FilterPushdown};
use paro_optimizer::cte::inlining::{
    contains_limit, count_cte_references, ends_in_aggregate_or_distinct, inline_choice, try_inline,
    CTEInlining, InlineChoice,
};
use paro_optimizer::cte::iteration::{normalize_iteration_ownership, IterationFault};
use paro_optimizer::cte::partition_recognition::{
    constant_output, join_null_supplying_inputs, recognize,
};
use paro_optimizer::cte::partitioned_materialization::CTEPartitioner;
use paro_optimizer::cte::predicate_domain::{
    build_common_equality_domain, build_or_filter, derive_producer_predicates, FilteredCTERef,
};
use paro_optimizer::expression::{
    ColumnRefExpression, ComparisonExpression, ConstantExpression, Expression, FunctionExpression,
    FunctionId, FunctionStability, Intrinsic,
};
use paro_optimizer::operator::{
    Aggregate, AnyJoin, CTERef, ComparisonJoin, CrossProduct, CteColumnId, CteOutputColumn,
    DependentJoinKind, ExpressionGet, Filter, Join, JoinCondition, Limit, LogicalOperator,
    MaterializedCTE, Projection, ProjectionMap, RecursiveCTE, SetOperation,
};
use paro_optimizer::plan::{LogicalPlan, PlanCopier};
use paro_optimizer::types::{
    CTEMaterialize, ColumnBinding, ComparisonType, ConjunctionType, JoinBuildSideConstraint,
    JoinComparisonType, JoinType, LogicalType, SetOpType,
};
use paro_optimizer::value::Value;

fn column(table_index: usize, column_index: usize) -> Expression {
    Expression::ColumnRef(Arc::new(ColumnRefExpression {
        binding: ColumnBinding::new(table_index, column_index),
        depth: 0,
        return_type: LogicalType::Integer,
    }))
}

fn integer(value: i32) -> Expression {
    Expression::Constant(Arc::new(ConstantExpression {
        value: Value::Integer(value),
        return_type: LogicalType::Integer,
    }))
}

fn boolean(value: bool) -> Expression {
    Expression::Constant(Arc::new(ConstantExpression {
        value: Value::Boolean(value),
        return_type: LogicalType::Boolean,
    }))
}

fn compare(comparison_type: ComparisonType, left: Expression, right: Expression) -> Expression {
    Expression::Comparison(Arc::new(ComparisonExpression {
        comparison_type,
        left,
        right,
    }))
}

fn integer_equality(table_index: usize, column_index: usize, value: i32) -> Expression {
    compare(
        ComparisonType::Equal,
        column(table_index, column_index),
        integer(value),
    )
}

fn random() -> Expression {
    Expression::Function(Arc::new(FunctionExpression {
        function: FunctionId {
            id: 7,
            intrinsic: Intrinsic::Other,
        },
        stability: FunctionStability::Volatile,
        children: vec![],
        return_type: LogicalType::Double,
    }))
}

fn volatile_predicate() -> Expression {
    compare(
        ComparisonType::GreaterThan,
        random(),
        Expression::Constant(Arc::new(ConstantExpression {
            value: Value::Double(0.5f64.to_bits()),
            return_type: LogicalType::Double,
        })),
    )
}

fn values(table_index: usize, values: &[i32]) -> LogicalPlan {
    LogicalPlan::synthetic(
        LogicalOperator::ExpressionGet(ExpressionGet {
            table_index,
            rows: values.iter().map(|value| vec![integer(*value)]).collect(),
            types: vec![LogicalType::Integer],
        }),
        vec![],
    )
}

fn filter(expressions: Vec<Expression>, child: LogicalPlan) -> LogicalPlan {
    LogicalPlan::synthetic(
        LogicalOperator::Filter(Filter {
            expressions,
            projection_map: ProjectionMap::All,
        }),
        vec![child],
    )
}

fn projection(table_index: usize, expressions: Vec<Expression>, child: LogicalPlan) -> LogicalPlan {
    LogicalPlan::synthetic(
        LogicalOperator::Projection(Projection {
            table_index,
            expressions,
        }),
        vec![child],
    )
}

fn cte_ref_of_width(cte_index: usize, table_index: usize, width: usize) -> LogicalPlan {
    LogicalPlan::synthetic(
        LogicalOperator::CTERef(CTERef {
            cte_index,
            table_index,
            definition_columns: (0..width).map(CteColumnId).collect(),
            column_types: vec![LogicalType::Integer; width],
        }),
        vec![],
    )
}

fn cte_ref(cte_index: usize, table_index: usize) -> LogicalPlan {
    cte_ref_of_width(cte_index, table_index, 1)
}

fn shared(
    cte_index: usize,
    materialized: CTEMaterialize,
    ref_count: usize,
    producer: LogicalPlan,
    consumer: LogicalPlan,
) -> LogicalPlan {
    let bindings = producer.get_column_bindings();
    LogicalPlan::synthetic(
        LogicalOperator::MaterializedCTE(MaterializedCTE {
            cte_index,
            cte_name: "sales".to_string(),
            column_types: vec![LogicalType::Integer; bindings.len()],
            materialized,
            output_columns: bindings
                .into_iter()
                .enumerate()
                .map(|(i, binding)| CteOutputColumn {
                    definition: CteColumnId(i),
                    binding,
                })
                .collect(),
            ref_count,
        }),
        vec![producer, consumer],
    )
}

fn union(table_index: usize, width: usize, left: LogicalPlan, right: LogicalPlan) -> LogicalPlan {
    LogicalPlan::synthetic(
        LogicalOperator::SetOperation(SetOperation {
            table_index,
            setop_type: SetOpType::Union,
            setop_all: true,
            types: vec![LogicalType::Integer; width],
        }),
        vec![left, right],
    )
}

fn any_join(join_type: JoinType, left: LogicalPlan, right: LogicalPlan) -> LogicalPlan {
    LogicalPlan::synthetic(
        LogicalOperator::Join(Join::Any(AnyJoin {
            join_type,
            condition: boolean(true),
            mark_index: 0,
            left_projection_map: ProjectionMap::All,
            right_projection_map: ProjectionMap::All,
            build_side_constraint: JoinBuildSideConstraint::Free,
        })),
        vec![left, right],
    )
}

fn comparison_join(
    join_type: JoinType,
    comparison: JoinComparisonType,
    left: LogicalPlan,
    right: LogicalPlan,
    left_table: usize,
    right_table: usize,
) -> LogicalPlan {
    LogicalPlan::synthetic(
        LogicalOperator::Join(Join::Comparison(ComparisonJoin {
            join_type,
            conditions: vec![JoinCondition {
                left: column(left_table, 0),
                right: column(right_table, 0),
                comparison,
            }],
            left_projection_map: ProjectionMap::All,
            right_projection_map: ProjectionMap::All,
            duplicate_eliminated_columns: vec![],
            mark_index: 0,
            build_side_constraint: JoinBuildSideConstraint::Free,
        })),
        vec![left, right],
    )
}

fn count_nodes(plan: &LogicalPlan, wanted: &dyn Fn(&LogicalOperator) -> bool) -> usize {
    usize::from(wanted(&plan.operator))
        + plan
            .children
            .iter()
            .map(|child| count_nodes(child, wanted))
            .sum::<usize>()
}

#[test]
fn pushes_or_filter_into_materialized_cte_when_all_refs_are_filtered() {
    let plan = shared(
        10,
        CTEMaterialize::Default,
        1,
        values(1, &[1, 2]),
        filter(
            vec![compare(
                ComparisonType::GreaterThan,
                column(2, 0),
                integer(1),
            )],
            cte_ref(10, 2),
        ),
    );
    let columns = plan.get_column_bindings();

    let (optimized, changed) = CTEFilterPusher::new().optimize_default_root_with_change(plan);
    assert!(changed);
    assert_eq!(optimized.get_column_bindings(), columns);
    let (optimized, changed_again) =
        CTEFilterPusher::new().optimize_default_root_with_change(optimized);
    assert!(!changed_again);
    let LogicalOperator::MaterializedCTE(cte) = &optimized.operator else {
        panic!("expected materialized cte");
    };
    assert_eq!(cte.materialized, CTEMaterialize::Materialized);
    assert!(!matches!(
        &optimized.children[0].operator,
        LogicalOperator::ExpressionGet(_)
    ));
}

#[test]
fn an_unfiltered_read_keeps_the_definition() {
    let plan = shared(
        10,
        CTEMaterialize::Default,
        2,
        values(1, &[1, 2]),
        union(
            9,
            1,
            filter(vec![integer_equality(2, 0, 1)], cte_ref(10, 2)),
            cte_ref(10, 3),
        ),
    );
    let (kept, changed) = CTEFilterPusher::new().optimize_plan_with_change(plan);
    assert!(!changed);
    assert!(matches!(
        &kept.children[0].operator,
        LogicalOperator::ExpressionGet(_)
    ));
    let kept = CTEFilterPusher::new().optimize_plan(kept);
    assert!(matches!(
        &kept.children[0].operator,
        LogicalOperator::ExpressionGet(_)
    ));
}

fn volatile_filters_stay() {
    let references = vec![FilteredCTERef {
        old_bindings: vec![],
        filters: vec![compare(ComparisonType::GreaterThan, random(), random())],
    }];

    assert!(build_or_filter(&references, &vec![]).is_none());
    assert!(derive_producer_predicates(&references, &vec![]).is_none());
}

#[test]
fn filter_pusher_does_not_copy_volatile_filters_into_cte_producer() {
    volatile_filters_stay();
}

#[test]
fn predicate_domain_does_not_copy_volatile_filters_into_cte_producer() {
    volatile_filters_stay();
}

fn common_equalities() {
    let references = vec![
        FilteredCTERef {
            old_bindings: vec![ColumnBinding::new(2, 0), ColumnBinding::new(2, 1)],
            filters: vec![integer_equality(2, 0, 2001), integer_equality(2, 1, 1)],
        },
        FilteredCTERef {
            old_bindings: vec![ColumnBinding::new(3, 0), ColumnBinding::new(3, 1)],
            filters: vec![integer_equality(3, 0, 2002)],
        },
    ];
    let producer_bindings = vec![ColumnBinding::new(10, 0), ColumnBinding::new(10, 1)];

    let domain = build_common_equality_domain(&references, &producer_bindings)
        .expect("the first ordinal is constrained by every consumer");
    let Expression::Conjunction(disjunction) = domain else {
        panic!("two consumers must produce a disjunction");
    };
    assert_eq!(disjunction.conjunction_type, ConjunctionType::Or);
    assert_eq!(disjunction.children.len(), 2);
    for (predicate, expected_value) in disjunction.children.iter().zip([2001, 2002]) {
        let Expression::Comparison(comparison) = predicate else {
            panic!("one shared ordinal must produce one equality per consumer");
        };
        assert_eq!(comparison.comparison_type, ComparisonType::Equal);
        let Expression::ColumnRef(column) = &comparison.left else {
            panic!("normalized equality must retain its column on the left");
        };
        assert_eq!(column.binding, producer_bindings[0]);
        let Expression::Constant(constant) = &comparison.right else {
            panic!("normalized equality must retain its literal on the right");
        };
        assert!(constant.value.same(&Value::Integer(expected_value)));
    }
}

#[test]
fn filter_pusher_common_equality_domain_keeps_only_ordinals_constrained_by_every_consumer() {
    common_equalities();
}

#[test]
fn predicate_domain_common_equality_domain_keeps_only_ordinals_constrained_by_every_consumer() {
    common_equalities();
}

#[test]
fn the_disjunction_of_reads_is_rebound_to_the_definition() {
    let references = vec![
        FilteredCTERef {
            old_bindings: vec![ColumnBinding::new(2, 0)],
            filters: vec![integer_equality(2, 0, 1), integer_equality(2, 0, 1)],
        },
        FilteredCTERef {
            old_bindings: vec![ColumnBinding::new(3, 0)],
            filters: vec![integer_equality(3, 0, 2)],
        },
    ];
    let bindings = vec![ColumnBinding::new(10, 0)];
    let Some(Expression::Conjunction(either)) = build_or_filter(&references, &bindings) else {
        panic!("two reads make a disjunction");
    };
    assert_eq!(either.conjunction_type, ConjunctionType::Or);
    let Expression::Conjunction(both) = &either.children[0] else {
        panic!("several filters of one read make a conjunction");
    };
    assert_eq!(both.conjunction_type, ConjunctionType::And);
    let Expression::Comparison(comparison) = &either.children[1] else {
        panic!("a single filter stays as it is");
    };
    let Expression::ColumnRef(column) = &comparison.left else {
        panic!("a column");
    };
    assert_eq!(column.binding, bindings[0]);

    // A filter on a column that the read does not have cannot be moved.
    let foreign = vec![FilteredCTERef {
        old_bindings: vec![ColumnBinding::new(2, 0)],
        filters: vec![integer_equality(5, 0, 1)],
    }];
    assert!(build_or_filter(&foreign, &bindings).is_none());
}

#[test]
fn inline_single_reference_removes_materialized_cte() {
    let plan = shared(
        10,
        CTEMaterialize::Default,
        1,
        values(1, &[1, 2, 3]),
        filter(vec![column(2, 0)], cte_ref(10, 2)),
    );
    assert_eq!(inline_choice(&plan), InlineChoice::Move);
    let columns = plan.get_column_bindings();

    let optimized = CTEInlining::new(Prepared::new(vec![])).optimize_plan(plan);
    assert!(!matches!(
        optimized.operator,
        LogicalOperator::MaterializedCTE(_)
    ));
    assert_eq!(optimized.get_column_bindings(), columns);
    assert_eq!(count_cte_references(&optimized, 10), 0);
}

/// Hands out copies that were made before, in order.
struct Prepared {
    copies: std::collections::VecDeque<LogicalPlan>,
}

impl Prepared {
    fn new(copies: Vec<LogicalPlan>) -> Prepared {
        Prepared {
            copies: copies.into(),
        }
    }
}

impl PlanCopier for Prepared {
    fn deep_copy_plan(&mut self, plan: &LogicalPlan) -> LogicalPlan {
        let copy = self.copies.pop_front().expect("a copy for each read");
        assert_eq!(copy.types(), plan.types());
        copy
    }
}

fn projected_values(base: usize) -> LogicalPlan {
    projection(
        base + 2,
        vec![column(base, 0)],
        values(base, &[1, 2, 3]),
    )
}

#[test]
fn not_materialized_multi_ref_uses_deep_copy() {
    let plan = shared(
        10,
        CTEMaterialize::NotMaterialized,
        2,
        projected_values(1),
        LogicalPlan::synthetic(
            LogicalOperator::Join(Join::Cross(CrossProduct {
                build_side_constraint: JoinBuildSideConstraint::Free,
            })),
            vec![cte_ref(10, 4), cte_ref(10, 5)],
        ),
    );
    let InlineChoice::Copy { references } = inline_choice(&plan) else {
        panic!("both reads get a copy");
    };
    assert_eq!(references, 2);
    let columns = plan.get_column_bindings();

    let copies = vec![projected_values(20), projected_values(30)];
    let optimized = CTEInlining::new(Prepared::new(copies)).optimize_plan(plan);
    assert!(!matches!(
        optimized.operator,
        LogicalOperator::MaterializedCTE(_)
    ));
    assert_eq!(optimized.get_column_bindings(), columns);
    assert_eq!(count_cte_references(&optimized, 10), 0);
    let LogicalOperator::Projection(read) = &optimized.children[1].operator else {
        panic!("a read becomes a projection of its copy");
    };
    assert_eq!(read.table_index, 5);
    assert_eq!(
        optimized.children[1].children[0].get_column_bindings(),
        vec![ColumnBinding::new(32, 0)]
    );
}

#[test]
fn definitions_are_kept_dropped_or_moved() {
    let unread = shared(
        10,
        CTEMaterialize::Default,
        0,
        values(1, &[1]),
        values(2, &[1]),
    );
    assert_eq!(inline_choice(&unread), InlineChoice::Drop);
    assert!(matches!(
        try_inline(unread, vec![]).operator,
        LogicalOperator::ExpressionGet(_)
    ));
    let explicit = shared(
        10,
        CTEMaterialize::Materialized,
        1,
        values(1, &[1]),
        cte_ref(10, 2),
    );
    assert_eq!(inline_choice(&explicit), InlineChoice::Keep);
    assert!(matches!(
        try_inline(explicit, vec![]).operator,
        LogicalOperator::MaterializedCTE(_)
    ));
    let limited = LogicalPlan::synthetic(
        LogicalOperator::Limit(Limit {
            limit: Some(integer(3)),
            offset: None,
        }),
        vec![values(1, &[1])],
    );
    assert!(contains_limit(&limited));
    assert!(!contains_limit(&values(1, &[1])));
    assert!(!ends_in_aggregate_or_distinct(&limited));
    assert!(ends_in_aggregate_or_distinct(&LogicalPlan::synthetic(
        LogicalOperator::Distinct,
        vec![values(1, &[1])]
    )));
}

fn recursive(cte_index: usize, member: LogicalPlan) -> LogicalPlan {
    LogicalPlan::synthetic(
        LogicalOperator::RecursiveCTE(RecursiveCTE {
            cte_index,
            cte_name: "walk".to_string(),
            column_types: vec![LogicalType::Integer],
            union_all: true,
        }),
        vec![values(10, &[1]), member],
    )
}

#[test]
fn recursive_delta_is_the_probe_input_after_join_enumeration() {
    let cte_index = 7;
    let static_table_index = 11;
    let recursive_table_index = 12;
    let plan = recursive(
        cte_index,
        comparison_join(
            JoinType::Inner,
            JoinComparisonType::LessThan,
            values(static_table_index, &[1]),
            cte_ref(cte_index, recursive_table_index),
            static_table_index,
            recursive_table_index,
        ),
    );

    let normalized = normalize_iteration_ownership(plan).expect("normalize recursive member");
    let member = &normalized.children[1];
    let LogicalOperator::Join(Join::Comparison(join)) = &member.operator else {
        panic!("expected comparison join");
    };
    assert!(matches!(
        &member.children[0].operator,
        LogicalOperator::CTERef(reference) if reference.cte_index == cte_index
    ));
    assert!(matches!(
        &member.children[1].operator,
        LogicalOperator::ExpressionGet(_)
    ));
    assert_eq!(
        join.conditions[0].comparison,
        JoinComparisonType::GreaterThan
    );
    let Expression::ColumnRef(left) = &join.conditions[0].left else {
        panic!("expected left column reference");
    };
    assert_eq!(left.binding.table_index, recursive_table_index);
    assert_eq!(join.build_side_constraint, JoinBuildSideConstraint::Right);
}

#[test]
fn arbitrary_join_persists_recursive_build_ownership() {
    let plan = recursive(
        7,
        any_join(JoinType::Inner, values(11, &[1]), cte_ref(7, 12)),
    );

    let normalized = normalize_iteration_ownership(plan).unwrap();
    let member = &normalized.children[1];
    let LogicalOperator::Join(Join::Any(join)) = &member.operator else {
        panic!("expected arbitrary join");
    };
    assert!(matches!(
        member.children[0].operator,
        LogicalOperator::CTERef(_)
    ));
    assert_eq!(join.build_side_constraint, JoinBuildSideConstraint::Right);
}

#[test]
fn cross_product_persists_recursive_build_ownership() {
    let plan = recursive(
        7,
        LogicalPlan::synthetic(
            LogicalOperator::Join(Join::Cross(CrossProduct {
                build_side_constraint: JoinBuildSideConstraint::Free,
            })),
            vec![values(11, &[1]), cte_ref(7, 12)],
        ),
    );

    let normalized = normalize_iteration_ownership(plan).unwrap();
    let member = &normalized.children[1];
    let LogicalOperator::Join(Join::Cross(join)) = &member.operator else {
        panic!("expected cross product");
    };
    assert!(matches!(
        member.children[0].operator,
        LogicalOperator::CTERef(_)
    ));
    assert_eq!(join.build_side_constraint, JoinBuildSideConstraint::Right);
}

#[test]
fn a_member_that_cannot_stream_is_refused() {
    let twice = recursive(7, any_join(JoinType::Inner, cte_ref(7, 11), cte_ref(7, 12)));
    let error = normalize_iteration_ownership(twice).unwrap_err();
    assert_eq!(error.fault, IterationFault::ReferencedTwice);
    assert!(error.message().contains("walk"));

    let buried = recursive(
        7,
        any_join(JoinType::Left, values(11, &[1]), cte_ref(7, 12)),
    );
    let error = normalize_iteration_ownership(buried).unwrap_err();
    assert_eq!(error.fault, IterationFault::NotProbeInput);
    assert!(error.message().contains("walk"));
}

#[test]
fn orienting_a_member_again_changes_nothing() {
    let plan = || {
        recursive(
            7,
            comparison_join(
                JoinType::Inner,
                JoinComparisonType::LessThan,
                values(11, &[1]),
                cte_ref(7, 12),
                11,
                12,
            ),
        )
    };
    let once = normalize_iteration_ownership(plan()).unwrap();
    let seen = format!("{once:?}");
    assert_ne!(seen, format!("{:?}", plan()));
    let twice = normalize_iteration_ownership(once).unwrap();
    assert_eq!(format!("{twice:?}"), seen);
}

fn keyed_producer() -> LogicalPlan {
    let joined = comparison_join(
        JoinType::Inner,
        JoinComparisonType::Equal,
        values(1, &[1]),
        values(2, &[1]),
        1,
        2,
    );
    let grouped = LogicalPlan::synthetic(
        LogicalOperator::Aggregate(Aggregate {
            group_index: 3,
            aggregate_index: 4,
            groupings_index: 5,
            groups: vec![column(2, 0)],
            grouping_sets: vec![],
            aggregates: vec![],
            grouping_functions: 0,
            post_reduction: None,
        }),
        vec![joined],
    );
    projection(6, vec![column(3, 0)], grouped)
}

fn demand_join(reference: usize, table: usize, value: i32) -> LogicalPlan {
    comparison_join(
        JoinType::Inner,
        JoinComparisonType::Equal,
        cte_ref(9, reference),
        values(table, &[value]),
        reference,
        table,
    )
}

fn demand_plan() -> LogicalPlan {
    shared(
        9,
        CTEMaterialize::Default,
        2,
        keyed_producer(),
        union(14, 2, demand_join(10, 11, 1), demand_join(12, 13, 2)),
    )
}

#[test]
fn pushes_join_key_union_to_the_narrowest_group_key_owner() {
    let plan = demand_plan();
    let columns = plan.get_column_bindings();
    let sites = demand_sites(&plan).expect("every read is bounded").len();
    assert_eq!(sites, 2);
    let copies = vec![demand_join(20, 21, 1), demand_join(22, 23, 2)];

    let mut pusher = CTEDemandPusher::new(Prepared::new(copies));
    let mut indexes = TableIndexes { next: 100 };
    let (rewritten, changed) = pusher.optimize_default_root_with_change(plan, &mut indexes);
    assert!(changed, "{rewritten:#?}");
    assert_eq!(indexes.next, 103);
    assert_eq!(rewritten.get_column_bindings(), columns);
    let LogicalOperator::MaterializedCTE(cte) = &rewritten.operator else {
        panic!("expected materialized CTE")
    };
    assert_eq!(cte.materialized, CTEMaterialize::Materialized);

    let is_semi_join = |operator: &LogicalOperator| {
        matches!(
            operator,
            LogicalOperator::Join(Join::Comparison(join)) if join.join_type == JoinType::Semi
        )
    };
    let producer = &rewritten.children[0];
    assert_eq!(count_nodes(producer, &is_semi_join), 1, "{producer:#?}");
    // The second input of the producer's join owns the key.
    let join = &producer.children[0].children[0];
    assert!(is_semi_join(&join.children[1].operator));

    assert!(demand_sites(&rewritten).is_none());
    let (rewritten, changed_again) =
        pusher.optimize_default_root_with_change(rewritten, &mut indexes);
    assert!(!changed_again, "{rewritten:#?}");
    let (rewritten, changed_again) = push_current_cte(rewritten, vec![], &mut indexes);
    assert!(!changed_again, "{rewritten:#?}");
}

#[test]
fn an_unbounded_read_gives_no_demand() {
    let plan = shared(
        9,
        CTEMaterialize::Default,
        2,
        keyed_producer(),
        union(14, 2, demand_join(10, 11, 1), any_join(JoinType::Inner, cte_ref(9, 12), values(13, &[2]))),
    );
    assert!(demand_sites(&plan).is_none());

    let join = demand_join(10, 11, 1);
    assert_eq!(direct_cte_side(&join), Some((9, true)));
    assert!(constrains(&join));
    assert!(replay_safe_demand(&values(1, &[1])));
    let outer = comparison_join(
        JoinType::Left,
        JoinComparisonType::Equal,
        cte_ref(9, 10),
        values(11, &[1]),
        10,
        11,
    );
    assert!(!constrains(&outer));
    assert!(copy_join_demand(outer).is_none());
}

#[test]
fn demands_on_different_columns_do_not_combine() {
    let demand = |ordinal| JoinedDemand {
        key_ordinals: vec![ordinal],
        key_types: vec![LogicalType::Integer],
        plan: values(50 + ordinal, &[1]),
        expressions: vec![column(50 + ordinal, 0)],
    };
    let mut indexes = TableIndexes { next: 100 };
    assert!(build_demand_relation(vec![demand(0), demand(1)], &mut indexes).is_none());
    assert!(build_demand_relation(vec![], &mut indexes).is_none());
    assert_eq!(indexes.next, 100);
    let (ordinals, relation) =
        build_demand_relation(vec![demand(0), demand(0)], &mut indexes).unwrap();
    assert_eq!(ordinals, vec![0]);
    assert_eq!(indexes.next, 103);
    assert!(matches!(
        relation.operator,
        LogicalOperator::SetOperation(_)
    ));

    let (unchanged, pushed) = push_group_demand(values(1, &[1]), &vec![5], relation);
    assert!(!pushed);
    assert!(matches!(
        unchanged.operator,
        LogicalOperator::ExpressionGet(_)
    ));
}

/// A source of relation indices for building plans.
struct Indices(usize);

impl Indices {
    fn next(&mut self) -> usize {
        self.0 += 1;
        self.0
    }
}

fn branch(indices: &mut Indices, discriminator: i32) -> LogicalPlan {
    let source = indices.next();
    let table = indices.next();
    projection(
        table,
        vec![column(source, 0), integer(discriminator)],
        values(source, &[discriminator * 10]),
    )
}

fn reference(
    indices: &mut Indices,
    cte_index: usize,
    discriminator: i32,
    filtered: bool,
) -> LogicalPlan {
    reference_with_extra_filters(indices, cte_index, discriminator, filtered, vec![])
}

fn reference_with_extra_filters(
    indices: &mut Indices,
    cte_index: usize,
    discriminator: i32,
    filtered: bool,
    mut extra_filters: Vec<Expression>,
) -> LogicalPlan {
    let table = indices.next();
    let reference = cte_ref_of_width(cte_index, table, 2);
    if !filtered {
        return reference;
    }
    let mut filters = vec![integer_equality(table, 1, discriminator)];
    filters.append(&mut extra_filters);
    filter(filters, reference)
}

fn pair_union(indices: &mut Indices, left: LogicalPlan, right: LogicalPlan) -> LogicalPlan {
    union(indices.next(), 2, left, right)
}

fn branches(indices: &mut Indices) -> LogicalPlan {
    let first = branch(indices, 1);
    let second = branch(indices, 2);
    let both = pair_union(indices, first, second);
    let third = branch(indices, 3);
    pair_union(indices, both, third)
}

fn plan_with_consumers(
    indices: &mut Indices,
    build_consumers: impl FnOnce(&mut Indices, usize) -> LogicalPlan,
) -> LogicalPlan {
    let cte_index = indices.next();
    let producer = branches(indices);
    let consumers = build_consumers(indices, cte_index);
    shared(cte_index, CTEMaterialize::Default, 3, producer, consumers)
}

fn partition_plan(indices: &mut Indices, leave_last_unfiltered: bool) -> LogicalPlan {
    plan_with_consumers(indices, |indices, cte_index| {
        let first = reference(indices, cte_index, 1, true);
        let second = reference(indices, cte_index, 2, true);
        let both = pair_union(indices, first, second);
        let third = reference(indices, cte_index, 3, !leave_last_unfiltered);
        pair_union(indices, both, third)
    })
}

fn partition(plan: LogicalPlan) -> Option<LogicalPlan> {
    CTEPartitioner::new().optimize_default_root(plan, &mut TableIndexes { next: 1000 })
}

fn passthrough_projection(indices: &mut Indices, child: LogicalPlan) -> LogicalPlan {
    let expressions = child
        .get_column_bindings()
        .into_iter()
        .zip(child.types())
        .map(|(binding, return_type)| {
            Expression::ColumnRef(Arc::new(ColumnRefExpression {
                binding,
                depth: 0,
                return_type,
            }))
        })
        .collect();
    projection(indices.next(), expressions, child)
}

fn partition_owners(plan: &LogicalPlan, owners: &mut Vec<(bool, bool)>) {
    if let LogicalOperator::MaterializedCTE(cte) = &plan.operator {
        if cte.cte_name.contains("$partition") {
            owners.push((
                cte.materialized == CTEMaterialize::Materialized,
                matches!(plan.children[0].operator, LogicalOperator::SetOperation(_)),
            ));
        }
    }
    for child in &plan.children {
        partition_owners(child, owners);
    }
}

fn count_discriminators(e: &Expression, tables: &[usize]) -> usize {
    match e {
        Expression::ColumnRef(column) => usize::from(
            column.depth == 0
                && column.binding.column_index == 1
                && tables.contains(&column.binding.table_index),
        ),
        Expression::Comparison(comparison) => {
            count_discriminators(&comparison.left, tables)
                + count_discriminators(&comparison.right, tables)
        }
        Expression::Conjunction(conjunction) => conjunction
            .children
            .iter()
            .map(|child| count_discriminators(child, tables))
            .sum(),
        _ => 0,
    }
}

fn reference_tables(plan: &LogicalPlan, tables: &mut Vec<usize>) {
    if let LogicalOperator::CTERef(reference) = &plan.operator {
        tables.push(reference.table_index);
    }
    for child in &plan.children {
        reference_tables(child, tables);
    }
}

fn count_partition_discriminator_references(plan: &LogicalPlan, tables: &[usize]) -> usize {
    let own: usize = match &plan.operator {
        LogicalOperator::Filter(filter) => filter
            .expressions
            .iter()
            .map(|e| count_discriminators(e, tables))
            .sum(),
        LogicalOperator::Projection(projection) => projection
            .expressions
            .iter()
            .map(|e| count_discriminators(e, tables))
            .sum(),
        _ => 0,
    };
    own + plan
        .children
        .iter()
        .map(|child| count_partition_discriminator_references(child, tables))
        .sum::<usize>()
}

#[test]
fn publishes_complete_filtered_partition_materializations() {
    let mut indices = Indices(0);
    let candidate = partition_plan(&mut indices, false);
    let columns = candidate.get_column_bindings();
    let rewritten = partition(candidate).expect("partitioning should match");
    assert_eq!(rewritten.get_column_bindings(), columns);

    let mut owners = Vec::new();
    partition_owners(&rewritten, &mut owners);
    assert_eq!(owners.len(), 3, "{rewritten:#?}");
    assert!(owners.iter().all(|(materialized, _)| *materialized));
    assert!(owners.iter().all(|(_, contains_union)| !contains_union));
    let mut tables = Vec::new();
    reference_tables(&rewritten, &mut tables);
    assert_eq!(
        count_partition_discriminator_references(&rewritten, &tables),
        0
    );
    assert!(partition(rewritten).is_none());
}

#[test]
fn rejects_partitioning_when_any_reference_lacks_a_local_filter() {
    let mut indices = Indices(0);
    assert!(partition(partition_plan(&mut indices, true)).is_none());
}

#[test]
fn rejects_partitioning_when_a_producer_branch_has_no_reference() {
    let mut indices = Indices(0);
    let candidate = partition_plan(&mut indices, false);
    let LogicalPlan {
        stats,
        operator,
        mut children,
    } = candidate;
    let consumers = children.pop().unwrap();
    let producer = children.pop().unwrap();
    let fourth = branch(&mut indices, 4);
    let producer = pair_union(&mut indices, producer, fourth);
    let candidate = LogicalPlan {
        stats,
        operator,
        children: vec![producer, consumers],
    };

    assert!(recognize(&candidate).is_none());
    assert!(partition(candidate).is_none());
}

#[test]
fn null_supplying_join_input_contract_is_exhaustive() {
    assert_eq!(join_null_supplying_inputs(JoinType::Left), (false, true));
    assert_eq!(join_null_supplying_inputs(JoinType::Single), (false, true));
    assert_eq!(join_null_supplying_inputs(JoinType::Right), (true, false));
    assert_eq!(join_null_supplying_inputs(JoinType::Outer), (true, true));
    for join_type in [
        JoinType::Invalid,
        JoinType::Inner,
        JoinType::Semi,
        JoinType::Anti,
        JoinType::Mark,
        JoinType::RightSemi,
        JoinType::RightAnti,
    ] {
        assert_eq!(join_null_supplying_inputs(join_type), (false, false));
    }
}

#[test]
fn rejects_reference_on_outer_join_null_supplying_side_even_behind_projection() {
    let mut indices = Indices(0);
    let candidate = plan_with_consumers(&mut indices, |indices, cte_index| {
        let preserved = reference(indices, cte_index, 1, true);
        let second = reference(indices, cte_index, 2, true);
        let null_supplying = passthrough_projection(indices, second);
        let outer = any_join(JoinType::Left, preserved, null_supplying);
        any_join(
            JoinType::Inner,
            outer,
            reference(indices, cte_index, 3, true),
        )
    });

    assert!(
        partition(candidate).is_none(),
        "constant substitution must not depend on a projection shielding a null-extended binding"
    );
}

#[test]
fn permits_outer_join_when_every_reference_is_on_the_preserved_side() {
    let mut indices = Indices(0);
    let candidate = plan_with_consumers(&mut indices, |indices, cte_index| {
        let first = reference(indices, cte_index, 1, true);
        let second = reference(indices, cte_index, 2, true);
        let third = reference(indices, cte_index, 3, true);
        let references = any_join(
            JoinType::Inner,
            any_join(JoinType::Inner, first, second),
            third,
        );
        let unrelated = values(indices.next(), &[1]);
        any_join(JoinType::Left, references, unrelated)
    });

    assert!(partition(candidate).is_some());
}

#[test]
fn rejects_reference_on_scalar_dependent_join_nullable_rhs() {
    let mut indices = Indices(0);
    let candidate = plan_with_consumers(&mut indices, |indices, cte_index| {
        let first = reference(indices, cte_index, 1, true);
        let third = reference(indices, cte_index, 3, true);
        let preserved = any_join(JoinType::Inner, first, third);
        LogicalPlan::synthetic(
            LogicalOperator::DependentJoin(DependentJoinKind::Scalar),
            vec![preserved, reference(indices, cte_index, 2, true)],
        )
    });

    assert!(partition(candidate).is_none());
}

#[test]
fn rejects_an_incomplete_compound_recipe_without_an_error_channel() {
    let mut indices = Indices(0);
    let candidate = plan_with_consumers(&mut indices, |indices, cte_index| {
        let first = reference_with_extra_filters(
            indices,
            cte_index,
            1,
            true,
            vec![volatile_predicate()],
        );
        let second = reference(indices, cte_index, 2, true);
        let both = pair_union(indices, first, second);
        let third = reference(indices, cte_index, 3, true);
        pair_union(indices, both, third)
    });

    assert!(partition(candidate).is_none());
}

#[test]
fn a_constant_column_is_found_below_filters_and_renamings() {
    let mut indices = Indices(0);
    let plan = branch(&mut indices, 4);
    assert!(matches!(constant_output(&plan, 1), Some(Value::Integer(4))));
    assert!(constant_output(&plan, 0).is_none());
    assert!(constant_output(&plan, 2).is_none());
}

#[test]
fn inner_definitions_are_inlined_before_outer_ones() {
    let inner = shared(
        10,
        CTEMaterialize::Default,
        1,
        values(1, &[1, 2]),
        cte_ref(10, 2),
    );
    let outer = shared(
        11,
        CTEMaterialize::NotMaterialized,
        2,
        inner,
        LogicalPlan::synthetic(
            LogicalOperator::Join(Join::Cross(CrossProduct {
                build_side_constraint: JoinBuildSideConstraint::Free,
            })),
            vec![cte_ref(11, 3), cte_ref(11, 4)],
        ),
    );
    let copies = vec![projected_values(20), projected_values(30)];
    let optimized = CTEInlining::new(Prepared::new(copies)).optimize_plan(outer);
    assert!(matches!(
        optimized.operator,
        LogicalOperator::Join(Join::Cross(_))
    ));
    assert_eq!(count_cte_references(&optimized, 10), 0);
    assert_eq!(count_cte_references(&optimized, 11), 0);
}

#[test]
fn a_copy_that_bounds_nothing_changes_nothing() {
    let plan = demand_plan();
    let columns = plan.get_column_bindings();
    let copies = vec![comparison_join(
        JoinType::Left,
        JoinComparisonType::Equal,
        cte_ref(9, 20),
        values(21, &[1]),
        20,
        21,
    )];
    let mut indexes = TableIndexes { next: 100 };
    let (kept, changed) = CTEDemandPusher::new(Prepared::new(copies))
        .optimize_default_root_with_change(plan, &mut indexes);
    assert!(!changed);
    assert_eq!(indexes.next, 100);
    assert_eq!(kept.get_column_bindings(), columns);
}

#[test]
fn the_union_of_demands_holds_every_demand() {
    let demand = |table: usize, value: i32| JoinedDemand {
        plan: values(table, &[value]),
        expressions: vec![column(table, 0)],
        key_ordinals: vec![0],
        key_types: vec![LogicalType::Integer],
    };
    let mut indexes = TableIndexes { next: 100 };
    let (ordinals, relation) = build_demand_relation(
        vec![demand(1, 10), demand(2, 20), demand(3, 30)],
        &mut indexes,
    )
    .expect("the demands agree");
    assert_eq!(ordinals, vec![0]);
    assert_eq!(indexes.next, 105);

    let mut sources = Vec::new();
    let mut pending = vec![&relation];
    while let Some(plan) = pending.pop() {
        match &plan.operator {
            LogicalOperator::SetOperation(set) => {
                assert_eq!(set.setop_type, SetOpType::Union);
                assert!(set.setop_all);
            }
            LogicalOperator::Projection(_) => {}
            LogicalOperator::ExpressionGet(get) => sources.push(get.table_index),
            other => panic!("unexpected {other:?}"),
        }
        pending.extend(plan.children.iter());
    }
    sources.sort();
    assert_eq!(sources, vec![1, 2, 3]);
}

#[test]
fn deep_recursive_members_are_oriented() {
    const DEPTH: usize = 10_000;
    let mut member = any_join(JoinType::Inner, values(11, &[1]), cte_ref(7, 12));
    for _ in 0..DEPTH {
        member = LogicalPlan::synthetic(
            LogicalOperator::Limit(Limit {
                limit: None,
                offset: None,
            }),
            vec![member],
        );
    }
    let normalized = normalize_iteration_ownership(recursive(7, member)).unwrap();
    let mut member = &normalized.children[1];
    for _ in 0..DEPTH {
        member = &member.children[0];
    }
    assert!(matches!(
        member.children[0].operator,
        LogicalOperator::CTERef(_)
    ));
}

/// Puts new filters below the projection that they stand on.
struct BelowProjections {
    asked: usize,
}

impl FilterPushdown for BelowProjections {
    fn push_down(&mut self, plan: LogicalPlan) -> LogicalPlan {
        self.asked += 1;
        let mut filter = plan;
        assert!(matches!(filter.operator, LogicalOperator::Filter(_)));
        let mut projection = filter.children.pop().unwrap();
        filter.children.push(projection.children.pop().unwrap());
        projection.children.push(filter);
        projection
    }
}

#[test]
fn new_filters_are_pushed_down() {
    let plan = || {
        shared(
            10,
            CTEMaterialize::Default,
            1,
            projected_values(1),
            filter(vec![integer_equality(7, 0, 1)], cte_ref(10, 7)),
        )
    };
    let columns = plan().get_column_bindings();
    for at_root in [true, false] {
        let mut pushdown = BelowProjections { asked: 0 };
        let mut pusher = CTEFilterPusher::new();
        let (optimized, changed) = if at_root {
            pusher.optimize_default_root_with_pushdown(plan(), &mut pushdown)
        } else {
            pusher.optimize_plan_with_pushdown(plan(), &mut pushdown)
        };
        assert!(changed);
        assert_eq!(pushdown.asked, 1);
        assert_eq!(optimized.get_column_bindings(), columns);
        let definition = &optimized.children[0];
        assert!(matches!(
            definition.operator,
            LogicalOperator::Projection(_)
        ));
        assert!(matches!(
            definition.children[0].operator,
            LogicalOperator::Filter(_)
        ));
        let (again, changed_again) =
            pusher.optimize_default_root_with_pushdown(optimized, &mut pushdown);
        assert!(!changed_again);
        assert_eq!(pushdown.asked, 1);
        assert_eq!(again.get_column_bindings(), columns);
    }
}
