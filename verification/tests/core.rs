use std::sync::Arc;

use paro_optimizer::binding_map::BindingMap;
use paro_optimizer::domain::{domain_from_values, Domain, DomainValue, FiniteDomains};
use paro_optimizer::estimate::cardinality::{
    fallback_group_distinct, product_estimate, saturating_add_u64, saturating_mul_u64,
    saturating_sub_u64, sum_estimate,
};
use paro_optimizer::estimate::groups::{estimate_delim_rows, estimate_distinct_cardinality};
use paro_optimizer::estimate::selectivity::coordinates::CoordinateSet;
use paro_optimizer::estimate::selectivity::integral::{
    ordered_integral_value, IntegralInterval, IntegralRangeBound,
};
use paro_optimizer::estimate::selectivity::node_list::NodeList;
use paro_optimizer::expression::analysis::{contains_reorder_fence, extract_column_bindings};
use paro_optimizer::expression::equality::{finite_equality_domain, fixed_column_value};
use paro_optimizer::expression::substitution::{substitute, ColumnReplacement};
use paro_optimizer::expression::{
    CastExpression, ColumnRefExpression, ComparisonExpression, ConjunctionExpression,
    ConstantExpression, Expression, FunctionExpression, FunctionId, FunctionStability, Intrinsic,
};
use paro_optimizer::index_list::sorted_distinct;
use paro_optimizer::numeric::{key_of_value, type_of_value};
use paro_optimizer::operator::{
    ExpressionGet, Filter, LogicalOperator, OutputColumn, Projection, ProjectionMap,
};
use paro_optimizer::plan::{CardinalityEstimate, LogicalPlan};
use paro_optimizer::statistics::{ColumnStatistics, DistinctEvidence, DistinctProvenance};
use paro_optimizer::types::{ColumnBinding, ComparisonType, ConjunctionType, LogicalType};
use paro_optimizer::value::Value;

fn column(table_index: usize, column_index: usize) -> Expression {
    Expression::ColumnRef(Arc::new(ColumnRefExpression {
        binding: ColumnBinding::new(table_index, column_index),
        depth: 0,
        return_type: LogicalType::Integer,
    }))
}

fn integer(value: i32) -> Expression {
    Expression::Constant(Arc::new(ConstantExpression {
        value: Value::Integer(value),
        return_type: LogicalType::Integer,
    }))
}

fn equals(left: Expression, right: Expression) -> Expression {
    Expression::Comparison(Arc::new(ComparisonExpression {
        comparison_type: ComparisonType::Equal,
        left,
        right,
    }))
}

fn chain(conjunction_type: ConjunctionType, children: Vec<Expression>) -> Expression {
    Expression::Conjunction(Arc::new(ConjunctionExpression {
        conjunction_type,
        children,
    }))
}

#[test]
fn a_copy_shares_its_node() {
    let e = equals(column(1, 0), integer(3));
    let copy = e.copy();
    let (Expression::Comparison(a), Expression::Comparison(b)) = (&e, &copy) else {
        panic!("both are comparisons");
    };
    assert!(Arc::ptr_eq(a, b));
}

#[test]
fn binding_maps_keep_their_order() {
    let mut map = BindingMap::new();
    assert!(map.is_empty());
    map.insert(ColumnBinding::new(2, 0), 'c');
    map.insert(ColumnBinding::new(1, 5), 'b');
    map.insert(ColumnBinding::new(1, 2), 'a');
    map.insert(ColumnBinding::new(1, 5), 'd');
    assert_eq!(map.len(), 3);
    assert_eq!(map.entry(0), (ColumnBinding::new(1, 2), &'a'));
    assert_eq!(map.entry(1), (ColumnBinding::new(1, 5), &'d'));
    assert_eq!(map.entry(2), (ColumnBinding::new(2, 0), &'c'));
    assert_eq!(map.get(&ColumnBinding::new(2, 1)), None);
}

#[test]
fn domains_are_sets() {
    let mut a = Domain::new();
    a.insert(DomainValue::Integer(1));
    a.insert(DomainValue::String("x".to_string()));
    a.insert(DomainValue::Integer(1));
    assert_eq!(a.len(), 2);
    let b = Domain::singleton(DomainValue::Integer(1));
    assert!(a.contains(&DomainValue::Integer(1)));
    assert_eq!(a.intersection(&b).len(), 1);
    assert_eq!(a.union(&b).len(), 2);
    assert!(!a.is_disjoint(&b));
    assert!(b.is_disjoint(&Domain::singleton(DomainValue::Null)));
    let all = domain_from_values(&vec![Value::Integer(1), Value::BigInt(1)]).unwrap();
    assert_eq!(all.len(), 1, "integers of all widths are the same values");
    assert!(domain_from_values(&vec![Value::Double(0)]).is_none());

    let mut domains = FiniteDomains::new();
    domains.insert(ColumnBinding::new(1, 0), a);
    let mut more = FiniteDomains::new();
    more.insert(ColumnBinding::new(1, 0), b);
    domains.extend(&more);
    assert_eq!(domains.get(&ColumnBinding::new(1, 0)).unwrap().len(), 1);
}

#[test]
fn equalities_fix_columns() {
    let (binding, value) = fixed_column_value(&equals(integer(3), column(1, 0))).unwrap();
    assert_eq!(binding, ColumnBinding::new(1, 0));
    assert!(value.same(&Value::Integer(3)));
    assert!(fixed_column_value(&equals(column(1, 0), column(1, 1))).is_none());

    let either = chain(
        ConjunctionType::Or,
        vec![
            equals(column(1, 0), integer(3)),
            equals(column(1, 0), integer(4)),
            equals(column(1, 0), integer(3)),
        ],
    );
    let (_, values) = finite_equality_domain(&either).unwrap();
    assert_eq!(values.len(), 2);
    let mixed = chain(
        ConjunctionType::Or,
        vec![
            equals(column(1, 0), integer(3)),
            equals(column(1, 1), integer(4)),
        ],
    );
    assert!(finite_equality_domain(&mixed).is_none());
}

#[test]
fn columns_are_replaced_throughout() {
    let e = equals(
        Expression::Cast(Arc::new(CastExpression {
            child: column(1, 0),
            target_type: LogicalType::BigInt,
        })),
        column(2, 0),
    );
    let rebound = substitute(
        &e,
        &ColumnReplacement::Rebind(vec![(
            ColumnBinding::new(1, 0),
            ColumnBinding::new(7, 3),
        )]),
    );
    let mut bindings = Vec::new();
    extract_column_bindings(&rebound, &mut bindings);
    assert!(bindings.contains(&ColumnBinding::new(7, 3)));
    assert!(bindings.contains(&ColumnBinding::new(2, 0)));
    assert!(!bindings.contains(&ColumnBinding::new(1, 0)));
    assert_eq!(rebound.return_type(), e.return_type());
}

#[test]
fn volatile_functions_are_fences() {
    let call = |stability| {
        Expression::Function(Arc::new(FunctionExpression {
            function: FunctionId {
                id: 1,
                intrinsic: Intrinsic::Other,
            },
            stability,
            children: vec![column(1, 0)],
            return_type: LogicalType::Integer,
        }))
    };
    assert!(contains_reorder_fence(&vec![
        integer(1),
        equals(call(FunctionStability::Volatile), integer(1))
    ]));
    assert!(!contains_reorder_fence(&vec![
        integer(1),
        equals(call(FunctionStability::Stable), integer(1))
    ]));
}

#[test]
fn indices_are_sorted_once() {
    assert_eq!(sorted_distinct(&vec![3, 1, 3, 2]), vec![1, 2, 3]);
    assert!(sorted_distinct(&vec![]).is_empty());
}

#[test]
fn layouts_follow_projections() {
    let values = LogicalPlan::synthetic(
        LogicalOperator::ExpressionGet(ExpressionGet {
            table_index: 1,
            rows: vec![],
            types: vec![LogicalType::Integer, LogicalType::Varchar],
        }),
        vec![],
    );
    let filtered = LogicalPlan::synthetic(
        LogicalOperator::Filter(Filter {
            expressions: vec![],
            projection_map: ProjectionMap::Columns(vec![1, 0]),
        }),
        vec![values],
    );
    assert_eq!(
        filtered.get_column_bindings(),
        vec![ColumnBinding::new(1, 1), ColumnBinding::new(1, 0)]
    );
    assert_eq!(
        filtered.types(),
        vec![LogicalType::Varchar, LogicalType::Integer]
    );
    let projected = LogicalPlan::synthetic(
        LogicalOperator::Projection(Projection {
            table_index: 5,
            expressions: vec![integer(3)],
        }),
        vec![filtered],
    );
    assert_eq!(
        projected.output_layout().columns,
        vec![OutputColumn {
            binding: ColumnBinding::new(5, 0),
            logical_type: LogicalType::Integer,
        }]
    );
}

#[test]
fn coordinates_keep_the_order_of_values() {
    let of = |value| ordered_integral_value(&value).unwrap().coordinate;
    assert!(of(Value::Integer(-5)) < of(Value::Integer(3)));
    assert!(of(Value::HugeInt(i128::MIN)) < of(Value::HugeInt(0)));
    assert_eq!(of(Value::TinyInt(-128)), 0);
    assert!(ordered_integral_value(&Value::Null).is_none());
    assert!(
        ordered_integral_value(&Value::Decimal(1, 10, 2)).unwrap().domain
            != ordered_integral_value(&Value::Decimal(1, 10, 3)).unwrap().domain
    );
    let mut coordinates = CoordinateSet::new();
    coordinates.insert(4);
    coordinates.insert(4);
    coordinates.insert(5);
    assert_eq!(coordinates.len(), 2);
    assert!(coordinates.contains(5));
}

#[test]
fn intervals_narrow() {
    let mut interval = IntegralInterval::new(10, 19);
    interval.intersect(IntegralRangeBound::Lower { inclusive: false }, 11);
    interval.intersect(IntegralRangeBound::Upper { inclusive: true }, 14);
    assert_eq!(interval.counts(), (3, 10));
    interval.intersect(IntegralRangeBound::Lower { inclusive: true }, 15);
    assert_eq!(interval.counts().0, 0);
}

#[test]
fn numbers_lie_on_lines() {
    let double = |value: f64| key_of_value(&Value::Double(value.to_bits()));
    assert!(double(-1.0).unwrap().position < double(0.5).unwrap().position);
    assert!(double(f64::NAN).is_none());
    let float = |value: f32| key_of_value(&Value::Float(value.to_bits()));
    assert!(float(-1.0).unwrap().position < float(0.5).unwrap().position);
    assert!(
        float(1.0).unwrap().line != double(1.0).unwrap().line,
        "floats and doubles lie on different lines"
    );
    assert_eq!(type_of_value(&Value::Date(1)), LogicalType::Date);
}

#[test]
fn node_lists_outgrow_their_inline_space() {
    let mut list = NodeList::new();
    for node in 0..20 {
        list.push(node, 1);
    }
    list.set(3, 3, 7);
    assert_eq!(list.len(), 20);
    assert_eq!(list.inline_size(), 8);
    assert_eq!(list.get(3), (3, 7));
    assert_eq!(list.to_vec()[19], (19, 1));
}

#[test]
fn row_counts_saturate() {
    assert_eq!(saturating_mul_u64(u64::MAX, 2), u64::MAX);
    assert_eq!(saturating_add_u64(u64::MAX, 1), u64::MAX);
    assert_eq!(saturating_sub_u64(1, 2), 0);
    let huge = CardinalityEstimate::exact(u64::MAX);
    assert_eq!(product_estimate(huge, huge), huge);
    assert_eq!(sum_estimate(huge, huge), huge);
    assert!(fallback_group_distinct(35) > 1 && fallback_group_distinct(35) < 35);
}

#[test]
fn distinct_rows_multiply_known_counts() {
    let mut columns = BindingMap::new();
    columns.insert(
        ColumnBinding::new(1, 0),
        ColumnStatistics {
            distinct: DistinctEvidence {
                point: 4,
                provenance: DistinctProvenance::Observed,
                ..DistinctEvidence::default()
            },
            ..ColumnStatistics::create_unknown(LogicalType::Integer)
        },
    );
    let output = vec![OutputColumn {
        binding: ColumnBinding::new(1, 0),
        logical_type: LogicalType::Integer,
    }];
    assert_eq!(
        estimate_distinct_cardinality(&output, &columns, CardinalityEstimate::exact(100)),
        CardinalityEstimate {
            min: 2,
            expected: 4,
            max: 8,
        }
    );
    assert_eq!(
        estimate_delim_rows(&vec![4, 5], CardinalityEstimate::exact(100)),
        CardinalityEstimate {
            min: 10,
            expected: 20,
            max: 40,
        }
    );
}
