use std::sync::Arc;

use paro_optimizer::binding_map::BindingMap;
use paro_optimizer::cost::row_fetch::late_row_fetch;
use paro_optimizer::cost_model::{
    estimate_range_selectivity, AtomicEstimate, ConjunctionSelectivity, CostModel,
    FilterSelectivity, PredicateSelectivity,
};
use paro_optimizer::estimate::selectivity::conjunction::ConjunctionTerm;
use paro_optimizer::estimate::selectivity::filter::{
    cardinality_from_selectivity, group_terms, relation_is_proven, SelectedRows,
};
use paro_optimizer::estimate::selectivity::formula::{DefaultSelectivity, Membership};
use paro_optimizer::estimate::selectivity::like::WildcardLikePattern;
use paro_optimizer::estimate::selectivity::range::RangeMeasure;
use paro_optimizer::expression::{
    ColumnRefExpression, ComparisonExpression, ConjunctionExpression, ConstantExpression,
    Expression, FunctionExpression, FunctionId, FunctionStability, Intrinsic, OperatorExpression,
    ReferenceExpression,
};
use paro_optimizer::plan::CardinalityEstimate;
use paro_optimizer::statistics::{ColumnStatistics, DistinctEvidence, DistinctProvenance};
use paro_optimizer::types::{
    ColumnBinding, ComparisonType, ConjunctionType, LogicalType, OperatorType,
};
use paro_optimizer::value::Value;

const MIN_SELECTIVITY: f64 = 0.000_001;

type Columns = BindingMap<ColumnStatistics>;

#[derive(Clone, Copy)]
struct Defaults {
    equality: f64,
    range: f64,
    predicate: f64,
    like_prefix: f64,
    like_contains: f64,
    fulltext_match: f64,
    vector_topk_fraction: f64,
    is_not_null: f64,
}

fn cost_defaults() -> Defaults {
    Defaults {
        equality: 0.1,
        range: 0.3,
        predicate: 0.75,
        like_prefix: 0.25,
        like_contains: 0.05,
        fulltext_match: 0.1,
        vector_topk_fraction: 0.001,
        is_not_null: 0.9,
    }
}

impl Defaults {
    fn get(&self, default: DefaultSelectivity) -> f64 {
        match default {
            DefaultSelectivity::Equality => self.equality,
            DefaultSelectivity::Range => self.range,
            DefaultSelectivity::Predicate => self.predicate,
            DefaultSelectivity::FullTextMatch => self.fulltext_match,
            DefaultSelectivity::VectorTopK => self.vector_topk_fraction,
            DefaultSelectivity::IsNotNull => self.is_not_null,
        }
    }

    fn wildcard(&self, pattern: WildcardLikePattern) -> f64 {
        let base = match (pattern.anchored_start, pattern.anchored_end) {
            (true, false) => self.like_prefix,
            (true, true) => self.like_prefix.min(self.like_contains),
            _ => self.like_contains,
        };
        let remaining = if pattern.literal_fragments >= 64 {
            0.0
        } else {
            0.5f64.powi(pattern.literal_fragments as i32)
        };
        base.powf(2.0 * (1.0 - remaining))
    }

    fn membership(&self, membership: Membership) -> f64 {
        match membership {
            Membership::Unknown => self.predicate,
            Membership::Probes {
                probes,
                distinct: None,
            } => clamp(self.equality * probes as f64),
            Membership::Probes {
                probes,
                distinct: Some(distinct),
            } => clamp((probes as f64 / distinct as f64).max(MIN_SELECTIVITY)),
        }
    }

    fn atomic(&self, atomic: &AtomicEstimate) -> Estimate {
        Estimate::estimated(match atomic {
            AtomicEstimate::Proven { passes } => {
                return Estimate::proven(if *passes { 1.0 } else { 0.0 });
            }
            AtomicEstimate::Default(default) => self.get(*default),
            AtomicEstimate::DefaultComplement(default) => 1.0 - self.get(*default),
            AtomicEstimate::OneIn(n) => (1.0 / *n as f64).max(MIN_SELECTIVITY),
            AtomicEstimate::AllButOneIn(n) => {
                (1.0 - (1.0 / *n as f64)).clamp(MIN_SELECTIVITY, 1.0)
            }
            AtomicEstimate::Share { matching, domain } => *matching as f64 / *domain as f64,
            AtomicEstimate::Continuous {
                minimum,
                maximum,
                constant,
                comparison,
            } => continuous(float(minimum), float(maximum), float(constant), *comparison)
                .unwrap_or(self.range),
            AtomicEstimate::EveryText => 1.0,
            AtomicEstimate::Wildcard(pattern) => self.wildcard(*pattern),
            AtomicEstimate::Member(membership) => self.membership(*membership),
            AtomicEstimate::NonMember(membership) => 1.0 - self.membership(*membership),
        })
    }

    fn evaluate(&self, selectivity: &PredicateSelectivity) -> Estimate {
        match selectivity {
            PredicateSelectivity::Atomic(atomic) => self.atomic(atomic),
            PredicateSelectivity::And(conjoined) => self.conjoined(conjoined),
            PredicateSelectivity::Or(parts) => {
                disjunction(parts.iter().map(|part| self.evaluate(part)))
            }
            PredicateSelectivity::Not(part) => self.evaluate(part).complement(),
        }
    }

    fn conjoined(&self, conjoined: &ConjunctionSelectivity) -> Estimate {
        column_aware(
            conjoined
                .terms
                .iter()
                .map(|term| match term {
                    ConjunctionTerm::Input { node, binding, .. } => {
                        (self.evaluate(&conjoined.conditions[*node]), *binding)
                    }
                    ConjunctionTerm::Share {
                        matching,
                        domain,
                        column,
                    } => (
                        Estimate::estimated(*matching as f64 / *domain as f64),
                        Some(*column),
                    ),
                })
                .collect(),
        )
    }

    fn selectivity(&self, e: &Expression, columns: &Columns) -> f64 {
        self.evaluate(&CostModel::new().estimate_selectivity(e, columns))
            .fraction
    }

    fn rows(
        &self,
        base: u64,
        expressions: &Vec<Expression>,
        columns: &Columns,
    ) -> CardinalityEstimate {
        self.finish(
            base,
            CostModel::new().estimate_filter_cardinality(base, expressions, columns),
        )
    }

    fn finish(&self, base: u64, selectivity: FilterSelectivity) -> CardinalityEstimate {
        match selectivity {
            FilterSelectivity::Exact(rows) => rows,
            FilterSelectivity::Scaled(conjoined) => {
                let combined = self.conjoined(&conjoined);
                cardinality_from_selectivity(
                    base,
                    selected(base, combined.fraction),
                    combined.proven && combined.fraction == 0.0,
                )
            }
        }
    }
}

fn selected(base: u64, selectivity: f64) -> SelectedRows {
    let rows = base as f64;
    SelectedRows {
        low: (rows * (selectivity * 0.5).clamp(0.0, 1.0)).floor() as u64,
        nearest: (rows * selectivity).round() as u64,
        high: (rows * (selectivity * 1.5).clamp(0.0, 1.0)).ceil() as u64,
    }
}

#[derive(Clone, Copy, Debug)]
struct Estimate {
    fraction: f64,
    proven: bool,
}

impl Estimate {
    fn proven(fraction: f64) -> Estimate {
        Estimate {
            fraction: clamp(fraction),
            proven: true,
        }
    }

    fn estimated(fraction: f64) -> Estimate {
        Estimate {
            fraction: clamp(fraction).max(MIN_SELECTIVITY),
            proven: false,
        }
    }

    fn with_proof(fraction: f64, proven: bool) -> Estimate {
        if proven {
            Estimate::proven(fraction)
        } else {
            Estimate::estimated(fraction)
        }
    }

    fn complement(self) -> Estimate {
        Estimate::with_proof(1.0 - self.fraction, self.proven)
    }
}

fn clamp(value: f64) -> f64 {
    if value.is_finite() {
        value.clamp(0.0, 1.0)
    } else {
        1.0
    }
}

fn conjunction(estimates: impl Iterator<Item = Estimate>) -> Estimate {
    let mut fraction = 1.0;
    let mut proven = true;
    for estimate in estimates {
        if estimate.proven && estimate.fraction == 0.0 {
            return Estimate::proven(0.0);
        }
        fraction *= estimate.fraction;
        proven &= estimate.proven;
    }
    Estimate::with_proof(fraction, proven)
}

fn disjunction(estimates: impl Iterator<Item = Estimate>) -> Estimate {
    let mut missed = 1.0;
    let mut proven = true;
    for estimate in estimates {
        if estimate.proven && estimate.fraction == 1.0 {
            return Estimate::proven(1.0);
        }
        missed *= 1.0 - estimate.fraction;
        proven &= estimate.proven;
    }
    Estimate::with_proof(1.0 - missed, proven)
}

fn column_aware(terms: Vec<(Estimate, Option<ColumnBinding>)>) -> Estimate {
    for (estimate, _) in &terms {
        if estimate.proven && estimate.fraction == 0.0 {
            return Estimate::proven(0.0);
        }
    }
    let groups = group_terms(&terms.iter().map(|(_, binding)| *binding).collect());
    let mut independent = groups
        .independent
        .iter()
        .map(|term| terms[*term].0)
        .collect::<Vec<_>>();
    for columns in &groups.relations {
        let mut estimates = columns
            .iter()
            .map(|column| {
                conjunction(
                    groups.columns[*column]
                        .iter()
                        .map(|position| terms[groups.bound[*position]].0),
                )
            })
            .collect::<Vec<_>>();
        estimates.sort_by(|left, right| left.fraction.total_cmp(&right.fraction));
        let proven = relation_is_proven(&estimates.iter().map(|e| e.proven).collect());
        let mut exponent = 1.0;
        let mut fraction = 1.0;
        for estimate in estimates {
            fraction *= estimate.fraction.powf(exponent);
            exponent *= 0.5;
        }
        independent.push(Estimate::with_proof(fraction, proven));
    }
    conjunction(independent.into_iter())
}

fn float(value: &Value) -> f64 {
    match value {
        Value::Double(bits) => f64::from_bits(*bits),
        Value::Float(bits) => f32::from_bits(*bits) as f64,
        _ => panic!("no floating-point number"),
    }
}

fn continuous(
    minimum: f64,
    maximum: f64,
    constant: f64,
    comparison: ComparisonType,
) -> Option<f64> {
    if minimum == maximum {
        return Some(f64::from(match comparison {
            ComparisonType::LessThan => minimum < constant,
            ComparisonType::LessThanOrEqual => minimum <= constant,
            ComparisonType::GreaterThan => minimum > constant,
            ComparisonType::GreaterThanOrEqual => minimum >= constant,
            _ => return None,
        } as u8));
    }
    let below = ((constant - minimum) / (maximum - minimum)).clamp(0.0, 1.0);
    Some(match comparison {
        ComparisonType::LessThan | ComparisonType::LessThanOrEqual => below,
        ComparisonType::GreaterThan | ComparisonType::GreaterThanOrEqual => 1.0 - below,
        _ => return None,
    })
}

fn column(binding: ColumnBinding, return_type: LogicalType) -> Expression {
    Expression::ColumnRef(Arc::new(ColumnRefExpression {
        binding,
        depth: 0,
        return_type,
    }))
}

fn constant(value: Value, return_type: LogicalType) -> Expression {
    Expression::Constant(Arc::new(ConstantExpression { value, return_type }))
}

fn compare(comparison_type: ComparisonType, left: Expression, right: Expression) -> Expression {
    Expression::Comparison(Arc::new(ComparisonExpression {
        comparison_type,
        left,
        right,
    }))
}

fn chain(conjunction_type: ConjunctionType, children: Vec<Expression>) -> Expression {
    Expression::Conjunction(Arc::new(ConjunctionExpression {
        conjunction_type,
        children,
    }))
}

fn operator(operator_type: OperatorType, children: Vec<Expression>) -> Expression {
    Expression::Operator(Arc::new(OperatorExpression {
        operator_type,
        children,
        return_type: LogicalType::Boolean,
    }))
}

fn integer_comparison(
    comparison_type: ComparisonType,
    binding: ColumnBinding,
    value: i32,
) -> Expression {
    compare(
        comparison_type,
        column(binding, LogicalType::Integer),
        constant(Value::Integer(value), LogicalType::Integer),
    )
}

fn like(pattern: &str) -> Expression {
    like_on(ColumnBinding::new(1, 0), pattern)
}

fn like_on(binding: ColumnBinding, pattern: &str) -> Expression {
    operator(
        OperatorType::Like,
        vec![
            column(binding, LogicalType::Varchar),
            constant(Value::Varchar(pattern.to_string()), LogicalType::Varchar),
        ],
    )
}

fn negated(e: Expression) -> Expression {
    operator(OperatorType::Not, vec![e])
}

fn boolean(value: bool) -> Expression {
    constant(Value::Boolean(value), LogicalType::Boolean)
}

fn no_columns() -> Columns {
    BindingMap::new()
}

fn known(entries: Vec<(ColumnBinding, ColumnStatistics)>) -> Columns {
    let mut columns = BindingMap::new();
    for (binding, statistics) in entries {
        columns.insert(binding, statistics);
    }
    columns
}

fn bounded(logical_type: LogicalType, minimum: Value, maximum: Value) -> ColumnStatistics {
    ColumnStatistics {
        minimum: Some(minimum),
        maximum: Some(maximum),
        ..ColumnStatistics::create_unknown(logical_type)
    }
}

fn distinct(logical_type: LogicalType, point: u64, provenance: DistinctProvenance) -> ColumnStatistics {
    ColumnStatistics {
        distinct: DistinctEvidence {
            point,
            provenance,
            ..DistinctEvidence::default()
        },
        ..ColumnStatistics::create_unknown(logical_type)
    }
}

fn measure(statistics: &ColumnStatistics, value: Value, comparison: ComparisonType) -> Option<f64> {
    match estimate_range_selectivity(statistics, &value, comparison) {
        RangeMeasure::Share { matching, domain } => Some(matching as f64 / domain as f64),
        RangeMeasure::Unknown => None,
        other => panic!("unexpected measure {other:?}"),
    }
}

/// The benefit of fetching a payload later, with text of 32 bytes, row
/// identities of eight, a startup of 4096 and a fourfold price of fetching.
fn late_row_fetch_benefit(carrier_rows: u64, fetched_rows: u64, stages: usize) -> Option<f64> {
    let fetch = late_row_fetch(carrier_rows, fetched_rows, &vec![32], stages)?;
    let carrier_work = fetch.carrier_rows as f64 * fetch.carrier_stages as f64;
    let eager = carrier_work * fetch.payload_width as f64;
    let late =
        carrier_work * 8.0 + fetch.fetched_rows as f64 * fetch.payload_width as f64 * 4.0 + 4096.0;
    let benefit = eager - late;
    (benefit > 0.0).then_some(benefit)
}

#[test]
fn cost_model_sparse_fetch_requires_enough_work_to_amortize_its_frontier() {
    assert!(late_row_fetch_benefit(1, 1, 8).is_none());
    assert!(late_row_fetch_benefit(100_000, 100, 3).is_some());
}

#[test]
fn cost_model_estimate_filter_cardinality_preserves_empty_predicates() {
    let model = cost_defaults();
    let estimate = model.rows(42, &Vec::new(), &no_columns());
    assert_eq!(estimate, CardinalityEstimate::exact(42));
    assert_eq!(
        model.rows(0, &vec![boolean(true)], &no_columns()),
        CardinalityEstimate::exact(0)
    );
}

#[test]
fn cost_model_constant_false_selectivity_is_zero() {
    assert_eq!(
        cost_defaults().selectivity(&boolean(false), &no_columns()),
        0.0
    );
}

#[test]
fn cost_model_comparison_without_stats_uses_default_equality_selectivity() {
    let e = integer_comparison(ComparisonType::Equal, ColumnBinding::new(1, 0), 7);
    assert_eq!(
        cost_defaults().selectivity(&e, &no_columns()),
        cost_defaults().equality
    );
}

#[test]
fn cost_model_integral_range_selectivity_uses_bounds_and_preserves_orientation() {
    let model = cost_defaults();
    let binding = ColumnBinding::new(1, 0);
    let columns = known(vec![(
        binding,
        bounded(LogicalType::Date, Value::Date(0), Value::Date(100)),
    )]);
    let date = || column(binding, LogicalType::Date);
    let limit = || constant(Value::Date(90), LogicalType::Date);
    let upper_bound = compare(ComparisonType::LessThanOrEqual, date(), limit());
    let reversed = compare(ComparisonType::GreaterThanOrEqual, limit(), date());

    let expected = 91.0 / 101.0;
    assert_eq!(model.selectivity(&upper_bound, &columns), expected);
    assert_eq!(model.selectivity(&reversed, &columns), expected);
}

#[test]
fn cost_model_integral_range_selectivity_handles_domain_boundaries() {
    let statistics = bounded(LogicalType::Integer, Value::Integer(10), Value::Integer(20));
    assert_eq!(
        measure(
            &statistics,
            Value::Integer(9),
            ComparisonType::LessThanOrEqual
        ),
        Some(0.0)
    );
    assert_eq!(
        measure(
            &statistics,
            Value::Integer(21),
            ComparisonType::GreaterThanOrEqual,
        ),
        Some(0.0)
    );
    assert_eq!(
        measure(
            &statistics,
            Value::Integer(20),
            ComparisonType::LessThanOrEqual
        ),
        Some(1.0)
    );
}

#[test]
fn cost_model_conjunction_coalesces_bounds_on_the_same_integral_column() {
    let model = cost_defaults();
    let binding = ColumnBinding::new(1, 0);
    let columns = known(vec![(
        binding,
        bounded(LogicalType::Integer, Value::Integer(0), Value::Integer(9)),
    )]);
    let e = chain(
        ConjunctionType::And,
        vec![
            integer_comparison(ComparisonType::GreaterThanOrEqual, binding, 2),
            integer_comparison(ComparisonType::LessThan, binding, 5),
        ],
    );

    assert_eq!(model.selectivity(&e, &columns), 0.3);
    assert_eq!(model.rows(64, &vec![e], &columns).expected, 19);
}

#[test]
fn cost_model_conjunction_dampens_only_distinct_columns_within_one_relation() {
    let model = cost_defaults();
    let size_binding = ColumnBinding::new(1, 0);
    let type_binding = ColumnBinding::new(1, 1);
    let distinct_values = 50;
    let columns = known(vec![(
        size_binding,
        distinct(
            LogicalType::Integer,
            distinct_values,
            DistinctProvenance::Observed,
        ),
    )]);
    let unequal =
        |value| integer_comparison(ComparisonType::NotEqual, size_binding, value);
    let suffix = like_on(type_binding, "%BRASS");

    let same_column = (1.0 - 1.0 / distinct_values as f64).powi(2);
    let expected = model.like_contains * same_column.sqrt();
    let actual = model
        .rows(
            200_000,
            &vec![unequal(14), unequal(16), suffix],
            &columns,
        )
        .expected;
    assert_eq!(actual, (200_000.0 * expected).round() as u64);
}

#[test]
fn cost_model_conjunction_keeps_different_relations_independent() {
    let model = cost_defaults();
    let equality = |table_index| {
        integer_comparison(
            ComparisonType::Equal,
            ColumnBinding::new(table_index, 0),
            1,
        )
    };
    assert_eq!(
        model
            .rows(10_000, &vec![equality(1), equality(2)], &no_columns())
            .expected,
        100
    );
}

#[test]
fn cost_model_integral_range_selectivity_rejects_mixed_types_and_decimal_scales() {
    let integers = bounded(LogicalType::Integer, Value::Integer(10), Value::Integer(20));
    assert_eq!(
        measure(
            &integers,
            Value::BigInt(15),
            ComparisonType::LessThanOrEqual
        ),
        None
    );

    let decimals = bounded(
        LogicalType::Decimal {
            precision: 10,
            scale: 2,
        },
        Value::Decimal(1_000, 10, 2),
        Value::Decimal(2_000, 10, 2),
    );
    assert_eq!(
        measure(
            &decimals,
            Value::Decimal(1_500, 10, 3),
            ComparisonType::LessThanOrEqual,
        ),
        None
    );
}

#[test]
fn cost_model_like_selectivity_distinguishes_pattern_shapes() {
    let model = cost_defaults();
    assert_eq!(model.like_prefix, 0.25);
    let of = |pattern: &str| model.selectivity(&like(pattern), &no_columns());
    assert_eq!(of("green"), 0.1);
    assert_eq!(of("green%"), model.like_prefix);
    assert_eq!(of("%green"), 0.05);
    assert_eq!(of("%green%"), 0.05);
    assert_eq!(of("%Customer%Complaints%"), 0.05f64.powf(1.5));
    assert_eq!(
        of("%%green%"),
        of("%green%"),
        "consecutive percent wildcards do not change the pattern language"
    );
    assert!(of("%a%b") <= of("%b"));
    assert!(of("a%b%") <= of("a%"));
    assert!(of("a%b%c") <= of("%b%"));
    assert_eq!(of("%"), 1.0);
    assert_eq!(of("gr_en%"), 0.75);

    assert_eq!(
        model.selectivity(&negated(like("%green%")), &no_columns()),
        0.95
    );
    assert_eq!(
        model.selectivity(&negated(like("%")), &no_columns()),
        MIN_SELECTIVITY
    );
}

#[test]
fn cost_model_only_proven_false_predicates_receive_zero_selectivity() {
    let model = cost_defaults();
    let estimated_zero = chain(
        ConjunctionType::And,
        vec![negated(like("%")), boolean(true)],
    );
    let proven_zero = chain(
        ConjunctionType::And,
        vec![estimated_zero.copy(), boolean(false)],
    );

    assert_eq!(
        model.selectivity(&estimated_zero, &no_columns()),
        MIN_SELECTIVITY
    );
    assert_eq!(model.selectivity(&proven_zero, &no_columns()), 0.0);
    assert_eq!(
        model
            .rows(42, &vec![estimated_zero], &no_columns())
            .expected,
        1
    );
    assert_eq!(
        model.rows(42, &vec![proven_zero], &no_columns()),
        CardinalityEstimate::exact(0)
    );
}

#[test]
fn cost_model_exponential_damping_never_claims_a_proven_bound() {
    let estimate = column_aware(vec![
        (Estimate::proven(0.1), Some(ColumnBinding::new(7, 0))),
        (Estimate::proven(0.2), Some(ColumnBinding::new(7, 1))),
    ]);

    assert!(!estimate.proven);
    assert!((estimate.fraction - (0.1 * 0.2_f64.sqrt())).abs() < f64::EPSILON);
}

#[test]
fn cost_model_exact_like_uses_column_distinct_count() {
    let model = cost_defaults();
    let binding = ColumnBinding::new(1, 0);
    let columns = known(vec![(
        binding,
        distinct(LogicalType::Varchar, 100, DistinctProvenance::Observed),
    )]);
    assert_eq!(model.selectivity(&like("green"), &columns), 1.0 / 100.0);
}

#[test]
fn a_column_of_an_outer_query_keeps_its_statistics() {
    let binding = ColumnBinding::new(1, 0);
    let columns = known(vec![(
        binding,
        distinct(LogicalType::Integer, 50, DistinctProvenance::Observed),
    )]);
    let outer = Expression::ColumnRef(Arc::new(ColumnRefExpression {
        binding,
        depth: 1,
        return_type: LogicalType::Integer,
    }));
    let e = compare(
        ComparisonType::Equal,
        outer,
        constant(Value::Integer(3), LogicalType::Integer),
    );
    assert_eq!(cost_defaults().selectivity(&e, &columns), 0.02);
}

#[test]
fn repeated_alternatives_are_independent() {
    let model = cost_defaults();
    let e = integer_comparison(ComparisonType::Equal, ColumnBinding::new(1, 0), 7);
    let either = chain(ConjunctionType::Or, vec![e.copy(), e]);
    assert_eq!(
        model.selectivity(&either, &no_columns()),
        1.0 - 0.9 * 0.9
    );
}

#[test]
fn every_kind_of_predicate_has_its_default() {
    let model = cost_defaults();
    let text = || column(ColumnBinding::new(1, 0), LogicalType::Varchar);
    let of = |e: Expression| model.selectivity(&e, &no_columns());
    assert_eq!(of(operator(OperatorType::IsNull, vec![text()])), 1.0 - 0.9);
    assert_eq!(of(operator(OperatorType::IsNotNull, vec![text()])), 0.9);
    assert_eq!(of(operator(OperatorType::In, vec![])), 0.75);
    assert_eq!(of(operator(OperatorType::In, vec![text()])), 0.1);
    assert_eq!(
        of(operator(
            OperatorType::NotIn,
            vec![
                text(),
                constant(Value::Varchar("a".to_string()), LogicalType::Varchar),
                constant(Value::Varchar("b".to_string()), LogicalType::Varchar),
            ]
        )),
        1.0 - 0.2
    );
    assert_eq!(of(operator(OperatorType::Not, vec![])), 0.75);
    assert_eq!(of(text()), 0.75);
    let call = |intrinsic| {
        Expression::Function(Arc::new(FunctionExpression {
            function: FunctionId { id: 1, intrinsic },
            stability: FunctionStability::Stable,
            children: vec![],
            return_type: LogicalType::Boolean,
        }))
    };
    assert_eq!(of(call(Intrinsic::FullText)), 0.1);
    assert_eq!(of(call(Intrinsic::VectorDistance)), 0.001);
    assert_eq!(of(call(Intrinsic::Other)), 0.75);
    assert_eq!(
        of(operator(
            OperatorType::ILike,
            vec![
                text(),
                constant(Value::Varchar("green".to_string()), LogicalType::Varchar),
            ]
        )),
        0.1
    );
}

#[test]
fn case_folding_ignores_the_distinct_count() {
    let binding = ColumnBinding::new(1, 0);
    let columns = known(vec![(
        binding,
        distinct(LogicalType::Varchar, 100, DistinctProvenance::Observed),
    )]);
    let matched = |operator_type| {
        operator(
            operator_type,
            vec![
                column(binding, LogicalType::Varchar),
                constant(Value::Varchar("green".to_string()), LogicalType::Varchar),
            ],
        )
    };
    let model = cost_defaults();
    assert_eq!(model.selectivity(&matched(OperatorType::Like), &columns), 0.01);
    assert_eq!(model.selectivity(&matched(OperatorType::ILike), &columns), 0.1);
}

#[test]
fn doubles_are_placed_between_the_bounds() {
    let binding = ColumnBinding::new(1, 0);
    let double = |value: f64| Value::Double(value.to_bits());
    let columns = known(vec![(
        binding,
        bounded(LogicalType::Double, double(0.0), double(4.0)),
    )]);
    let above = compare(
        ComparisonType::GreaterThan,
        column(binding, LogicalType::Double),
        constant(double(1.0), LogicalType::Double),
    );
    assert_eq!(cost_defaults().selectivity(&above, &columns), 0.75);
    let mixed = compare(
        ComparisonType::GreaterThan,
        column(binding, LogicalType::Double),
        constant(Value::Integer(1), LogicalType::Integer),
    );
    assert_eq!(cost_defaults().selectivity(&mixed, &columns), 0.3);
}

#[test]
fn positions_name_the_columns_of_the_input() {
    let model = cost_defaults();
    let binding = ColumnBinding::new(4, 2);
    let columns = known(vec![(
        binding,
        distinct(LogicalType::Integer, 50, DistinctProvenance::Observed),
    )]);
    let e = compare(
        ComparisonType::Equal,
        Expression::Reference(Arc::new(ReferenceExpression {
            index: 1,
            return_type: LogicalType::Integer,
        })),
        constant(Value::Integer(3), LogicalType::Integer),
    );
    let positions = vec![ColumnBinding::new(4, 1), binding];
    let by_position = CostModel::new().estimate_filter_cardinality_with_positions(
        1_000,
        &vec![e.copy()],
        &columns,
        &positions,
    );
    assert_eq!(model.finish(1_000, by_position).expected, 20);
    assert_eq!(model.rows(1_000, &vec![e], &columns).expected, 100);
}

#[test]
fn nested_conjunctions_are_one_product() {
    let binding = ColumnBinding::new(1, 0);
    let columns = known(vec![(
        binding,
        bounded(LogicalType::Integer, Value::Integer(0), Value::Integer(9)),
    )]);
    let at_least = integer_comparison(ComparisonType::GreaterThanOrEqual, binding, 2);
    let below = integer_comparison(ComparisonType::LessThan, binding, 5);
    let nested = chain(
        ConjunctionType::And,
        vec![
            chain(ConjunctionType::And, vec![at_least, boolean(true)]),
            below,
        ],
    );
    let PredicateSelectivity::And(conjoined) =
        CostModel::new().estimate_selectivity(&nested, &columns)
    else {
        panic!("a conjunction");
    };
    assert_eq!(conjoined.conditions.len(), 3);
    assert_eq!(
        conjoined.terms,
        vec![
            ConjunctionTerm::Share {
                matching: 3,
                domain: 10,
                column: binding,
            },
            ConjunctionTerm::Input {
                node: 1,
                binding: None,
                occurrences: 1,
            },
        ]
    );
}
