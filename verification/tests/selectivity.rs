use std::cell::Cell;
use std::collections::HashMap;
use std::rc::Rc;
use std::sync::Arc;

use paro_optimizer::binding_map::BindingMap;
use paro_optimizer::cost::row_fetch::late_row_fetch;
use paro_optimizer::estimate::selectivity::conjunction::ConjunctionTerm;
use paro_optimizer::estimate::selectivity::filter::{
    apply_selectivity_to_cardinality, cardinality_from_selectivity, group_terms,
    relation_is_proven, FilterPlan, SelectedRows,
};
use paro_optimizer::estimate::selectivity::flatten::flatten_associative;
use paro_optimizer::estimate::selectivity::formula::{
    AtomicSelectivity, DefaultSelectivity, Membership, NodeFormula,
};
use paro_optimizer::estimate::selectivity::like::{
    like_pattern_shape, LikePatternShape, WildcardLikePattern,
};
use paro_optimizer::estimate::selectivity::model::{
    estimate_filter_cardinality, estimate_filter_cardinality_with_positions, estimate_selectivity,
    estimate_selectivity_controlled, SelectivityPlan,
};
use paro_optimizer::estimate::selectivity::predicate::{
    ColumnPredicateEvidence, ColumnValues, PredicateGraph, PredicateKind,
};
use paro_optimizer::estimate::selectivity::range::{estimate_range_selectivity, RangeMeasure};
use paro_optimizer::estimate::selectivity::resolve::StatisticsResolver;
use paro_optimizer::estimate::selectivity::steps::EstimateStep;
use paro_optimizer::estimate::selectivity::work::{
    SelectivityStop, SelectivityWork, Unrestricted, WorkAdmission,
};
use paro_optimizer::expression::{
    ColumnRefExpression, ComparisonExpression, ConjunctionExpression, ConstantExpression,
    Expression, FunctionExpression, FunctionId, FunctionStability, Intrinsic, OperatorExpression,
    ReferenceExpression,
};
use paro_optimizer::plan::CardinalityEstimate;
use paro_optimizer::statistics::{
    ColumnStatistics, DistinctEvidence, DistinctProvenance, NumericDistribution,
};
use paro_optimizer::types::{
    ColumnBinding, ComparisonType, ConjunctionType, LogicalType, OperatorType,
};
use paro_optimizer::value::Value;

const MIN_SELECTIVITY: f64 = 0.000_001;

type Columns = BindingMap<ColumnStatistics>;

#[derive(Clone, Copy)]
struct Defaults {
    equality: f64,
    range: f64,
    predicate: f64,
    like_prefix: f64,
    like_contains: f64,
    fulltext_match: f64,
    vector_topk_fraction: f64,
    is_not_null: f64,
}

fn defaults() -> Defaults {
    Defaults {
        equality: 0.1,
        range: 0.3,
        predicate: 0.75,
        like_prefix: 0.02,
        like_contains: 0.05,
        fulltext_match: 0.1,
        vector_topk_fraction: 0.001,
        is_not_null: 0.9,
    }
}

impl Defaults {
    fn get(&self, default: DefaultSelectivity) -> f64 {
        match default {
            DefaultSelectivity::Equality => self.equality,
            DefaultSelectivity::Range => self.range,
            DefaultSelectivity::Predicate => self.predicate,
            DefaultSelectivity::FullTextMatch => self.fulltext_match,
            DefaultSelectivity::VectorTopK => self.vector_topk_fraction,
            DefaultSelectivity::IsNotNull => self.is_not_null,
        }
    }

    fn wildcard(&self, pattern: WildcardLikePattern) -> f64 {
        let smallest = self.like_prefix.min(self.like_contains);
        let base = match (pattern.anchored_start, pattern.anchored_end) {
            (true, _) => smallest,
            _ => self.like_contains,
        };
        let remaining = if pattern.literal_fragments >= 64 {
            0.0
        } else {
            0.5f64.powi(pattern.literal_fragments as i32)
        };
        base.powf(2.0 * (1.0 - remaining))
    }

    fn membership(&self, membership: Membership) -> f64 {
        match membership {
            Membership::Unknown => self.predicate,
            Membership::Probes {
                probes,
                distinct: None,
            } => clamp(self.equality * probes as f64),
            Membership::Probes {
                probes,
                distinct: Some(distinct),
            } => clamp((probes as f64 / distinct as f64).max(MIN_SELECTIVITY)),
        }
    }

    fn atomic(&self, graph: &PredicateGraph, atomic: AtomicSelectivity) -> Estimate {
        Estimate::estimated(match atomic {
            AtomicSelectivity::Proven { passes } => {
                return Estimate::proven(if passes { 1.0 } else { 0.0 });
            }
            AtomicSelectivity::Default(default) => self.get(default),
            AtomicSelectivity::DefaultComplement(default) => 1.0 - self.get(default),
            AtomicSelectivity::OneIn(n) => (1.0 / n as f64).max(MIN_SELECTIVITY),
            AtomicSelectivity::AllButOneIn(n) => {
                (1.0 - (1.0 / n as f64)).clamp(MIN_SELECTIVITY, 1.0)
            }
            AtomicSelectivity::Share { matching, domain } => share(matching, domain),
            AtomicSelectivity::Distribution {
                column,
                constant,
                comparison,
            } => distribution(graph, column, constant, comparison).unwrap_or(self.range),
            AtomicSelectivity::Continuous {
                column,
                constant,
                comparison,
            } => continuous(graph, column, constant, comparison).unwrap_or(self.range),
            AtomicSelectivity::EveryText => 1.0,
            AtomicSelectivity::Wildcard(pattern) => self.wildcard(pattern),
            AtomicSelectivity::Member(membership) => self.membership(membership),
            AtomicSelectivity::NonMember(membership) => 1.0 - self.membership(membership),
        })
    }

    fn steps(&self, graph: &PredicateGraph, steps: &[EstimateStep]) -> HashMap<usize, Estimate> {
        let mut estimates = HashMap::new();
        for step in steps {
            let value = match &step.formula {
                NodeFormula::Atomic(atomic) => self.atomic(graph, *atomic),
                NodeFormula::And(terms) => combine(terms, &estimates),
                NodeFormula::Or(terms) => disjunction(
                    terms
                        .iter()
                        .map(|(node, occurrences)| {
                            repeat(estimates[node], *occurrences, ConjunctionType::Or)
                        })
                        .collect(),
                ),
                NodeFormula::Disjoint { matching, domain } => {
                    Estimate::estimated(*matching as f64 / *domain as f64)
                }
                NodeFormula::Not(child) => {
                    let child: Estimate = estimates[child];
                    child.complement()
                }
            };
            estimates.insert(step.node, value);
        }
        estimates
    }

    fn estimate(&self, e: &Expression, columns: &Columns) -> Estimate {
        let plan = estimate_selectivity(e, columns);
        self.steps(&plan.graph, &plan.steps)[&plan.root]
    }

    fn selectivity(&self, e: &Expression, columns: &Columns) -> f64 {
        self.estimate(e, columns).fraction
    }

    fn rows(
        &self,
        base: u64,
        expressions: &Vec<Expression>,
        columns: &Columns,
    ) -> CardinalityEstimate {
        let plan = estimate_filter_cardinality(base, expressions, columns);
        self.finish(base, &plan.graph, plan.plan)
    }

    fn finish(&self, base: u64, graph: &PredicateGraph, plan: FilterPlan) -> CardinalityEstimate {
        match plan {
            FilterPlan::Exact(rows) => rows,
            FilterPlan::Estimate { terms, steps } => {
                let combined = combine(&terms, &self.steps(graph, &steps));
                cardinality_from_selectivity(
                    base,
                    selected(base, combined.fraction),
                    combined.proven && combined.fraction == 0.0,
                )
            }
        }
    }
}

fn selected(base: u64, selectivity: f64) -> SelectedRows {
    let rows = base as f64;
    SelectedRows {
        low: (rows * (selectivity * 0.5).clamp(0.0, 1.0)).floor() as u64,
        nearest: (rows * selectivity).round() as u64,
        high: (rows * (selectivity * 1.5).clamp(0.0, 1.0)).ceil() as u64,
    }
}

#[derive(Clone, Copy, Debug)]
struct Estimate {
    fraction: f64,
    proven: bool,
}

impl Estimate {
    fn proven(fraction: f64) -> Estimate {
        Estimate {
            fraction: clamp(fraction),
            proven: true,
        }
    }

    fn estimated(fraction: f64) -> Estimate {
        Estimate {
            fraction: clamp(fraction).max(MIN_SELECTIVITY),
            proven: false,
        }
    }

    fn with_proof(fraction: f64, proven: bool) -> Estimate {
        if proven {
            Estimate::proven(fraction)
        } else {
            Estimate::estimated(fraction)
        }
    }

    fn complement(self) -> Estimate {
        Estimate::with_proof(1.0 - self.fraction, self.proven)
    }
}

fn clamp(value: f64) -> f64 {
    if value.is_finite() {
        value.clamp(0.0, 1.0)
    } else {
        1.0
    }
}

fn share(matching: u128, domain: u128) -> f64 {
    let domain = domain as f64;
    clamp((matching as f64).min(domain) / domain)
}

fn in_order(mut estimates: Vec<Estimate>) -> Vec<Estimate> {
    estimates.sort_by(|left, right| {
        left.fraction
            .total_cmp(&right.fraction)
            .then_with(|| left.proven.cmp(&right.proven))
    });
    estimates
}

fn conjunction(estimates: Vec<Estimate>) -> Estimate {
    let mut fraction = 1.0;
    let mut proven = true;
    for estimate in in_order(estimates) {
        if estimate.proven && estimate.fraction == 0.0 {
            return Estimate::proven(0.0);
        }
        fraction *= estimate.fraction;
        proven &= estimate.proven;
    }
    Estimate::with_proof(fraction, proven)
}

fn disjunction(estimates: Vec<Estimate>) -> Estimate {
    if estimates.len() == 1 {
        return estimates[0];
    }
    let mut missed = 1.0;
    let mut proven = true;
    for estimate in in_order(estimates) {
        if estimate.proven && estimate.fraction == 1.0 {
            return Estimate::proven(1.0);
        }
        missed *= 1.0 - estimate.fraction;
        proven &= estimate.proven;
    }
    Estimate::with_proof(1.0 - missed, proven)
}

fn repeat(value: Estimate, occurrences: u64, kind: ConjunctionType) -> Estimate {
    if occurrences <= 1 {
        return value;
    }
    let fraction = match kind {
        ConjunctionType::And => value.fraction.powf(occurrences as f64),
        ConjunctionType::Or => 1.0 - (1.0 - value.fraction).powf(occurrences as f64),
    };
    Estimate::with_proof(fraction, value.proven)
}

fn column_aware(terms: Vec<(Estimate, Option<ColumnBinding>)>) -> Estimate {
    for (estimate, _) in &terms {
        if estimate.proven && estimate.fraction == 0.0 {
            return Estimate::proven(0.0);
        }
    }
    let groups = group_terms(&terms.iter().map(|(_, binding)| *binding).collect());
    let mut independent = groups
        .independent
        .iter()
        .map(|term| terms[*term].0)
        .collect::<Vec<_>>();
    for columns in &groups.relations {
        let mut estimates = columns
            .iter()
            .map(|column| {
                conjunction(
                    groups.columns[*column]
                        .iter()
                        .map(|position| terms[groups.bound[*position]].0)
                        .collect(),
                )
            })
            .collect::<Vec<_>>();
        estimates.sort_by(|left, right| left.fraction.total_cmp(&right.fraction));
        let proven = relation_is_proven(&estimates.iter().map(|e| e.proven).collect());
        let mut exponent = 1.0;
        let mut fraction = 1.0;
        for estimate in estimates {
            fraction *= estimate.fraction.powf(exponent);
            exponent *= 0.5;
        }
        independent.push(Estimate::with_proof(fraction, proven));
    }
    conjunction(independent)
}

fn combine(terms: &[ConjunctionTerm], estimates: &HashMap<usize, Estimate>) -> Estimate {
    column_aware(
        terms
            .iter()
            .map(|term| match term {
                ConjunctionTerm::Input {
                    node,
                    binding,
                    occurrences,
                } => (
                    repeat(estimates[node], *occurrences, ConjunctionType::And),
                    *binding,
                ),
                ConjunctionTerm::Share {
                    matching,
                    domain,
                    column,
                } => (
                    Estimate::estimated(*matching as f64 / *domain as f64),
                    Some(*column),
                ),
            })
            .collect(),
    )
}

fn evidence(graph: &PredicateGraph, column: usize) -> &ColumnPredicateEvidence {
    match &graph.nodes[column].kind {
        PredicateKind::Column {
            evidence: Some(evidence),
            ..
        } => evidence,
        _ => panic!("no evidence"),
    }
}

fn literal(graph: &PredicateGraph, constant: usize) -> &Value {
    match &graph.nodes[constant].kind {
        PredicateKind::Constant(value) => value,
        _ => panic!("no constant"),
    }
}

fn float(value: &Value) -> f64 {
    match value {
        Value::Double(bits) => f64::from_bits(*bits),
        Value::Float(bits) => f32::from_bits(*bits) as f64,
        Value::Integer(value) => f64::from(*value),
        _ => panic!("no number"),
    }
}

fn distribution(
    graph: &PredicateGraph,
    column: usize,
    constant: usize,
    comparison: ComparisonType,
) -> Option<f64> {
    let distribution = evidence(graph, column).distribution?;
    let mean = f64::from_bits(distribution.mean);
    let variance = f64::from_bits(distribution.variance);
    let constant = float(literal(graph, constant));
    assert_eq!(variance, 0.0, "only single points here");
    Some(f64::from(match comparison {
        ComparisonType::LessThan => mean < constant,
        ComparisonType::LessThanOrEqual => mean <= constant,
        ComparisonType::GreaterThan => mean > constant,
        ComparisonType::GreaterThanOrEqual => mean >= constant,
        _ => return None,
    } as u8))
}

fn continuous(
    graph: &PredicateGraph,
    column: usize,
    constant: usize,
    comparison: ComparisonType,
) -> Option<f64> {
    let values = evidence(graph, column).values.as_ref()?;
    let minimum = float(values.minimum.as_ref()?);
    let maximum = float(values.maximum.as_ref()?);
    let below = ((float(literal(graph, constant)) - minimum) / (maximum - minimum)).clamp(0.0, 1.0);
    Some(match comparison {
        ComparisonType::LessThan | ComparisonType::LessThanOrEqual => below,
        _ => 1.0 - below,
    })
}

fn column(binding: ColumnBinding, return_type: LogicalType) -> Expression {
    Expression::ColumnRef(Arc::new(ColumnRefExpression {
        binding,
        depth: 0,
        return_type,
    }))
}

fn constant(value: Value, return_type: LogicalType) -> Expression {
    Expression::Constant(Arc::new(ConstantExpression { value, return_type }))
}

fn compare(comparison_type: ComparisonType, left: Expression, right: Expression) -> Expression {
    Expression::Comparison(Arc::new(ComparisonExpression {
        comparison_type,
        left,
        right,
    }))
}

fn chain(conjunction_type: ConjunctionType, children: Vec<Expression>) -> Expression {
    Expression::Conjunction(Arc::new(ConjunctionExpression {
        conjunction_type,
        children,
    }))
}

fn operator(operator_type: OperatorType, children: Vec<Expression>) -> Expression {
    Expression::Operator(Arc::new(OperatorExpression {
        operator_type,
        children,
        return_type: LogicalType::Boolean,
    }))
}

fn integer_comparison(
    comparison_type: ComparisonType,
    binding: ColumnBinding,
    value: i32,
) -> Expression {
    compare(
        comparison_type,
        column(binding, LogicalType::Integer),
        constant(Value::Integer(value), LogicalType::Integer),
    )
}

fn like(pattern: &str) -> Expression {
    like_on(ColumnBinding::new(1, 0), pattern)
}

fn like_on(binding: ColumnBinding, pattern: &str) -> Expression {
    operator(
        OperatorType::Like,
        vec![
            column(binding, LogicalType::Varchar),
            constant(Value::Varchar(pattern.to_string()), LogicalType::Varchar),
        ],
    )
}

fn negated(e: Expression) -> Expression {
    operator(OperatorType::Not, vec![e])
}

fn boolean(value: bool) -> Expression {
    constant(Value::Boolean(value), LogicalType::Boolean)
}

fn volatile_comparison() -> Expression {
    compare(
        ComparisonType::LessThan,
        Expression::Function(Arc::new(FunctionExpression {
            function: FunctionId {
                id: 0,
                intrinsic: Intrinsic::Other,
            },
            stability: FunctionStability::Volatile,
            children: vec![],
            return_type: LogicalType::Double,
        })),
        constant(Value::Double(0.5f64.to_bits()), LogicalType::Double),
    )
}

fn no_columns() -> Columns {
    BindingMap::new()
}

fn known(entries: Vec<(ColumnBinding, ColumnStatistics)>) -> Columns {
    let mut columns = BindingMap::new();
    for (binding, statistics) in entries {
        columns.insert(binding, statistics);
    }
    columns
}

fn bounded(logical_type: LogicalType, minimum: Value, maximum: Value) -> ColumnStatistics {
    ColumnStatistics {
        minimum: Some(minimum),
        maximum: Some(maximum),
        ..ColumnStatistics::create_unknown(logical_type)
    }
}

fn distinct(logical_type: LogicalType, point: u64, provenance: DistinctProvenance) -> ColumnStatistics {
    ColumnStatistics {
        distinct: DistinctEvidence {
            point,
            provenance,
            ..DistinctEvidence::default()
        },
        ..ColumnStatistics::create_unknown(logical_type)
    }
}

fn measure(statistics: &ColumnStatistics, value: Value, comparison: ComparisonType) -> Option<f64> {
    let evidence = ColumnPredicateEvidence {
        point: None,
        values: Some(ColumnValues {
            logical_type: statistics.logical_type,
            minimum: statistics.minimum.as_ref().map(|v| v.copy()),
            maximum: statistics.maximum.as_ref().map(|v| v.copy()),
        }),
        distribution: None,
    };
    match estimate_range_selectivity(&evidence, &value, comparison) {
        RangeMeasure::Share { matching, domain } => Some(share(matching, domain)),
        RangeMeasure::Unknown => None,
        _ => panic!("not an integral column"),
    }
}

fn shared_chain(kind: ConjunctionType, leaf: Expression, depth: usize) -> Expression {
    let mut e = leaf;
    for _ in 0..depth {
        let copy = e.copy();
        e = chain(kind, vec![copy, e]);
    }
    e
}

/// Grants a number of steps, and answers the same to each further question.
struct Limited {
    left: usize,
    then: Result<bool, &'static str>,
    asked: Rc<Cell<usize>>,
}

impl WorkAdmission for Limited {
    type Error = &'static str;

    fn grant(&mut self) -> Result<bool, &'static str> {
        self.asked.set(self.asked.get() + 1);
        if self.left > 0 {
            self.left -= 1;
            Ok(true)
        } else {
            self.then
        }
    }
}

/// The outcome of a limited analysis, and how often it asked.
fn limited(
    e: &Expression,
    left: usize,
    then: Result<bool, &'static str>,
) -> (
    Result<SelectivityPlan, SelectivityStop<&'static str>>,
    usize,
) {
    let asked = Rc::new(Cell::new(0));
    let admission = Limited {
        left,
        then,
        asked: asked.clone(),
    };
    let columns = no_columns();
    let plan = estimate_selectivity_controlled(
        e,
        &StatisticsResolver::logical(&columns),
        &mut SelectivityWork::new(admission),
    );
    (plan, asked.get())
}

#[test]
fn a_shared_chain_takes_linear_work() {
    for kind in [ConjunctionType::And, ConjunctionType::Or] {
        let leaf = integer_comparison(ComparisonType::Equal, ColumnBinding::new(1, 0), 1);
        let e = shared_chain(kind, leaf, 200);
        let (plan, asked) = limited(&e, 200 * 15, Ok(false));
        let plan = plan.unwrap();
        assert!(asked <= 200 * 15);
        let estimates = defaults().steps(&plan.graph, &plan.steps);
        assert_eq!(estimates[&plan.root].fraction, defaults().equality);
    }
}

#[test]
fn analysis_without_work_left_is_incomplete() {
    let leaf = integer_comparison(ComparisonType::Equal, ColumnBinding::new(1, 0), 1);
    let e = shared_chain(ConjunctionType::And, leaf, 3);
    let (plan, asked) = limited(&e, 2, Ok(false));
    assert!(matches!(plan, Err(SelectivityStop::Incomplete)));
    assert_eq!(asked, 3);
    assert_eq!(
        plan.unwrap_err().reason(),
        "selectivity work admission stopped"
    );
}

#[test]
fn a_failing_admission_ends_the_analysis_with_its_error() {
    let leaf = integer_comparison(ComparisonType::Equal, ColumnBinding::new(1, 0), 1);
    let e = shared_chain(ConjunctionType::Or, leaf, 3);
    for left in [0, 1, 5] {
        let (plan, asked) = limited(&e, left, Err("deadline"));
        assert_eq!(asked, left + 1);
        match plan {
            Err(SelectivityStop::Failed(error)) => assert_eq!(error, "deadline"),
            _ => panic!("the analysis went on"),
        }
    }
    assert_eq!(
        SelectivityStop::Failed("deadline").reason(),
        "selectivity work admission failed"
    );
    assert_eq!(
        SelectivityStop::Failed("deadline").message("deadline"),
        "selectivity work admission failed: deadline"
    );
    assert_eq!(
        SelectivityStop::<()>::Incomplete.message(""),
        "selectivity work admission stopped"
    );
}

#[test]
fn an_analysis_is_complete_or_absent() {
    let leaf = integer_comparison(ComparisonType::Equal, ColumnBinding::new(1, 0), 1);
    let e = shared_chain(ConjunctionType::And, leaf, 3);
    let (whole, needed) = limited(&e, 1000, Ok(false));
    assert!(whole.is_ok());
    for left in 0..needed + 3 {
        let (plan, asked) = limited(&e, left, Ok(false));
        assert_eq!(plan.is_ok(), left >= needed);
        assert_eq!(asked, if left < needed { left + 1 } else { needed });
    }
}

#[test]
fn one_comparison_takes_one_step() {
    let leaf = integer_comparison(ComparisonType::Equal, ColumnBinding::new(1, 0), 1);
    let (plan, asked) = limited(&leaf, 1, Ok(false));
    assert!(plan.is_ok());
    assert_eq!(asked, 1);
    assert!(matches!(
        limited(&leaf, 0, Ok(false)).0,
        Err(SelectivityStop::Incomplete)
    ));
    assert_eq!(Unrestricted.grant(), Ok(true));
}

#[test]
fn selectivity_uses_a_stack_safe_shared_dag_fold() {
    let model = defaults();
    for kind in [ConjunctionType::And, ConjunctionType::Or] {
        let leaf = integer_comparison(ComparisonType::Equal, ColumnBinding::new(1, 0), 1);
        let e = shared_chain(kind, leaf, 10_000);
        let (plan, _) = limited(&e, 150_000, Ok(false));
        let plan = plan.unwrap();
        let estimates = model.steps(&plan.graph, &plan.steps);
        assert_eq!(estimates[&plan.root].fraction, model.equality);
    }
}

#[test]
fn shared_boolean_nodes_count_evaluations_without_confusing_them_with_domains() {
    let model = defaults();
    let stable = integer_comparison(ComparisonType::Equal, ColumnBinding::new(1, 0), 1);
    let volatile = volatile_comparison();
    for kind in [ConjunctionType::And, ConjunctionType::Or] {
        for (leaf, occurrences) in [(stable.copy(), 1), (volatile.copy(), 8)] {
            let point = model.selectivity(&leaf, &no_columns());
            let root = shared_chain(kind, leaf, 3);
            let estimate = model.selectivity(&root, &no_columns());
            let expected = match kind {
                ConjunctionType::And => point.powi(occurrences),
                ConjunctionType::Or => 1.0 - (1.0 - point).powi(occurrences),
            };
            assert!((estimate - expected).abs() < 1e-12);
        }
    }
}

#[test]
fn flat_and_dag_term_paths_agree_with_an_independent_occurrence_oracle() {
    let leaves = (0..24)
        .map(|value| {
            integer_comparison(
                ComparisonType::Equal,
                ColumnBinding::new(1, value),
                value as i32,
            )
        })
        .collect::<Vec<_>>();
    let columns = no_columns();
    let resolver = StatisticsResolver::logical(&columns);
    let position = |e: &Expression| {
        let Expression::Comparison(found) = e else {
            unreachable!()
        };
        leaves
            .iter()
            .position(|leaf| matches!(leaf, Expression::Comparison(leaf) if Arc::ptr_eq(leaf, found)))
            .unwrap()
    };
    for kind in [ConjunctionType::And, ConjunctionType::Or] {
        for count in 0..=leaves.len() {
            let flat = || {
                leaves[..count]
                    .iter()
                    .chain(leaves[..count].iter().rev())
                    .map(|leaf| leaf.copy())
                    .collect::<Vec<_>>()
            };
            let shared = chain(kind, flat());
            let nested = chain(kind, vec![shared.copy(), shared.copy()]);
            // Deliberately enumerates occurrences in this bounded test; the
            // analysis itself may not expand shared paths.
            let mut paths = vec![&nested];
            let mut oracle = HashMap::new();
            while let Some(node) = paths.pop() {
                if let Expression::Conjunction(chain) = node {
                    paths.extend(&chain.children);
                } else {
                    oracle.insert(position(node), 1u64);
                }
            }
            for (expressions, expect_inline) in
                [(flat(), count <= 8), (vec![nested.copy()], count <= 8)]
            {
                let (graph, roots, built) = resolver.graph_of(&expressions);
                let actual = flatten_associative(
                    &graph,
                    &roots,
                    kind,
                    &mut SelectivityWork::new(Unrestricted),
                )
                .unwrap();
                assert_eq!(!actual.spilled(), expect_inline);
                let actual: HashMap<_, _> = actual
                    .to_vec()
                    .into_iter()
                    .map(|(node, occurrences)| (position(&built.entries[node]), occurrences))
                    .collect();
                assert_eq!(actual, oracle);
            }
        }
    }
}

/// The benefit of fetching a payload later, with text of 32 bytes, row
/// identities of eight, a startup of 4096 and a fourfold price of fetching.
fn late_row_fetch_benefit(carrier_rows: u64, fetched_rows: u64, stages: usize) -> Option<f64> {
    let fetch = late_row_fetch(carrier_rows, fetched_rows, &vec![32], stages)?;
    let carrier_work = fetch.carrier_rows as f64 * fetch.carrier_stages as f64;
    let eager = carrier_work * fetch.payload_width as f64;
    let late =
        carrier_work * 8.0 + fetch.fetched_rows as f64 * fetch.payload_width as f64 * 4.0 + 4096.0;
    let benefit = eager - late;
    (benefit > 0.0).then_some(benefit)
}

#[test]
fn one_node_stands_for_one_allocation() {
    let columns = no_columns();
    let resolver = StatisticsResolver::logical(&columns);
    let leaf = || integer_comparison(ComparisonType::Equal, ColumnBinding::new(1, 0), 1);
    let shared = leaf();
    let (graph, roots, _) =
        resolver.graph_of(&vec![shared.copy(), shared.copy(), leaf(), shared.copy()]);
    // Two comparisons with a column and a constant each.
    assert_eq!(graph.nodes.len(), 6);
    assert_eq!(roots[0], roots[1]);
    assert_eq!(roots[0], roots[3]);
    assert_ne!(roots[0], roots[2]);
}

#[test]
fn a_shared_column_counts_once_and_equal_ones_as_often_as_they_stand_there() {
    let model = defaults();
    let flag = || column(ColumnBinding::new(1, 0), LogicalType::Boolean);
    let alone = model.selectivity(&flag(), &no_columns());
    let shared = flag();
    let together = chain(ConjunctionType::And, vec![shared.copy(), shared.copy()]);
    assert_eq!(model.selectivity(&together, &no_columns()), alone);
    let apart = chain(ConjunctionType::And, vec![flag(), flag()]);
    assert!(model.selectivity(&apart, &no_columns()) < alone);
}

#[test]
fn tests_sparse_fetch_requires_enough_work_to_amortize_its_frontier() {
    assert!(late_row_fetch_benefit(1, 1, 8).is_none());
    assert!(late_row_fetch_benefit(100_000, 100, 3).is_some());
}

#[test]
fn tests_estimate_filter_cardinality_preserves_empty_predicates() {
    let model = defaults();
    let estimate = model.rows(42, &Vec::new(), &no_columns());
    assert_eq!(estimate, CardinalityEstimate::exact(42));
    assert_eq!(
        model.rows(0, &vec![boolean(true)], &no_columns()),
        CardinalityEstimate::exact(0)
    );
}

#[test]
fn tests_constant_false_selectivity_is_zero() {
    assert_eq!(defaults().selectivity(&boolean(false), &no_columns()), 0.0);
}

#[test]
fn tests_comparison_without_stats_uses_default_equality_selectivity() {
    let e = integer_comparison(ComparisonType::Equal, ColumnBinding::new(1, 0), 7);
    assert_eq!(
        defaults().selectivity(&e, &no_columns()),
        defaults().equality
    );
}

#[test]
fn equality_union_uses_one_domain_and_does_not_discount_it_repeatedly() {
    let model = defaults();
    let binding = ColumnBinding::new(1, 0);
    let equality =
        |binding, value| integer_comparison(ComparisonType::Equal, binding, value);
    let either = |children| chain(ConjunctionType::Or, children);
    let predicate = either(vec![
        equality(binding, 2001),
        equality(binding, 2002),
        equality(binding, 2001),
    ]);
    let statistics = |point| {
        known(vec![(
            binding,
            distinct(LogicalType::Integer, point, DistinctProvenance::Derived),
        )])
    };
    assert_eq!(model.selectivity(&predicate, &statistics(200)), 0.01);
    let in_values = |values: &[i32]| {
        let mut children = vec![column(binding, LogicalType::Integer)];
        children.extend(
            values
                .iter()
                .map(|value| constant(Value::Integer(*value), LogicalType::Integer)),
        );
        operator(OperatorType::In, children)
    };
    for expressions in [
        vec![predicate.copy(), in_values(&[2001, 2002, 2002])],
        vec![in_values(&[2002, 2001]), predicate.copy()],
    ] {
        let estimate = model.rows(10_000, &expressions, &statistics(200));
        assert_eq!(estimate.expected, 100);
        assert!(estimate.max > estimate.expected, "NDV is not a hard bound");
    }
    assert_eq!(
        model
            .rows(
                10_000,
                &vec![predicate.copy(), in_values(&[2002, 2003])],
                &statistics(200),
            )
            .expected,
        50
    );
    let filtered = statistics(2);
    let mut rows = 721;
    for _ in 0..8 {
        rows = model
            .rows(rows, &vec![predicate.copy()], &filtered)
            .expected;
        assert_eq!(rows, 721);
    }
    assert!(!model.estimate(&predicate, &filtered).proven);
    // Equalities on different columns may overlap; never add them as a
    // disjoint union, even when their type and NDV happen to match.
    let other = ColumnBinding::new(1, 1);
    let mut separate = filtered;
    separate.insert(
        other,
        distinct(LogicalType::Integer, 2, DistinctProvenance::Derived),
    );
    assert_eq!(
        model.selectivity(
            &either(vec![equality(binding, 2001), equality(other, 2002)]),
            &separate
        ),
        0.75
    );
}

#[test]
fn tests_integral_range_selectivity_uses_bounds_and_preserves_orientation() {
    let model = defaults();
    let binding = ColumnBinding::new(1, 0);
    let columns = known(vec![(
        binding,
        bounded(LogicalType::Date, Value::Date(0), Value::Date(100)),
    )]);
    let date = || column(binding, LogicalType::Date);
    let limit = || constant(Value::Date(90), LogicalType::Date);
    let upper_bound = compare(ComparisonType::LessThanOrEqual, date(), limit());
    let reversed = compare(ComparisonType::GreaterThanOrEqual, limit(), date());

    let expected = 91.0 / 101.0;
    assert_eq!(model.selectivity(&upper_bound, &columns), expected);
    assert_eq!(model.selectivity(&reversed, &columns), expected);
}

#[test]
fn tests_integral_range_selectivity_handles_domain_boundaries() {
    let statistics = bounded(LogicalType::Integer, Value::Integer(10), Value::Integer(20));
    assert_eq!(
        measure(
            &statistics,
            Value::Integer(9),
            ComparisonType::LessThanOrEqual
        ),
        Some(0.0)
    );
    assert_eq!(
        measure(
            &statistics,
            Value::Integer(21),
            ComparisonType::GreaterThanOrEqual,
        ),
        Some(0.0)
    );
    assert_eq!(
        measure(
            &statistics,
            Value::Integer(20),
            ComparisonType::LessThanOrEqual
        ),
        Some(1.0)
    );
}

#[test]
fn tests_conjunction_coalesces_bounds_on_the_same_integral_column() {
    let model = defaults();
    let binding = ColumnBinding::new(1, 0);
    let columns = known(vec![(
        binding,
        bounded(LogicalType::Integer, Value::Integer(0), Value::Integer(9)),
    )]);
    let e = chain(
        ConjunctionType::And,
        vec![
            integer_comparison(ComparisonType::GreaterThanOrEqual, binding, 2),
            integer_comparison(ComparisonType::LessThan, binding, 5),
        ],
    );

    assert_eq!(model.selectivity(&e, &columns), 0.3);
    assert_eq!(model.rows(64, &vec![e], &columns).expected, 19);
}

#[test]
fn tests_conjunction_dampens_only_distinct_columns_within_one_relation() {
    let model = defaults();
    let size_binding = ColumnBinding::new(1, 0);
    let type_binding = ColumnBinding::new(1, 1);
    let distinct_values = 50;
    let columns = known(vec![(
        size_binding,
        distinct(
            LogicalType::Integer,
            distinct_values,
            DistinctProvenance::Observed,
        ),
    )]);
    let unequal =
        |value| integer_comparison(ComparisonType::NotEqual, size_binding, value);
    let suffix = like_on(type_binding, "%BRASS");

    let same_column = (1.0 - 1.0 / distinct_values as f64).powi(2);
    let expected = model.like_contains * same_column.sqrt();
    let actual = model
        .rows(
            200_000,
            &vec![unequal(14), unequal(16), suffix],
            &columns,
        )
        .expected;
    assert_eq!(actual, (200_000.0 * expected).round() as u64);
}

#[test]
fn tests_conjunction_keeps_different_relations_independent() {
    let model = defaults();
    let equality = |table_index| {
        integer_comparison(
            ComparisonType::Equal,
            ColumnBinding::new(table_index, 0),
            1,
        )
    };
    assert_eq!(
        model
            .rows(10_000, &vec![equality(1), equality(2)], &no_columns())
            .expected,
        100
    );
}

#[test]
fn tests_integral_range_selectivity_rejects_mixed_types_and_decimal_scales() {
    let integers = bounded(LogicalType::Integer, Value::Integer(10), Value::Integer(20));
    assert_eq!(
        measure(
            &integers,
            Value::BigInt(15),
            ComparisonType::LessThanOrEqual
        ),
        None
    );

    let decimals = bounded(
        LogicalType::Decimal {
            precision: 10,
            scale: 2,
        },
        Value::Decimal(1_000, 10, 2),
        Value::Decimal(2_000, 10, 2),
    );
    assert_eq!(
        measure(
            &decimals,
            Value::Decimal(1_500, 10, 3),
            ComparisonType::LessThanOrEqual,
        ),
        None
    );
}

#[test]
fn tests_like_selectivity_distinguishes_pattern_shapes() {
    let model = defaults();
    assert_eq!(model.like_prefix, 0.02);
    let of = |pattern: &str| model.selectivity(&like(pattern), &no_columns());
    assert_eq!(of("green"), 0.1);
    assert_eq!(of("green%"), model.like_prefix);
    assert_eq!(of("%green"), 0.05);
    assert_eq!(of("%green%"), 0.05);
    assert_eq!(of("%Customer%Complaints%"), 0.05f64.powf(1.5));
    assert_eq!(
        of("%%green%"),
        of("%green%"),
        "consecutive percent wildcards do not change the pattern language"
    );
    assert!(of("%a%b") <= of("%b"));
    assert!(of("a%b%") <= of("a%"));
    assert!(of("a%b%c") <= of("%b%"));
    assert_eq!(of("%"), 1.0);
    assert_eq!(of("gr_en%"), 0.75);

    assert_eq!(
        model.selectivity(&negated(like("%green%")), &no_columns()),
        0.95
    );
    assert_eq!(
        model.selectivity(&negated(like("%")), &no_columns()),
        MIN_SELECTIVITY
    );
    let of = |model: Defaults, pattern: &str| model.selectivity(&like(pattern), &no_columns());
    assert!(
        of(model, "green%") <= of(model, "%green%"),
        "adding a start anchor must not increase selectivity"
    );
    assert!(
        of(model, "a%b%") <= of(model, "%a%b%"),
        "anchor monotonicity must hold for multi-fragment patterns"
    );
    let misordered = Defaults {
        like_prefix: 0.5,
        ..model
    };
    assert!(
        of(misordered, "green%") <= of(misordered, "%green%"),
        "calibration cannot violate the anchor lattice"
    );
}

#[test]
fn tests_only_proven_false_predicates_receive_zero_selectivity() {
    let model = defaults();
    let estimated_zero = chain(
        ConjunctionType::And,
        vec![negated(like("%")), boolean(true)],
    );
    let proven_zero = chain(
        ConjunctionType::And,
        vec![estimated_zero.copy(), boolean(false)],
    );

    assert_eq!(
        model.selectivity(&estimated_zero, &no_columns()),
        MIN_SELECTIVITY
    );
    assert_eq!(model.selectivity(&proven_zero, &no_columns()), 0.0);
    assert_eq!(
        model
            .rows(42, &vec![estimated_zero], &no_columns())
            .expected,
        1
    );
    assert_eq!(
        model.rows(42, &vec![proven_zero], &no_columns()),
        CardinalityEstimate::exact(0)
    );
}

#[test]
fn tests_exponential_damping_never_claims_a_proven_bound() {
    let estimate = column_aware(vec![
        (Estimate::proven(0.1), Some(ColumnBinding::new(7, 0))),
        (Estimate::proven(0.2), Some(ColumnBinding::new(7, 1))),
    ]);

    assert!(!estimate.proven);
    assert!((estimate.fraction - (0.1 * 0.2_f64.sqrt())).abs() < f64::EPSILON);
}

#[test]
fn boolean_selectivity_reductions_are_bitwise_permutation_invariant() {
    let estimates = [
        Estimate::estimated(0.37),
        Estimate::estimated(0.11),
        Estimate::proven(0.83),
    ];
    let forward = estimates.to_vec();
    let reversed = estimates.iter().rev().copied().collect::<Vec<_>>();
    let and_forward = conjunction(forward.clone());
    let and_reverse = conjunction(reversed.clone());
    assert_eq!(
        and_forward.fraction.to_bits(),
        and_reverse.fraction.to_bits()
    );
    assert_eq!(and_forward.proven, and_reverse.proven);

    let or_forward = disjunction(forward);
    let or_reverse = disjunction(reversed);
    assert_eq!(or_forward.fraction.to_bits(), or_reverse.fraction.to_bits());
    assert_eq!(or_forward.proven, or_reverse.proven);

    let columns = vec![
        (estimates[0], Some(ColumnBinding::new(7, 2))),
        (estimates[1], Some(ColumnBinding::new(7, 0))),
        (estimates[2], None),
    ];
    let forward = column_aware(columns.clone());
    let reverse = column_aware(columns.into_iter().rev().collect());
    assert_eq!(forward.fraction.to_bits(), reverse.fraction.to_bits());
    assert_eq!(forward.proven, reverse.proven);
}

#[test]
fn tests_exact_like_uses_column_distinct_count() {
    let model = defaults();
    let binding = ColumnBinding::new(1, 0);
    let columns = known(vec![(
        binding,
        distinct(LogicalType::Varchar, 100, DistinctProvenance::Observed),
    )]);
    assert_eq!(model.selectivity(&like("green"), &columns), 1.0 / 100.0);
}

#[test]
fn atomic_predicates_have_their_own_formulas() {
    let model = defaults();
    let binding = ColumnBinding::new(1, 0);
    let columns = known(vec![(
        binding,
        distinct(LogicalType::Integer, 4, DistinctProvenance::Observed),
    )]);
    let text = || column(binding, LogicalType::Varchar);
    let number = |value| constant(Value::Integer(value), LogicalType::Integer);
    let of = |e: Expression| model.selectivity(&e, &columns);

    assert_eq!(
        of(operator(OperatorType::IsNotNull, vec![text()])),
        model.is_not_null
    );
    assert_eq!(
        of(operator(OperatorType::IsNull, vec![text()])),
        1.0 - model.is_not_null
    );
    assert_eq!(
        of(operator(OperatorType::In, vec![text(), number(1), number(2)])),
        0.5
    );
    assert_eq!(
        of(operator(OperatorType::NotIn, vec![text(), number(1)])),
        0.75
    );
    assert_eq!(of(operator(OperatorType::In, vec![])), model.predicate);
    assert_eq!(of(boolean(true)), 1.0);
    assert_eq!(of(number(1)), model.predicate);
    assert_eq!(
        of(operator(
            OperatorType::ILike,
            vec![
                text(),
                constant(Value::Varchar("green".to_string()), LogicalType::Varchar)
            ]
        )),
        model.equality,
        "case folding can merge values"
    );
    for (intrinsic, expected) in [
        (Intrinsic::FullText, model.fulltext_match),
        (Intrinsic::VectorDistance, model.vector_topk_fraction),
        (Intrinsic::Other, model.predicate),
    ] {
        let call = Expression::Function(Arc::new(FunctionExpression {
            function: FunctionId { id: 1, intrinsic },
            stability: FunctionStability::Stable,
            children: vec![text()],
            return_type: LogicalType::Boolean,
        }));
        assert_eq!(of(call), expected);
    }
}

#[test]
fn floating_columns_are_measured_between_their_bounds() {
    let model = defaults();
    let binding = ColumnBinding::new(1, 0);
    let double = |value: f64| Value::Double(value.to_bits());
    let columns = known(vec![(
        binding,
        bounded(LogicalType::Double, double(0.0), double(8.0)),
    )]);
    let e = |comparison_type| {
        compare(
            comparison_type,
            column(binding, LogicalType::Double),
            constant(double(2.0), LogicalType::Double),
        )
    };
    assert_eq!(
        model.selectivity(&e(ComparisonType::LessThan), &columns),
        0.25
    );
    assert_eq!(
        model.selectivity(&e(ComparisonType::GreaterThanOrEqual), &columns),
        0.75
    );
}

#[test]
fn a_distribution_comes_before_the_bounds() {
    let model = defaults();
    let binding = ColumnBinding::new(1, 0);
    let statistics = bounded(LogicalType::Integer, Value::Integer(0), Value::Integer(9))
        .with_distribution(Some(NumericDistribution {
            mean: 5.0f64.to_bits(),
            variance: 0.0f64.to_bits(),
        }));
    let columns = known(vec![(binding, statistics)]);
    assert_eq!(
        model.selectivity(
            &integer_comparison(ComparisonType::LessThanOrEqual, binding, 5),
            &columns
        ),
        1.0
    );
    assert_eq!(
        model.selectivity(
            &integer_comparison(ComparisonType::LessThan, binding, 5),
            &columns
        ),
        MIN_SELECTIVITY
    );
}

#[test]
fn positions_resolve_to_columns() {
    let model = defaults();
    let binding = ColumnBinding::new(4, 2);
    let columns = known(vec![(
        binding,
        distinct(LogicalType::Integer, 4, DistinctProvenance::Observed),
    )]);
    let reference = |index| {
        compare(
            ComparisonType::Equal,
            Expression::Reference(Arc::new(ReferenceExpression {
                index,
                return_type: LogicalType::Integer,
            })),
            constant(Value::Integer(3), LogicalType::Integer),
        )
    };
    let rows = |index: usize| {
        let plan = estimate_filter_cardinality_with_positions(
            100,
            &vec![reference(index)],
            &columns,
            &vec![ColumnBinding::new(9, 9), binding],
        );
        model.finish(100, &plan.graph, plan.plan).expected
    };
    assert_eq!(rows(1), 25);
    assert_eq!(rows(0), 10);
    assert_eq!(rows(7), 10);
}

#[test]
fn each_number_of_an_estimate_is_reduced_on_its_own() {
    let base = CardinalityEstimate {
        min: 10,
        expected: 100,
        max: 1000,
    };
    let reduced = apply_selectivity_to_cardinality(
        base,
        selected(10, 0.25),
        selected(100, 0.25),
        selected(1000, 0.25),
    );
    assert_eq!(
        reduced,
        CardinalityEstimate {
            min: 1,
            expected: 25,
            max: 375,
        }
    );
}

#[test]
fn terms_are_grouped_by_column_and_relation() {
    let groups = group_terms(&vec![
        Some(ColumnBinding::new(1, 0)),
        None,
        Some(ColumnBinding::new(2, 0)),
        Some(ColumnBinding::new(1, 1)),
        Some(ColumnBinding::new(1, 0)),
    ]);
    assert_eq!(groups.independent, vec![1]);
    assert_eq!(groups.bound, vec![0, 2, 3, 4]);
    assert_eq!(groups.columns, vec![vec![0, 3], vec![1], vec![2]]);
    assert_eq!(groups.relations, vec![vec![0, 2], vec![1]]);
}

#[test]
fn another_wildcard_beside_one_changes_no_shape() {
    let of = |pattern: &str| like_pattern_shape(Some(&Value::Varchar(pattern.to_string())));
    assert_eq!(
        of("a%b%"),
        LikePatternShape::Wildcard(WildcardLikePattern {
            anchored_start: true,
            anchored_end: false,
            literal_fragments: 2,
        })
    );
    assert_eq!(of("a%%%b%%"), of("a%b%"));
    assert_eq!(of("%%"), LikePatternShape::MatchAll);
    assert_eq!(of("ab"), LikePatternShape::Exact);
    assert_eq!(of(""), LikePatternShape::Exact);
    assert_eq!(of("a\\%"), LikePatternShape::Generic);
    assert_eq!(of("_%%"), LikePatternShape::Generic);
    assert_eq!(
        like_pattern_shape(Some(&Value::Integer(1))),
        LikePatternShape::Generic
    );
    assert_eq!(like_pattern_shape(None), LikePatternShape::Generic);
}
