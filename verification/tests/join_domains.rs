use std::sync::Arc;

use paro_optimizer::cost::number::Number;
use paro_optimizer::cost::relation_set::JoinRelationSet;
use paro_optimizer::estimate::join_domains::{
    remove_empty_total_domains, CardinalityHelper, DenomInfo, DistinctDomainEstimate,
    RelationsSetToStats,
};
use paro_optimizer::statistics::{DistinctEvidence, DistinctProvenance};
use paro_optimizer::types::ColumnBinding;

fn number(value: f64) -> Number {
    Number::from_bits(value.to_bits())
}

#[test]
fn test_relations_set_to_stats() {
    let bindings = vec![ColumnBinding::new(0, 0), ColumnBinding::new(1, 0)];

    let stats = RelationsSetToStats::new(bindings);
    assert_eq!(stats.equivalent_relations.len(), 2);
    assert!(!stats.has_distinct_count_hll);
    assert_eq!(stats.distinct_count_no_hll, usize::MAX);
}

#[test]
fn equivalent_columns_are_held_once() {
    let stats = RelationsSetToStats::new(vec![
        ColumnBinding::new(1, 0),
        ColumnBinding::new(0, 0),
        ColumnBinding::new(1, 0),
    ]);
    assert_eq!(
        stats.equivalent_relations,
        vec![ColumnBinding::new(1, 0), ColumnBinding::new(0, 0)]
    );
}

#[test]
fn test_relations_set_to_stats_get_distinct_count() {
    let mut stats = RelationsSetToStats::new(Vec::new());

    // Without HLL
    stats.distinct_count_no_hll = 100;
    assert_eq!(stats.get_distinct_count(), 100);

    // With HLL
    stats.has_distinct_count_hll = true;
    stats.distinct_count_hll = 150;
    assert_eq!(stats.get_distinct_count(), 150);
}

#[test]
fn partial_sketch_is_an_upper_bound_not_a_complete_equality_domain() {
    let estimate = DistinctDomainEstimate::from_evidence(
        DistinctEvidence {
            lower: 8,
            upper: None,
            point: 8,
            provenance: DistinctProvenance::ObservedPartial {
                observed_rows: 8,
                total_rows: 800,
            },
        },
        800,
    );

    assert!(!estimate.has_hll);
    assert_eq!(estimate.value(), 800);
}

#[test]
fn complete_sketch_is_an_observed_domain() {
    let estimate = DistinctDomainEstimate::from_evidence(
        DistinctEvidence {
            lower: 8,
            upper: Some(9),
            point: 8,
            provenance: DistinctProvenance::Observed,
        },
        800,
    );

    assert!(estimate.has_hll);
    assert_eq!(estimate.value(), 8);
}

#[test]
fn unknown_distinct_evidence_does_not_shrink_the_total_domain() {
    let estimate = DistinctDomainEstimate::from_evidence(DistinctEvidence::default(), 321);

    assert!(!estimate.has_hll);
    assert_eq!(estimate.value(), 321);
}

#[test]
fn derived_point_without_a_proof_stays_out_of_the_observed_domain_path() {
    let estimate = DistinctDomainEstimate::from_evidence(
        DistinctEvidence {
            point: 7,
            provenance: DistinctProvenance::Derived,
            ..DistinctEvidence::default()
        },
        321,
    );

    assert!(!estimate.has_hll);
    assert_eq!(estimate.value(), 7);
}

#[test]
fn test_cardinality_helper() {
    let helper = CardinalityHelper::new(number(1000.0));
    assert_eq!(
        f64::from_bits(helper.cardinality_before_filters.bits),
        1000.0
    );
}

#[test]
fn test_denom_info() {
    let set = Arc::new(JoinRelationSet::new(vec![0, 1]));
    let info = DenomInfo::new(set.clone(), number(1.0), number(100.0));

    assert_eq!(f64::from_bits(info.filter_strength.bits), 1.0);
    assert_eq!(f64::from_bits(info.denominator.bits), 100.0);
    assert_eq!(info.numerator_relations.count(), 2);
}

#[test]
fn test_remove_empty_total_domains() {
    let mut classes = Vec::new();

    // Add some stats
    classes.push(RelationsSetToStats::new(vec![ColumnBinding::new(0, 0)]));

    // Add empty stats
    classes.push(RelationsSetToStats::new(Vec::new()));

    // Add more stats
    classes.push(RelationsSetToStats::new(vec![ColumnBinding::new(1, 0)]));

    let classes = remove_empty_total_domains(classes);

    assert_eq!(classes.len(), 2);
    assert_eq!(
        classes[1].equivalent_relations,
        vec![ColumnBinding::new(1, 0)]
    );
}
