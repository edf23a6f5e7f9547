use std::cmp::Ordering;

use paro_optimizer::cost::calibration::{
    apply_parallelism, calibrated_dimension, conservative_coefficients, priced_work,
    validate_calibrated_cost, CalibratedOpCost, CoefficientTable, CompactRange, InvalidCoefficient,
    FoldedCost, LocalOperatorWork, OpClassId, ParallelWorkProfile, ResourceDimension, SpanModel, WorkAddition,
    MAX_LOCAL_OP_CLASSES, OP_ENFORCER_SPILL_PAGE, OP_ENFORCER_STREAM_ROW, OP_HASH_KEY_BYTE_BLOCK,
    OP_RUNTIME_FILTER_APPLY_ROW, OP_RUNTIME_FILTER_BUILD_ROW, OP_TUPLE_BYTE_BLOCK, RESOURCE_DIMS,
};
use paro_optimizer::cost::enforcer::{
    enforcer_cost, pages, EnforcerCostInput, EnforcerStep, EnforcerWorkItem, SpillPolicy,
};
use paro_optimizer::cost::materialization::mutation_input;
use paro_optimizer::cost::number::Number;
use paro_optimizer::cost::ranking::{compare_latency, LatencyKey};
use paro_optimizer::cost::response::{SourceWork, SourceWorkData, WorkSourceId};
use paro_optimizer::cost::row_fetch::{late_row_fetch, LateRowFetch};

fn number(value: f64) -> Number {
    Number::from_bits(value.to_bits())
}

fn value(number: Number) -> f64 {
    f64::from_bits(number.bits)
}

fn point(value: f64) -> CompactRange {
    CompactRange::point(number(value))
}

fn range(lower: f64, expected: f64, upper: f64) -> CompactRange {
    CompactRange {
        lower: number(lower),
        expected: number(expected),
        upper: number(upper),
    }
}

/// The conservative bundle of coefficients.
fn conservative_table() -> CoefficientTable {
    let mut table = CoefficientTable::new(calibrated_dimension(
        ResourceDimension::Cpu,
        number(1.0),
        number(4.0),
        range(1.0, 2.0, 8.0),
    ));
    for coefficient in conservative_coefficients() {
        let latency = f64::from(coefficient.latency_expected) / 1000.0;
        let cost = calibrated_dimension(
            coefficient.dimension,
            number(f64::from(coefficient.expected) / 1000.0),
            number(f64::from(coefficient.risk) / 1000.0),
            range(
                latency * 0.5,
                latency,
                f64::from(coefficient.latency_upper) / 1000.0,
            ),
        );
        table.set(coefficient.class, cost).unwrap();
    }
    table
}

#[derive(Clone, Copy, Debug, PartialEq)]
struct Folded {
    resources_expected: [f64; RESOURCE_DIMS],
    resources_risk_upper: [f64; RESOURCE_DIMS],
    critical_path: [f64; 3],
}

fn fold(table: &CoefficientTable, work: &LocalOperatorWork) -> Folded {
    let mut folded = Folded {
        resources_expected: [0.0; RESOURCE_DIMS],
        resources_risk_upper: [0.0; RESOURCE_DIMS],
        critical_path: [0.0; 3],
    };
    for (unit, cost) in priced_work(table, work) {
        for dimension in 0..RESOURCE_DIMS {
            folded.resources_expected[dimension] +=
                value(unit.units.expected) * value(cost.expected_resources_per_unit[dimension]);
            folded.resources_risk_upper[dimension] +=
                value(unit.units.upper) * value(cost.risk_resources_per_unit[dimension]);
        }
        folded.critical_path[0] += value(unit.units.lower) * value(cost.latency_per_unit.lower);
        folded.critical_path[1] +=
            value(unit.units.expected) * value(cost.latency_per_unit.expected);
        folded.critical_path[2] += value(unit.units.upper) * value(cost.latency_per_unit.upper);
    }
    folded
}

fn fold_for_tasks(
    table: &CoefficientTable,
    work: &LocalOperatorWork,
    profile: ParallelWorkProfile,
    max_parallel_tasks: u16,
) -> Folded {
    let mut folded = fold(table, work);
    let (tasks, model) = apply_parallelism(profile, max_parallel_tasks);
    let serial = match model {
        SpanModel::Unscaled => return folded,
        SpanModel::PipelineFraction => 0.1,
        SpanModel::MergeFraction => 0.25,
    };
    let tasks = f64::from(tasks);
    let extra = tasks - 1.0;
    folded.critical_path[0] *= serial + (1.0 - serial) / tasks;
    folded.critical_path[1] = folded.critical_path[1]
        * (serial + (1.0 - serial) / (1.0 + extra * 0.75))
        + extra * 256.0;
    folded.critical_path[2] = folded.critical_path[2]
        * (serial + (1.0 - serial) / (1.0 + extra * 0.5))
        + extra * 1024.0;
    folded
}

#[test]
fn unknown_class_uses_versioned_conservative_fallback() {
    let mut work = LocalOperatorWork::default();
    work.add(OpClassId(999), point(10.0)).unwrap();
    let cost = fold(&conservative_table(), &work);
    assert_eq!(
        cost.resources_expected[ResourceDimension::Cpu.index()],
        10.0
    );
    assert_eq!(
        cost.resources_risk_upper[ResourceDimension::Cpu.index()],
        40.0
    );
}

#[test]
fn static_work_bound_is_enforced_without_heap_fallback() {
    let mut work = LocalOperatorWork::default();
    for id in 0..MAX_LOCAL_OP_CLASSES {
        work.add(OpClassId(id as u32), point(1.0)).unwrap();
    }
    assert!(work.add(OpClassId(100), point(1.0)).is_err());
    assert_eq!(work.iter().len(), MAX_LOCAL_OP_CLASSES);
}

#[test]
fn task_count_changes_span_without_changing_total_work() {
    let mut work = LocalOperatorWork::default();
    work.add(OpClassId(999), point(100_000.0)).unwrap();
    let table = conservative_table();
    let serial = fold(&table, &work);
    let parallel = fold_for_tasks(&table, &work, ParallelWorkProfile::Pipeline, 4);
    assert_eq!(parallel.resources_expected, serial.resources_expected);
    assert_eq!(parallel.resources_risk_upper, serial.resources_risk_upper);
    assert!(parallel.critical_path[1] < serial.critical_path[1]);
}

#[test]
fn coordination_prevents_free_parallelism_for_tiny_work() {
    let mut work = LocalOperatorWork::default();
    work.add(OpClassId(999), point(1.0)).unwrap();
    let table = conservative_table();
    let serial = fold(&table, &work);
    let parallel = fold_for_tasks(&table, &work, ParallelWorkProfile::Pipeline, 4);
    assert!(parallel.critical_path[1] > serial.critical_path[1]);
}

#[test]
fn work_of_a_known_class_is_merged_by_the_caller() {
    let mut work = LocalOperatorWork::default();
    assert_eq!(
        work.add(OpClassId(5), point(2.0)),
        Ok(WorkAddition::Stored)
    );
    let Ok(WorkAddition::Merge { entry, existing }) = work.add(OpClassId(5), point(3.0)) else {
        panic!("the class is there already");
    };
    assert_eq!(existing, point(2.0));
    work.merge(entry, point(5.0));
    let units = work.iter();
    assert_eq!(units.len(), 1);
    assert_eq!(units[0].class, OpClassId(5));
    assert_eq!(units[0].units, point(5.0));
}

#[test]
fn a_calibrated_class_replaces_the_fallback() {
    let mut table = conservative_table();
    for class in [
        OP_RUNTIME_FILTER_BUILD_ROW,
        OP_RUNTIME_FILTER_APPLY_ROW,
        OP_TUPLE_BYTE_BLOCK,
        OP_HASH_KEY_BYTE_BLOCK,
    ] {
        assert_ne!(
            table.get(OpClassId(class)).latency_per_unit,
            table.get(OpClassId(999)).latency_per_unit
        );
    }
    let spill = table.get(OpClassId(OP_ENFORCER_SPILL_PAGE));
    assert_eq!(
        value(spill.expected_resources_per_unit[ResourceDimension::SequentialIo.index()]),
        2.0
    );
    assert_eq!(spill.latency_per_unit, range(1.0, 2.0, 10.0));

    let cost = calibrated_dimension(
        ResourceDimension::RandomIo,
        number(7.0),
        number(9.0),
        point(1.0),
    );
    table.set(OpClassId(999), cost).unwrap();
    assert_eq!(
        value(
            table
                .get(OpClassId(999))
                .expected_resources_per_unit[ResourceDimension::RandomIo.index()]
        ),
        7.0
    );
}

#[test]
fn negative_or_unbounded_coefficients_are_refused() {
    let valid = calibrated_dimension(
        ResourceDimension::MemoryRead,
        number(1.0),
        number(2.0),
        point(0.5),
    );
    assert_eq!(validate_calibrated_cost(valid), Ok(()));
    for wrong in [-1.0, f64::INFINITY, f64::NAN] {
        let cost = calibrated_dimension(
            ResourceDimension::MemoryRead,
            number(wrong),
            number(2.0),
            point(0.5),
        );
        assert_eq!(validate_calibrated_cost(cost), Err(InvalidCoefficient));
        let latency = CalibratedOpCost {
            latency_per_unit: range(0.0, 1.0, wrong),
            ..valid
        };
        let mut table = conservative_table();
        assert_eq!(
            table.set(OpClassId(1), latency),
            Err(InvalidCoefficient)
        );
        assert_eq!(
            table.get(OpClassId(1)).latency_per_unit,
            range(1.0, 2.0, 8.0)
        );
    }
    assert!(number(-0.0).amount());
}

#[test]
fn serial_phases_and_single_workers_keep_their_span() {
    assert_eq!(
        apply_parallelism(ParallelWorkProfile::Serial, 8),
        (8, SpanModel::Unscaled)
    );
    assert_eq!(
        apply_parallelism(ParallelWorkProfile::Pipeline, 0),
        (1, SpanModel::Unscaled)
    );
    assert_eq!(
        apply_parallelism(ParallelWorkProfile::BlockingMerge, 2),
        (2, SpanModel::MergeFraction)
    );
}

#[test]
fn mutation_buffer_checks_upper_bound_before_admission() {
    let rows = range(1.0, 3.0, 10.0);
    let upper = Some(value(rows.upper).ceil() as u64);
    assert!(mutation_input(upper, 8, 79).is_none());
    let peak_memory_upper = mutation_input(upper, 8, 80).unwrap();
    assert_eq!(peak_memory_upper, 80);
    assert!(mutation_input(None, 8, u64::MAX - 1).is_none());
    assert_eq!(mutation_input(Some(3), 0, 10), Some(3));
}

fn latency(work: f64, span: f64) -> LatencyKey {
    let tasks = 4.0;
    LatencyKey {
        memory_completion: 0,
        makespan: number((work / tasks).max(span)),
        work: number(work),
        score: number(0.0),
        risk: number(0.0),
        peak_memory: 0,
    }
}

#[test]
fn work_span_and_capacity_determine_makespan() {
    assert_eq!(
        compare_latency(&latency(104.0, 26.0), &latency(100.0, 100.0)),
        Ordering::Less
    );
}

#[test]
fn ranking_breaks_ties_in_order() {
    let base = latency(100.0, 50.0);
    assert_eq!(compare_latency(&base, &base), Ordering::Equal);
    let more_memory = LatencyKey {
        peak_memory: 1,
        ..base
    };
    assert_eq!(compare_latency(&base, &more_memory), Ordering::Less);
    assert_eq!(compare_latency(&more_memory, &base), Ordering::Greater);
    let riskier = LatencyKey {
        risk: number(1.0),
        ..base
    };
    assert_eq!(compare_latency(&more_memory, &riskier), Ordering::Less);
    let spilling = LatencyKey {
        memory_completion: 1,
        makespan: number(0.0),
        ..base
    };
    assert_eq!(compare_latency(&riskier, &spilling), Ordering::Less);
    let negative = LatencyKey {
        score: number(-1.0),
        ..base
    };
    assert_eq!(compare_latency(&negative, &base), Ordering::Less);
}

#[test]
fn number_order_is_the_total_order_of_doubles() {
    let values = [
        f64::NEG_INFINITY,
        -2.5,
        -0.0,
        0.0,
        1e-300,
        2.5,
        f64::INFINITY,
        f64::NAN,
    ];
    for left in values {
        for right in values {
            assert_eq!(
                number(left).ordered().cmp(&number(right).ordered()),
                left.total_cmp(&right)
            );
        }
    }
    assert_eq!(value(number(2.0).least(number(3.0))), 2.0);
    assert_eq!(value(number(f64::NAN).least(number(3.0))), 3.0);
    assert_eq!(value(number(2.0).most(number(3.0))), 3.0);
    assert_eq!(value(number(2.0).most(number(f64::NAN))), 2.0);
}

fn enforcer_input(hard_memory_bytes: u64, spill_policy: SpillPolicy) -> EnforcerCostInput {
    EnforcerCostInput {
        hard_memory_bytes,
        spill_policy,
        ..EnforcerCostInput::unbounded(range(1.0, 3.0, 1000.0), 8)
    }
}

#[test]
fn unbounded_enforcement_has_one_worker_and_all_memory() {
    let input = EnforcerCostInput::unbounded(point(3.0), 0);
    assert_eq!(input.row_width_bytes, 1);
    assert_eq!(input.hard_memory_bytes, u64::MAX);
    assert_eq!(input.spill_policy, SpillPolicy::Allowed);
    assert_eq!(input.max_parallel_tasks, 1);
}

#[test]
fn no_step_is_no_phase() {
    let phase = enforcer_cost(
        &Vec::new(),
        enforcer_input(0, SpillPolicy::Forbidden),
        Some(1000),
    )
    .unwrap();
    assert!(!phase.present);
    assert!(phase.phase().is_none());
}

#[test]
fn a_sort_spills_where_that_is_allowed() {
    let steps = vec![EnforcerStep::Sort, EnforcerStep::Gather];
    let fits = enforcer_cost(&steps, enforcer_input(8000, SpillPolicy::Forbidden), Some(1000))
        .unwrap()
        .phase()
        .unwrap();
    assert_eq!(fits.peak_memory_upper, 8000);
    assert_eq!(fits.spill_bytes_expected, 0);
    assert_eq!(fits.profile, ParallelWorkProfile::BlockingMerge);
    assert_eq!(
        fits.items,
        vec![EnforcerWorkItem::SortRows, EnforcerWorkItem::StreamRows]
    );

    assert!(enforcer_cost(&steps, enforcer_input(7999, SpillPolicy::Forbidden), Some(1000))
        .is_none());

    let spills = enforcer_cost(&steps, enforcer_input(7999, SpillPolicy::Allowed), Some(1000))
        .unwrap()
        .cost;
    assert_eq!(spills.peak_memory_upper, 7999);
    assert_eq!(spills.spill_bytes_expected, 16_000);
    assert_eq!(
        spills.items,
        vec![
            EnforcerWorkItem::SortRows,
            EnforcerWorkItem::SpillPages(pages(16_000)),
            EnforcerWorkItem::StreamRows,
        ]
    );
    assert_eq!(pages(16_000), 4);
    assert_eq!(pages(0), 0);
    assert_eq!(pages(u64::MAX), u64::MAX / 4096);
}

#[test]
fn a_spool_never_spills() {
    for step in [EnforcerStep::Spool, EnforcerStep::MutationInputSpool] {
        assert!(
            enforcer_cost(&vec![step], enforcer_input(7999, SpillPolicy::Allowed), Some(1000))
                .is_none()
        );
        let work = enforcer_cost(&vec![step], enforcer_input(8000, SpillPolicy::Allowed), Some(1000))
            .unwrap()
            .cost;
        assert_eq!(work.peak_memory_upper, 8000);
        assert_eq!(work.items, vec![EnforcerWorkItem::StreamRows]);
    }
}

#[test]
fn fetches_count_their_values() {
    let steps = vec![
        EnforcerStep::Fetch { values: 0 },
        EnforcerStep::FetchPreservingOrder { values: 3 },
    ];
    let work = enforcer_cost(&steps, enforcer_input(0, SpillPolicy::Forbidden), None)
        .unwrap()
        .cost;
    assert_eq!(
        work.items,
        vec![EnforcerWorkItem::FetchRows(1), EnforcerWorkItem::FetchRows(3)]
    );
    assert_eq!(work.profile, ParallelWorkProfile::Pipeline);
}

#[test]
fn published_source_work_is_shared() {
    let work = SourceWork::publish(SourceWorkData {
        source: WorkSourceId(3),
        source_rows: 40,
        base_cost: 1.5,
        cost: 2.5,
        retentions: Vec::new(),
        filters: Vec::new(),
        filter_apply_cost: 0.0,
        phased_cost: 0.0,
        phase_tasks: 1,
    });
    let other = work.copy();
    assert!(std::ptr::eq(work.snapshot(), other.snapshot()));
    assert_eq!(other.snapshot().source, WorkSourceId(3));
    assert_eq!(other.snapshot().cost, 2.5);
}

/// The benefit of fetching later with a scan model of eight-byte row
/// identities.
fn late_row_fetch_benefit(
    carrier_rows: u64,
    fetched_rows: u64,
    payload_widths: &Vec<usize>,
    carrier_stages: usize,
    penalty: f64,
    startup: f64,
) -> Option<f64> {
    let LateRowFetch {
        carrier_rows,
        carrier_stages,
        fetched_rows,
        payload_width,
    } = late_row_fetch(carrier_rows, fetched_rows, payload_widths, carrier_stages)?;
    let carrier_work = carrier_rows as f64 * carrier_stages as f64;
    let eager = carrier_work * payload_width as f64;
    let late = carrier_work * 8.0 + fetched_rows as f64 * payload_width as f64 * penalty + startup;
    let benefit = eager - late;
    (benefit > 0.0).then_some(benefit)
}

#[test]
fn late_fetch_needs_rows_stages_and_payload() {
    assert_eq!(late_row_fetch(0, 1, &vec![8], 1), None);
    assert_eq!(late_row_fetch(1, 1, &vec![8], 0), None);
    assert_eq!(late_row_fetch(1, 1, &vec![0, 0], 1), None);
    assert_eq!(
        late_row_fetch(10, 1, &vec![8, 16], 2),
        Some(LateRowFetch {
            carrier_rows: 10,
            carrier_stages: 2,
            fetched_rows: 1,
            payload_width: 24,
        })
    );
    assert_eq!(
        late_row_fetch_benefit(1000, 10, &vec![100], 2, 4.0, 1000.0),
        Some(200_000.0 - 16_000.0 - 4_000.0 - 1_000.0)
    );
}

#[test]
fn stream_rows_use_the_enforcer_class() {
    let mut work = LocalOperatorWork::default();
    work.add(OpClassId(OP_ENFORCER_STREAM_ROW), point(4.0))
        .unwrap();
    let cost = fold(&conservative_table(), &work);
    assert_eq!(cost.resources_expected[ResourceDimension::Cpu.index()], 1.0);
    assert_eq!(cost.resources_risk_upper[ResourceDimension::Cpu.index()], 4.0);
    assert_eq!(cost.critical_path, [0.5, 1.0, 4.0]);
}

#[test]
fn workers_shorten_only_the_critical_path() {
    let folded = || FoldedCost {
        score: 11u64,
        resources_expected: [1u64, 2],
        resources_risk_upper: [3u64, 4],
        work_latency: 20u64,
        critical_path: 16u64,
        max_parallel_tasks: 1,
    };
    for (profile, tasks, path, workers) in [
        (ParallelWorkProfile::Pipeline, 4, 4, 4),
        (ParallelWorkProfile::BlockingMerge, 2, 4, 2),
        (ParallelWorkProfile::Pipeline, 1, 16, 1),
        (ParallelWorkProfile::Pipeline, 0, 16, 1),
        (ParallelWorkProfile::Serial, 8, 16, 8),
    ] {
        let at = paro_optimizer::cost::calibration::fold_for_tasks(folded(), profile, tasks, 4);
        assert_eq!(at.score, 11);
        assert_eq!(at.resources_expected, [1, 2]);
        assert_eq!(at.resources_risk_upper, [3, 4]);
        assert_eq!(at.work_latency, 20);
        assert_eq!(at.critical_path, path);
        assert_eq!(at.max_parallel_tasks, workers);
    }
}
