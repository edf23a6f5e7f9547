use paro_optimizer::diagnostics::profile::{
    diagnostic_lines, Elapsed, OptimizerComponent, OptimizerProfiler,
};
use paro_optimizer::diagnostics::rejection::{
    reject, RejectionReasons, TransformationRejectionCounts, TransformationRejectionGuard,
};

#[test]
fn snapshot_records_invocations_without_inventing_work_in_absent_stages() {
    let mut report = OptimizerProfiler::default();
    report.record(
        OptimizerComponent::RegionOptimization,
        Elapsed::from_micros(7),
    );
    report.record(
        OptimizerComponent::RegionOptimization,
        Elapsed::from_micros(9),
    );
    let snapshot = report.into_snapshot();
    assert_eq!(snapshot.entries.len(), OptimizerComponent::all().len());
    for entry in snapshot.entries {
        if entry.component == OptimizerComponent::RegionOptimization {
            assert_eq!(entry.invocation_count, 2);
            assert_eq!(entry.last_elapsed, Elapsed::from_micros(9));
        } else {
            assert_eq!(entry.invocation_count, 0);
            assert_eq!(entry.last_elapsed, Elapsed::zero());
        }
    }
}

#[test]
fn bounded_guards_deduplicate_per_binding_and_saturate() {
    assert!(TransformationRejectionGuard::all().len() <= u64::BITS as usize);
    let mut reasons = RejectionReasons::default();
    reasons.record(TransformationRejectionGuard::SelectiveRowIdPath);
    reasons.record(TransformationRejectionGuard::SelectiveRowIdPath);
    reasons.record(TransformationRejectionGuard::SelectiveNoBenefit);
    let mut counts = TransformationRejectionCounts::default();
    counts.record(reasons);
    assert_eq!(
        counts.iter().into_iter().map(|(_, count)| count).sum::<u64>(),
        2
    );
    counts.0[TransformationRejectionGuard::SelectiveRowIdPath.ordinal()] = u64::MAX;
    counts.record(reasons);
    assert_eq!(
        counts.0[TransformationRejectionGuard::SelectiveRowIdPath.ordinal()],
        u64::MAX
    );
}

#[test]
fn disabled_guard_recording_preserves_option_result() {
    let mut disabled = None;
    assert_eq!(
        reject::<()>(&mut disabled, TransformationRejectionGuard::SelectiveShape),
        None
    );
    assert!(disabled.is_none());
}

#[test]
fn enabled_guard_recording_remembers_the_guard() {
    let mut enabled = Some(RejectionReasons::default());
    assert_eq!(
        reject::<u8>(&mut enabled, TransformationRejectionGuard::SelectiveShape),
        None
    );
    let reasons = enabled.unwrap();
    assert!(reasons.has(TransformationRejectionGuard::SelectiveShape));
    assert!(!reasons.has(TransformationRejectionGuard::SelectiveNoBenefit));
    assert_eq!(RejectionReasons::default().bits, 0);
    assert_eq!(
        reasons.bits,
        1u64 << TransformationRejectionGuard::SelectiveShape.ordinal()
    );
    let mut both = Some(reasons);
    let _ = reject::<u8>(&mut both, TransformationRejectionGuard::SelectiveNoBenefit);
    assert_eq!(
        both.unwrap().bits,
        reasons.bits | 1u64 << TransformationRejectionGuard::SelectiveNoBenefit.ordinal()
    );
}

#[test]
fn guard_names_are_distinct_and_follow_their_ordinals() {
    let all = TransformationRejectionGuard::all();
    for (index, guard) in all.iter().enumerate() {
        assert_eq!(guard.ordinal(), index);
        assert!(!guard.name().is_empty());
        assert!(guard
            .name()
            .chars()
            .all(|c| c == '_' || c.is_ascii_lowercase()));
        for other in &all[index + 1..] {
            assert_ne!(guard.name(), other.name());
        }
    }
}

#[test]
fn component_names_and_kinds() {
    for component in OptimizerComponent::all() {
        assert!(!component.name().is_empty());
        assert!(!component.kind().is_empty());
    }
}

#[test]
fn diagnostic_lines_report_whole_microseconds() {
    let mut report = OptimizerProfiler::default();
    report.record(
        OptimizerComponent::RegionOptimization,
        Elapsed { nanos: 7_999 },
    );
    let lines = diagnostic_lines(&report.into_snapshot());
    assert_eq!(lines.len(), 4);
    let line = lines
        .iter()
        .find(|line| line.name == OptimizerComponent::RegionOptimization.name())
        .unwrap();
    assert_eq!(line.last_elapsed_us, 7);
    assert_eq!(line.invocation_count, 1);
    assert_eq!(line.kind, OptimizerComponent::RegionOptimization.kind());
}
