//! Timings of the optimizer's stages. Observation never selects a strategy.

use vstd::prelude::*;

use crate::estimate::cardinality::{capped, saturating_add_u64};

verus! {

#[derive(Clone, Copy, Debug, PartialEq, Eq, PartialOrd, Ord, Hash, Structural)]
pub enum OptimizerComponent {
    SemanticNormalization,
    RegionOptimization,
    PhysicalSelection,
    PhysicalExtraction,
}

impl OptimizerComponent {
    /// Position of a stage in the order in which the stages run.
    pub open spec fn spec_ordinal(self) -> usize {
        match self {
            OptimizerComponent::SemanticNormalization => 0,
            OptimizerComponent::RegionOptimization => 1,
            OptimizerComponent::PhysicalSelection => 2,
            OptimizerComponent::PhysicalExtraction => 3,
        }
    }

    fn ordinal(self) -> (r: usize)
        ensures
            r == self.spec_ordinal(),
            r < 4,
    {
        match self {
            OptimizerComponent::SemanticNormalization => 0,
            OptimizerComponent::RegionOptimization => 1,
            OptimizerComponent::PhysicalSelection => 2,
            OptimizerComponent::PhysicalExtraction => 3,
        }
    }

    /// All stages in order.
    pub fn all() -> (r: [OptimizerComponent; 4])
        ensures
            forall|i: int| 0 <= i < 4 ==> (#[trigger] r@[i]).spec_ordinal() == i,
    {
        [
            OptimizerComponent::SemanticNormalization,
            OptimizerComponent::RegionOptimization,
            OptimizerComponent::PhysicalSelection,
            OptimizerComponent::PhysicalExtraction,
        ]
    }

    pub open spec fn spec_name(self) -> Seq<char> {
        match self {
            OptimizerComponent::SemanticNormalization => "semantic_normalization"@,
            OptimizerComponent::RegionOptimization => "region_optimization"@,
            OptimizerComponent::PhysicalSelection => "physical_selection"@,
            OptimizerComponent::PhysicalExtraction => "physical_extraction"@,
        }
    }

    /// Stable name in diagnostics.
    pub fn name(self) -> (r: &'static str)
        ensures
            r@ == self.spec_name(),
    {
        match self {
            OptimizerComponent::SemanticNormalization => "semantic_normalization",
            OptimizerComponent::RegionOptimization => "region_optimization",
            OptimizerComponent::PhysicalSelection => "physical_selection",
            OptimizerComponent::PhysicalExtraction => "physical_extraction",
        }
    }

    pub open spec fn spec_kind(self) -> Seq<char> {
        match self {
            OptimizerComponent::SemanticNormalization => "frontend"@,
            OptimizerComponent::RegionOptimization => "planning"@,
            OptimizerComponent::PhysicalSelection => "planning"@,
            OptimizerComponent::PhysicalExtraction => "extraction"@,
        }
    }

    /// Part of the optimizer that a stage belongs to.
    pub fn kind(self) -> (r: &'static str)
        ensures
            r@ == self.spec_kind(),
    {
        match self {
            OptimizerComponent::SemanticNormalization => "frontend",
            OptimizerComponent::RegionOptimization => "planning",
            OptimizerComponent::PhysicalSelection => "planning",
            OptimizerComponent::PhysicalExtraction => "extraction",
        }
    }
}

/// A span of time in nanoseconds.
#[derive(Clone, Copy, Debug, PartialEq, Eq, Structural)]
pub struct Elapsed {
    pub nanos: u128,
}

impl Elapsed {
    pub fn zero() -> (r: Elapsed)
        ensures
            r.nanos == 0,
    {
        Elapsed { nanos: 0 }
    }

    pub fn from_micros(micros: u64) -> (r: Elapsed)
        ensures
            r.nanos == micros * 1000,
    {
        Elapsed { nanos: micros as u128 * 1000 }
    }

    /// Whole microseconds.
    pub fn as_micros(&self) -> (r: u128)
        ensures
            r == self.nanos / 1000,
    {
        self.nanos / 1000
    }
}

/// Last time and number of runs of one stage.
#[derive(Clone, Copy, Debug, PartialEq, Eq, Structural)]
pub struct StageTiming {
    pub last_elapsed: Elapsed,
    pub invocation_count: u64,
}

/// Timings of all stages.
#[derive(Debug)]
pub struct OptimizerProfiler {
    stages: [StageTiming; 4],
}

#[derive(Clone, Copy, Debug, PartialEq, Eq, Structural)]
pub struct OptimizerProfileSnapshotEntry {
    pub component: OptimizerComponent,
    pub last_elapsed: Elapsed,
    pub invocation_count: u64,
}

#[derive(Clone, Debug)]
pub struct OptimizerProfileSnapshot {
    pub entries: Vec<OptimizerProfileSnapshotEntry>,
}

impl Default for OptimizerProfiler {
    fn default() -> (r: OptimizerProfiler)
        ensures
            forall|component: OptimizerComponent| #[trigger]
                r.stage(component) == (StageTiming {
                    last_elapsed: Elapsed { nanos: 0 },
                    invocation_count: 0,
                }),
    {
        OptimizerProfiler {
            stages: [StageTiming { last_elapsed: Elapsed { nanos: 0 }, invocation_count: 0 };4],
        }
    }
}

impl OptimizerProfiler {
    /// What is known of a stage.
    pub closed spec fn stage(self, component: OptimizerComponent) -> StageTiming {
        self.stages@[component.spec_ordinal() as int]
    }

    /// Records one run of a stage.
    pub fn record(&mut self, component: OptimizerComponent, elapsed: Elapsed)
        ensures
            forall|other: OptimizerComponent| #[trigger]
                final(self).stage(other) == if other == component {
                    StageTiming {
                        last_elapsed: elapsed,
                        invocation_count: capped(old(self).stage(component).invocation_count + 1),
                    }
                } else {
                    old(self).stage(other)
                },
    {
        let i: usize = component.ordinal();
        let count: u64 = self.stages[i].invocation_count;
        self.stages[i] = StageTiming {
            last_elapsed: elapsed,
            invocation_count: saturating_add_u64(count, 1),
        };
    }

    /// All stages in order. A stage that never ran has no time and no runs.
    pub fn into_snapshot(self) -> (r: OptimizerProfileSnapshot)
        ensures
            r.entries@.len() == 4,
            forall|i: int|
                0 <= i < 4 ==> {
                    let entry = #[trigger] r.entries@[i];
                    &&& entry.component.spec_ordinal() == i
                    &&& entry.last_elapsed == self.stage(entry.component).last_elapsed
                    &&& entry.invocation_count == self.stage(entry.component).invocation_count
                },
    {
        let all = OptimizerComponent::all();
        let mut entries: Vec<OptimizerProfileSnapshotEntry> = Vec::new();
        let mut i: usize = 0;
        while i < 4
            invariant
                i <= 4,
                entries@.len() == i,
                forall|k: int| 0 <= k < 4 ==> (#[trigger] all@[k]).spec_ordinal() == k,
                forall|k: int|
                    0 <= k < i ==> {
                        let entry = #[trigger] entries@[k];
                        &&& entry.component.spec_ordinal() == k
                        &&& entry.last_elapsed == self.stage(entry.component).last_elapsed
                        &&& entry.invocation_count == self.stage(entry.component).invocation_count
                    },
            decreases 4 - i,
        {
            assert(all@[i as int].spec_ordinal() == i);
            entries.push(
                OptimizerProfileSnapshotEntry {
                    component: all[i],
                    last_elapsed: self.stages[i].last_elapsed,
                    invocation_count: self.stages[i].invocation_count,
                },
            );
            i = i + 1;
        }
        OptimizerProfileSnapshot { entries }
    }
}

/// One reported line; numbers are capped at the largest that it holds.
#[derive(Clone, Copy, Debug)]
pub struct OptimizerDiagnostic {
    pub name: &'static str,
    pub kind: &'static str,
    pub last_elapsed_us: i64,
    pub invocation_count: i64,
}

pub open spec fn capped_signed(n: int) -> i64 {
    if n <= i64::MAX {
        n as i64
    } else {
        i64::MAX
    }
}

/// Whether a line reports a stage.
pub open spec fn reports(line: OptimizerDiagnostic, entry: OptimizerProfileSnapshotEntry) -> bool {
    &&& line.name@ == entry.component.spec_name()
    &&& line.kind@ == entry.component.spec_kind()
    &&& line.last_elapsed_us == capped_signed((entry.last_elapsed.nanos / 1000) as int)
    &&& line.invocation_count == capped_signed(entry.invocation_count as int)
}

/// The lines that report a snapshot, in its order.
pub fn diagnostic_lines(snapshot: &OptimizerProfileSnapshot) -> (r: Vec<OptimizerDiagnostic>)
    ensures
        r@.len() == snapshot.entries@.len(),
        forall|i: int| 0 <= i < r@.len() ==> reports(#[trigger] r@[i], snapshot.entries@[i]),
{
    let mut r: Vec<OptimizerDiagnostic> = Vec::new();
    let mut i: usize = 0;
    while i < snapshot.entries.len()
        invariant
            i <= snapshot.entries@.len(),
            r@.len() == i,
            forall|k: int| 0 <= k < i ==> reports(#[trigger] r@[k], snapshot.entries@[k]),
        decreases snapshot.entries@.len() - i,
    {
        let entry = snapshot.entries[i];
        let micros: u128 = entry.last_elapsed.as_micros();
        r.push(
            OptimizerDiagnostic {
                name: entry.component.name(),
                kind: entry.component.kind(),
                last_elapsed_us: if micros <= i64::MAX as u128 {
                    micros as i64
                } else {
                    i64::MAX
                },
                invocation_count: if entry.invocation_count <= i64::MAX as u64 {
                    entry.invocation_count as i64
                } else {
                    i64::MAX
                },
            },
        );
        i = i + 1;
    }
    r
}

/// A line reports the whole microseconds that fit into the time of its stage.
pub proof fn reported_time_is_in_microseconds(
    line: OptimizerDiagnostic,
    entry: OptimizerProfileSnapshotEntry,
)
    requires
        reports(line, entry),
    ensures
        0 <= line.last_elapsed_us * 1000 <= entry.last_elapsed.nanos,
        line.last_elapsed_us < i64::MAX ==> entry.last_elapsed.nanos < (line.last_elapsed_us + 1)
            * 1000,
        0 <= line.invocation_count <= entry.invocation_count,
        line.invocation_count < i64::MAX ==> line.invocation_count == entry.invocation_count,
{
}

} // verus!
