//! Work of converting physical properties, and whether it fits the grant.

use vstd::prelude::*;

use crate::cost::calibration::{CompactRange, ParallelWorkProfile};
use crate::cost::materialization::{bytes_for_rows, row_bytes};
use crate::estimate::cardinality::{
    capped, greatest, maximum, saturating_add_u64, saturating_mul_u64,
};

verus! {

#[derive(Clone, Copy, Debug, PartialEq, Eq, Structural)]
pub enum SpillPolicy {
    Allowed,
    Forbidden,
}

/// What the work of enforcing properties depends on: rows of the candidate and
/// the grant that it runs under.
#[derive(Clone, Copy, Debug, PartialEq, Eq, Structural)]
pub struct EnforcerCostInput {
    pub rows: CompactRange,
    pub row_width_bytes: u64,
    pub hard_memory_bytes: u64,
    pub spill_policy: SpillPolicy,
    pub max_parallel_tasks: u16,
}

impl EnforcerCostInput {
    /// Without a limit on memory, on one worker. A row takes at least one byte.
    pub fn unbounded(rows: CompactRange, row_width_bytes: u64) -> (r: EnforcerCostInput)
        ensures
            r == (EnforcerCostInput {
                rows,
                row_width_bytes: if row_width_bytes == 0 {
                    1
                } else {
                    row_width_bytes
                },
                hard_memory_bytes: u64::MAX,
                spill_policy: SpillPolicy::Allowed,
                max_parallel_tasks: 1,
            }),
    {
        EnforcerCostInput {
            rows,
            row_width_bytes: if row_width_bytes == 0 {
                1
            } else {
                row_width_bytes
            },
            hard_memory_bytes: u64::MAX,
            spill_policy: SpillPolicy::Allowed,
            max_parallel_tasks: 1,
        }
    }
}

/// The cost of an enforcing phase. No phase and a phase without work differ.
#[derive(Clone, Copy, Debug)]
pub struct EnforcerPhaseCost<C> {
    pub cost: C,
    pub present: bool,
}

impl<C> EnforcerPhaseCost<C> {
    /// The cost of the phase, where there is one. It comes after that of the
    /// input.
    pub fn phase(self) -> (r: Option<C>)
        ensures
            r == if self.present {
                Some(self.cost)
            } else {
                None
            },
    {
        if self.present {
            Some(self.cost)
        } else {
            None
        }
    }
}

/// A conversion of physical properties.
#[derive(Clone, Copy, Debug, PartialEq, Eq, Structural)]
pub enum EnforcerStep {
    Sort,
    LocalSort,
    MutationInputSpool,
    Spool,
    /// Fetches so many values for each row.
    Fetch { values: u64 },
    FetchPreservingOrder { values: u64 },
    Gather,
    RepartitionHash,
    RepartitionRange,
    MergeGather,
    PrepareOrderedFetch,
    Flatten,
    Factorize,
}

/// Work of one class.
#[derive(Clone, Copy, Debug, PartialEq, Eq, Structural)]
pub enum EnforcerWorkItem {
    /// Comparisons of sorting the rows.
    SortRows,
    SpillPages(u64),
    StreamRows,
    /// So many random fetches for each row.
    FetchRows(u64),
}

/// Work and memory of all steps.
#[derive(Debug)]
pub struct EnforcerWork {
    pub items: Vec<EnforcerWorkItem>,
    pub profile: ParallelWorkProfile,
    pub peak_memory_upper: u64,
    pub spill_bytes_expected: u64,
}

pub struct EnforcerWorkView {
    pub items: Seq<EnforcerWorkItem>,
    pub profile: ParallelWorkProfile,
    pub peak_memory_upper: u64,
    pub spill_bytes_expected: u64,
}

impl View for EnforcerWork {
    type V = EnforcerWorkView;

    open spec fn view(&self) -> EnforcerWorkView {
        EnforcerWorkView {
            items: self.items@,
            profile: self.profile,
            peak_memory_upper: self.peak_memory_upper,
            spill_bytes_expected: self.spill_bytes_expected,
        }
    }
}

/// Pages of so many bytes.
pub open spec fn page_count(bytes: u64) -> u64 {
    (capped(bytes + 4095) / 4096) as u64
}

pub fn pages(bytes: u64) -> (r: u64)
    ensures
        r == page_count(bytes),
{
    saturating_add_u64(bytes, 4095) / 4096
}

pub open spec fn is_sort(step: EnforcerStep) -> bool {
    step is Sort || step is LocalSort
}

pub open spec fn is_spool(step: EnforcerStep) -> bool {
    step is MutationInputSpool || step is Spool
}

/// Work and memory with one more step; none where the step does not fit. A
/// sort may spill where that is allowed; a spool keeps its rows in memory.
pub open spec fn with_step(
    before: EnforcerWorkView,
    step: EnforcerStep,
    bytes: u64,
    memory: u64,
    policy: SpillPolicy,
) -> Option<EnforcerWorkView> {
    if is_sort(step) {
        if bytes <= memory {
            Some(
                EnforcerWorkView {
                    items: before.items.push(EnforcerWorkItem::SortRows),
                    profile: ParallelWorkProfile::BlockingMerge,
                    peak_memory_upper: greatest(before.peak_memory_upper, bytes),
                    ..before
                },
            )
        } else if policy is Forbidden {
            None
        } else {
            let spilled = capped(bytes * 2);
            Some(
                EnforcerWorkView {
                    items: before.items.push(EnforcerWorkItem::SortRows).push(
                        EnforcerWorkItem::SpillPages(page_count(spilled)),
                    ),
                    profile: ParallelWorkProfile::BlockingMerge,
                    peak_memory_upper: greatest(before.peak_memory_upper, memory),
                    spill_bytes_expected: capped(before.spill_bytes_expected + spilled),
                },
            )
        }
    } else if is_spool(step) {
        if bytes > memory {
            None
        } else {
            Some(
                EnforcerWorkView {
                    items: before.items.push(EnforcerWorkItem::StreamRows),
                    peak_memory_upper: greatest(before.peak_memory_upper, bytes),
                    ..before
                },
            )
        }
    } else {
        Some(
            EnforcerWorkView {
                items: before.items.push(
                    match step {
                        EnforcerStep::Fetch { values } => EnforcerWorkItem::FetchRows(
                            greatest(values, 1),
                        ),
                        EnforcerStep::FetchPreservingOrder { values } => EnforcerWorkItem::FetchRows(
                            greatest(values, 1),
                        ),
                        _ => EnforcerWorkItem::StreamRows,
                    },
                ),
                ..before
            },
        )
    }
}

/// Work and memory of the first `k` steps.
pub open spec fn steps_work(
    steps: Seq<EnforcerStep>,
    bytes: u64,
    memory: u64,
    policy: SpillPolicy,
    k: nat,
) -> Option<EnforcerWorkView>
    decreases k,
{
    if k == 0 {
        Some(
            EnforcerWorkView {
                items: Seq::empty(),
                profile: ParallelWorkProfile::Pipeline,
                peak_memory_upper: 0,
                spill_bytes_expected: 0,
            },
        )
    } else {
        match steps_work(steps, bytes, memory, policy, (k - 1) as nat) {
            Some(before) => with_step(before, steps[k - 1], bytes, memory, policy),
            None => None,
        }
    }
}

proof fn lemma_infeasible_stays(
    steps: Seq<EnforcerStep>,
    bytes: u64,
    memory: u64,
    policy: SpillPolicy,
    k: nat,
    m: nat,
)
    requires
        k <= m,
        steps_work(steps, bytes, memory, policy, k) is None,
    ensures
        steps_work(steps, bytes, memory, policy, m) is None,
    decreases m,
{
    if k < m {
        lemma_infeasible_stays(steps, bytes, memory, policy, k, (m - 1) as nat);
    }
}

/// The work of converting properties; none where the conversion does not fit
/// its grant. Without steps there is no phase.
pub fn enforcer_cost(
    steps: &Vec<EnforcerStep>,
    input: EnforcerCostInput,
    rows_upper: Option<u64>,
) -> (r: Option<EnforcerPhaseCost<EnforcerWork>>)
    ensures
        match steps_work(
            steps@,
            row_bytes(rows_upper, input.row_width_bytes),
            input.hard_memory_bytes,
            input.spill_policy,
            steps@.len(),
        ) {
            Some(work) => r matches Some(phase) && phase.cost@ == work && phase.present == (
            steps@.len() > 0),
            None => r is None,
        },
{
    let bytes: u64 = bytes_for_rows(rows_upper, input.row_width_bytes);
    let memory: u64 = input.hard_memory_bytes;
    let mut items: Vec<EnforcerWorkItem> = Vec::new();
    let mut profile = ParallelWorkProfile::Pipeline;
    let mut peak: u64 = 0;
    let mut spill: u64 = 0;
    let mut i: usize = 0;
    while i < steps.len()
        invariant
            i <= steps@.len(),
            memory == input.hard_memory_bytes,
            bytes == row_bytes(rows_upper, input.row_width_bytes),
            steps_work(steps@, bytes, memory, input.spill_policy, i as nat) == Some(
                EnforcerWorkView {
                    items: items@,
                    profile,
                    peak_memory_upper: peak,
                    spill_bytes_expected: spill,
                },
            ),
        decreases steps@.len() - i,
    {
        match steps[i] {
            EnforcerStep::Sort | EnforcerStep::LocalSort => {
                if bytes > memory {
                    match input.spill_policy {
                        SpillPolicy::Forbidden => {
                            proof {
                                lemma_infeasible_stays(
                                    steps@,
                                    bytes,
                                    memory,
                                    input.spill_policy,
                                    (i + 1) as nat,
                                    steps@.len(),
                                );
                            }
                            return None;
                        },
                        SpillPolicy::Allowed => {},
                    }
                    let spilled: u64 = saturating_mul_u64(bytes, 2);
                    items.push(EnforcerWorkItem::SortRows);
                    items.push(EnforcerWorkItem::SpillPages(pages(spilled)));
                    peak = maximum(peak, memory);
                    spill = saturating_add_u64(spill, spilled);
                } else {
                    items.push(EnforcerWorkItem::SortRows);
                    peak = maximum(peak, bytes);
                }
                profile = ParallelWorkProfile::BlockingMerge;
            },
            EnforcerStep::MutationInputSpool | EnforcerStep::Spool => {
                if bytes > memory {
                    proof {
                        lemma_infeasible_stays(
                            steps@,
                            bytes,
                            memory,
                            input.spill_policy,
                            (i + 1) as nat,
                            steps@.len(),
                        );
                    }
                    return None;
                }
                items.push(EnforcerWorkItem::StreamRows);
                peak = maximum(peak, bytes);
            },
            EnforcerStep::Fetch { values } => {
                items.push(EnforcerWorkItem::FetchRows(maximum(values, 1)));
            },
            EnforcerStep::FetchPreservingOrder { values } => {
                items.push(EnforcerWorkItem::FetchRows(maximum(values, 1)));
            },
            _ => {
                items.push(EnforcerWorkItem::StreamRows);
            },
        }
        i = i + 1;
    }
    Some(
        EnforcerPhaseCost {
            cost: EnforcerWork {
                items,
                profile,
                peak_memory_upper: peak,
                spill_bytes_expected: spill,
            },
            present: steps.len() > 0,
        },
    )
}

proof fn lemma_peak_is_bounded(
    steps: Seq<EnforcerStep>,
    bytes: u64,
    memory: u64,
    policy: SpillPolicy,
    k: nat,
)
    requires
        steps_work(steps, bytes, memory, policy, k) is Some,
    ensures
        (steps_work(steps, bytes, memory, policy, k)->0).peak_memory_upper <= memory,
    decreases k,
{
    if k > 0 {
        lemma_peak_is_bounded(steps, bytes, memory, policy, (k - 1) as nat);
    }
}

/// A feasible conversion never holds more memory than its grant.
pub proof fn feasible_work_fits_its_grant(
    steps: Seq<EnforcerStep>,
    bytes: u64,
    memory: u64,
    policy: SpillPolicy,
)
    requires
        steps_work(steps, bytes, memory, policy, steps.len()) is Some,
    ensures
        (steps_work(steps, bytes, memory, policy, steps.len())->0).peak_memory_upper <= memory,
{
    lemma_peak_is_bounded(steps, bytes, memory, policy, steps.len());
}

/// Pages of four kilobytes hold all the bytes, and one page less would not.
pub proof fn pages_hold_the_bytes(bytes: u64)
    requires
        bytes <= u64::MAX - 4095,
    ensures
        page_count(bytes) * 4096 >= bytes,
        bytes > 0 ==> (page_count(bytes) - 1) * 4096 < bytes,
        bytes == 0 ==> page_count(bytes) == 0,
{
}

/// A conversion is impossible exactly where its rows do not fit into memory and
/// some step must keep them there: a spool, or a sort that may not spill.
pub proof fn conversion_fails_only_for_want_of_memory(
    steps: Seq<EnforcerStep>,
    bytes: u64,
    memory: u64,
    policy: SpillPolicy,
    k: nat,
)
    requires
        k <= steps.len(),
    ensures
        steps_work(steps, bytes, memory, policy, k) is None <==> bytes > memory && exists|i: int|
            0 <= i < k && keeps_rows(#[trigger] steps[i], policy),
    decreases k,
{
    if k > 0 {
        conversion_fails_only_for_want_of_memory(steps, bytes, memory, policy, (k - 1) as nat);
        if keeps_rows(steps[k - 1], policy) {
            assert(keeps_rows(steps[k - 1], policy));
        }
    }
}

/// Whether a step has to keep all rows in memory.
pub open spec fn keeps_rows(step: EnforcerStep, policy: SpillPolicy) -> bool {
    match step {
        EnforcerStep::Spool => true,
        EnforcerStep::MutationInputSpool => true,
        EnforcerStep::Sort => policy is Forbidden,
        EnforcerStep::LocalSort => policy is Forbidden,
        _ => false,
    }
}

/// Whether a step orders rows.
pub open spec fn orders_rows(step: EnforcerStep) -> bool {
    step matches EnforcerStep::Sort || step matches EnforcerStep::LocalSort
}

/// A conversion merges at its end exactly where some step sorts, spills exactly
/// where some step sorts more than fits into memory, and holds memory only for
/// sorts and spools.
pub proof fn only_sorts_merge_and_spill(
    steps: Seq<EnforcerStep>,
    bytes: u64,
    memory: u64,
    policy: SpillPolicy,
    k: nat,
)
    requires
        k <= steps.len(),
        steps_work(steps, bytes, memory, policy, k) is Some,
    ensures
        ({
            let work = steps_work(steps, bytes, memory, policy, k)->0;
            let sorts = exists|i: int| 0 <= i < k && orders_rows(#[trigger] steps[i]);
            &&& work.profile is BlockingMerge <==> sorts
            &&& work.spill_bytes_expected > 0 <==> sorts && bytes > memory
            &&& work.items.len() >= k
            &&& bytes <= memory ==> work.items.len() == k
            &&& work.peak_memory_upper <= bytes
        }),
    decreases k,
{
    if k > 0 {
        only_sorts_merge_and_spill(steps, bytes, memory, policy, (k - 1) as nat);
        if orders_rows(steps[k - 1]) {
            assert(orders_rows(steps[k - 1]));
        }
    }
}

} // verus!
