//! Facts about physical responses that planning strategies share.

use std::sync::Arc;
use vstd::prelude::*;

use crate::expression::share;

verus! {

#[derive(Clone, Copy, Debug, PartialEq, Eq, PartialOrd, Ord, Structural)]
pub enum GrantDependencyDescriptor {
    /// Neither memory nor workers affect this implementation. Its inputs can
    /// still be affected.
    Invariant,
    /// Independent of memory; supply and latency depend on the workers.
    Parallelism,
    /// The complete operating point matters.
    Sensitive,
}

/// One base row source of a query. Aliases of one table are different sources.
#[derive(Clone, Copy, Debug, PartialEq, Eq, PartialOrd, Ord, Structural)]
pub struct WorkSourceId(pub usize);

/// Identity of a proof that bounds which rows of a source survive. Using the
/// same proof again shrinks nothing further.
#[derive(Clone, Copy, Debug, PartialEq, Eq, PartialOrd, Ord, Structural)]
pub struct DomainProofId(pub u128);

/// Identity of one physical evaluation of a predicate. Two operators may
/// evaluate the same proof.
#[derive(Clone, Copy, Debug, PartialEq, Eq, PartialOrd, Ord, Structural)]
pub struct EvaluationOccurrenceId(pub u128);

/// What a runtime filter retains of one source, in millionths.
#[derive(Clone, Copy, Debug, PartialEq, Eq, Structural)]
pub struct SidewaysFilterSource {
    pub source: WorkSourceId,
    pub domain: DomainProofId,
    pub evaluation: EvaluationOccurrenceId,
    pub expected_retained_ppm: u32,
    pub upper_retained_ppm: u32,
}

/// A bound on the survivors of a source, relative to all of its rows.
#[derive(Clone, Copy, Debug, PartialEq, Eq, Structural)]
pub struct SourceRetentionProof {
    pub domain: DomainProofId,
    pub expected_retained_ppm: u32,
    pub upper_retained_ppm: u32,
}

/// A predicate on a source and what it costs on all of the source's rows.
#[derive(Debug)]
pub struct SourceFilterWork<C> {
    pub domain: DomainProofId,
    pub evaluation: EvaluationOccurrenceId,
    pub evaluation_rows: u64,
    pub expected_retained_ppm: u32,
    pub upper_retained_ppm: u32,
    pub full_apply_cost: C,
}

/// Work on one source. All survivor bounds refer to the unfiltered source.
#[derive(Debug)]
pub struct SourceWorkData<C> {
    pub source: WorkSourceId,
    pub source_rows: u64,
    pub base_cost: C,
    pub cost: C,
    pub retentions: Vec<SourceRetentionProof>,
    pub filters: Vec<SourceFilterWork<C>>,
    pub filter_apply_cost: C,
    pub phased_cost: C,
    pub phase_tasks: u16,
}

/// Published work on a source. It is shared and does not change.
#[derive(Debug)]
pub struct SourceWork<C>(Arc<SourceWorkData<C>>);

impl<C> SourceWork<C> {
    /// The published work.
    pub closed spec fn data(self) -> SourceWorkData<C> {
        *self.0
    }

    pub fn publish(data: SourceWorkData<C>) -> (r: SourceWork<C>)
        ensures
            r.data() == data,
    {
        SourceWork(Arc::new(data))
    }

    pub fn snapshot(&self) -> (r: &SourceWorkData<C>)
        ensures
            *r == self.data(),
    {
        &self.0
    }

    /// Another owner of the same published work.
    pub fn copy(&self) -> (r: SourceWork<C>)
        ensures
            r == *self,
    {
        SourceWork(share(&self.0))
    }
}

} // verus!
