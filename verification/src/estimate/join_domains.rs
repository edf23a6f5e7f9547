//! Distinct domains of equivalent join columns.

use std::sync::Arc;
use vstd::prelude::*;

use crate::cost::number::Number;
use crate::cost::relation_set::JoinRelationSet;
use crate::statistics::{DistinctEvidence, DistinctProvenance};
use crate::types::ColumnBinding;

verus! {

/// Columns that a join makes equal, and how many values they have.
#[derive(Debug)]
pub struct RelationsSetToStats {
    pub equivalent_relations: Vec<ColumnBinding>,
    /// From a complete sketch, where there is one.
    pub distinct_count_hll: usize,
    pub has_distinct_count_hll: bool,
    /// From anything else; the largest count where there is nothing.
    pub distinct_count_no_hll: usize,
}

/// The listed columns without repetition, in order of first occurrence.
pub open spec fn without_repetition(bindings: Seq<ColumnBinding>, n: nat) -> Seq<ColumnBinding>
    decreases n,
{
    if n == 0 {
        Seq::empty()
    } else {
        let before = without_repetition(bindings, (n - 1) as nat);
        if before.contains(bindings[n - 1]) {
            before
        } else {
            before.push(bindings[n - 1])
        }
    }
}

fn holds(bindings: &Vec<ColumnBinding>, binding: ColumnBinding) -> (r: bool)
    ensures
        r == bindings@.contains(binding),
{
    let mut i: usize = 0;
    while i < bindings.len()
        invariant
            i <= bindings@.len(),
            forall|k: int| 0 <= k < i ==> #[trigger] bindings@[k] != binding,
        decreases bindings@.len() - i,
    {
        if bindings[i] == binding {
            assert(bindings@.contains(bindings@[i as int]));
            return true;
        }
        i = i + 1;
    }
    false
}

impl RelationsSetToStats {
    /// Equal columns of which nothing is known.
    pub fn new(bindings: Vec<ColumnBinding>) -> (r: RelationsSetToStats)
        ensures
            r.equivalent_relations@ == without_repetition(bindings@, bindings@.len()),
            !r.has_distinct_count_hll,
            r.distinct_count_hll == 0,
            r.distinct_count_no_hll == usize::MAX,
    {
        let mut equivalent_relations: Vec<ColumnBinding> = Vec::new();
        let mut i: usize = 0;
        while i < bindings.len()
            invariant
                i <= bindings@.len(),
                equivalent_relations@ == without_repetition(bindings@, i as nat),
            decreases bindings@.len() - i,
        {
            if !holds(&equivalent_relations, bindings[i]) {
                equivalent_relations.push(bindings[i]);
            }
            i = i + 1;
        }
        RelationsSetToStats {
            equivalent_relations,
            distinct_count_hll: 0,
            has_distinct_count_hll: false,
            distinct_count_no_hll: usize::MAX,
        }
    }

    /// The count of the complete sketch, or else the other one.
    pub fn get_distinct_count(&self) -> (r: usize)
        ensures
            r == if self.has_distinct_count_hll {
                self.distinct_count_hll
            } else {
                self.distinct_count_no_hll
            },
    {
        if self.has_distinct_count_hll {
            self.distinct_count_hll
        } else {
            self.distinct_count_no_hll
        }
    }
}

/// The classes among the first `n` that have columns.
pub open spec fn with_columns(classes: Seq<RelationsSetToStats>, n: nat) -> Seq<RelationsSetToStats>
    decreases n,
{
    if n == 0 {
        Seq::empty()
    } else {
        let before = with_columns(classes, (n - 1) as nat);
        if classes[n - 1].equivalent_relations@.len() == 0 {
            before
        } else {
            before.push(classes[n - 1])
        }
    }
}

/// Drops classes without columns and keeps the others in order.
pub fn remove_empty_total_domains(classes: Vec<RelationsSetToStats>) -> (r: Vec<
    RelationsSetToStats,
>)
    ensures
        r@ == with_columns(classes@, classes@.len()),
{
    let ghost all = classes@;
    let mut rest = classes;
    let mut reversed: Vec<RelationsSetToStats> = Vec::new();
    while rest.len() > 0
        invariant
            rest@.len() <= all.len(),
            rest@ == all.take(rest@.len() as int),
            with_columns(all, all.len()) == with_columns(all, rest@.len()) + reversed@.reverse(),
        decreases rest@.len(),
    {
        let ghost n = rest@.len();
        let ghost held = reversed@;
        if let Some(class) = rest.pop() {
            assert(class == all[n - 1]);
            assert(rest@ =~= all.take(n - 1));
            if class.equivalent_relations.len() > 0 {
                reversed.push(class);
                assert(reversed@.reverse() =~= seq![class] + held.reverse());
                assert(with_columns(all, n) + held.reverse() =~= with_columns(all, (n - 1) as nat)
                    + reversed@.reverse());
            }
        }
    }
    let mut r: Vec<RelationsSetToStats> = Vec::new();
    let ghost kept = reversed@;
    assert(with_columns(all, 0) + kept.reverse() =~= kept.reverse());
    while reversed.len() > 0
        invariant
            reversed@.len() <= kept.len(),
            reversed@ == kept.take(reversed@.len() as int),
            r@ == kept.reverse().take(kept.len() - reversed@.len()),
        decreases reversed@.len(),
    {
        let ghost n = reversed@.len();
        if let Some(class) = reversed.pop() {
            r.push(class);
            assert(reversed@ =~= kept.take(n - 1));
            assert(r@ =~= kept.reverse().take(kept.len() - n + 1));
        }
    }
    assert(r@ =~= kept.reverse());
    r
}

/// The number of values that a column has, and whether a complete sketch says
/// so.
#[derive(Clone, Copy, Debug, PartialEq, Eq, Structural)]
pub struct DistinctDomainEstimate {
    pub distinct: usize,
    pub has_hll: bool,
}

pub open spec fn fitting(n: u64) -> usize {
    if n <= usize::MAX {
        n as usize
    } else {
        usize::MAX
    }
}

impl DistinctDomainEstimate {
    /// What evidence says of a column's domain. A sketch of all rows counts as
    /// observed. A derived point counts, but not as observed. Of anything else
    /// only a bound can be used; without one, all rows may be distinct.
    pub open spec fn of(evidence: DistinctEvidence, rows: usize) -> DistinctDomainEstimate {
        if evidence.provenance is Observed && evidence.point > 0 {
            DistinctDomainEstimate { distinct: fitting(evidence.point), has_hll: true }
        } else if evidence.provenance is Derived && evidence.point > 0 {
            DistinctDomainEstimate { distinct: fitting(evidence.point), has_hll: false }
        } else {
            DistinctDomainEstimate {
                distinct: match evidence.upper {
                    Some(upper) => fitting(upper),
                    None => rows,
                },
                has_hll: false,
            }
        }
    }

    pub fn from_evidence(evidence: DistinctEvidence, rows: usize) -> (r: DistinctDomainEstimate)
        ensures
            r == DistinctDomainEstimate::of(evidence, rows),
    {
        match evidence.provenance {
            DistinctProvenance::Observed => if evidence.point > 0 {
                return DistinctDomainEstimate { distinct: as_count(evidence.point), has_hll: true };
            },
            DistinctProvenance::Derived => if evidence.point > 0 {
                return DistinctDomainEstimate {
                    distinct: as_count(evidence.point),
                    has_hll: false,
                };
            },
            _ => {},
        }
        let distinct: usize = match evidence.upper {
            Some(upper) => as_count(upper),
            None => rows,
        };
        DistinctDomainEstimate { distinct, has_hll: false }
    }

    pub fn value(&self) -> (r: usize)
        ensures
            r == self.distinct,
    {
        self.distinct
    }
}

fn as_count(n: u64) -> (r: usize)
    ensures
        r == fitting(n),
{
    if n <= usize::MAX as u64 {
        n as usize
    } else {
        usize::MAX
    }
}

/// Rows of a set of relations before any filter.
#[derive(Clone, Copy, Debug, PartialEq, Eq, Structural)]
pub struct CardinalityHelper {
    pub cardinality_before_filters: Number,
}

impl CardinalityHelper {
    pub fn new(cardinality_before_filters: Number) -> (r: CardinalityHelper)
        ensures
            r.cardinality_before_filters == cardinality_before_filters,
    {
        CardinalityHelper { cardinality_before_filters }
    }
}

/// What a product of rows is divided by.
#[derive(Debug)]
pub struct DenomInfo {
    pub numerator_relations: Arc<JoinRelationSet>,
    pub filter_strength: Number,
    pub denominator: Number,
}

impl DenomInfo {
    pub fn new(
        numerator_relations: Arc<JoinRelationSet>,
        filter_strength: Number,
        denominator: Number,
    ) -> (r: DenomInfo)
        ensures
            r == (DenomInfo { numerator_relations, filter_strength, denominator }),
    {
        DenomInfo { numerator_relations, filter_strength, denominator }
    }
}

/// Leaving out repetitions keeps every listed column once, in order of first
/// occurrence.
pub proof fn repetitions_are_left_out(bindings: Seq<ColumnBinding>, n: nat)
    requires
        n <= bindings.len(),
    ensures
        without_repetition(bindings, n).no_duplicates(),
        forall|b: ColumnBinding| #[trigger]
            without_repetition(bindings, n).contains(b) <==> bindings.take(n as int).contains(b),
    decreases n,
{
    let now = without_repetition(bindings, n);
    if n == 0 {
        assert(bindings.take(0) =~= Seq::empty());
    } else {
        repetitions_are_left_out(bindings, (n - 1) as nat);
        let before = without_repetition(bindings, (n - 1) as nat);
        let earlier = bindings.take(n - 1);
        let later = bindings.take(n as int);
        let last = bindings[n - 1];
        assert(later =~= earlier.push(last));
        assert forall|b: ColumnBinding| #[trigger] now.contains(b) <==> later.contains(b) by {
            assert(before.contains(b) <==> earlier.contains(b));
            if earlier.contains(b) {
                let k = choose|k: int| 0 <= k < earlier.len() && earlier[k] == b;
                assert(later[k] == b);
                let j = choose|j: int| 0 <= j < before.len() && before[j] == b;
                assert(now[j] == b);
            }
            if b == last {
                assert(later[n - 1] == b);
                if !before.contains(last) {
                    assert(now[before.len() as int] == b);
                }
            }
            if now.contains(b) && b != last {
                let j = choose|j: int| 0 <= j < now.len() && now[j] == b;
                assert(before[j] == b);
            }
            if later.contains(b) && b != last {
                let k = choose|k: int| 0 <= k < later.len() && later[k] == b;
                assert(earlier[k] == b);
            }
        }
    }
}

/// A domain counts as observed only where all rows were. Evidence with a point
/// gives that point; without a point, a bound; without either, all rows may differ.
pub proof fn domain_estimate_follows_the_evidence(evidence: DistinctEvidence, rows: usize)
    ensures
        ({
            let r = DistinctDomainEstimate::of(evidence, rows);
            &&& r.has_hll ==> evidence.provenance is Observed && evidence.point > 0
            &&& evidence.point > 0 && evidence.point <= usize::MAX && (
            evidence.provenance is Observed || evidence.provenance is Derived) ==> r.distinct
                == evidence.point
            &&& evidence.point == 0 && evidence.upper is None ==> r.distinct == rows && !r.has_hll
            &&& evidence.point == 0 ==> (evidence.upper matches Some(upper) ==> r.distinct
                <= upper)
        }),
{
}

} // verus!
