//! Evidence about the values of a column.

use vstd::prelude::*;

use crate::binding_map::BindingMap;
use crate::types::{ColumnBinding, LogicalType};
use crate::value::Value;

verus! {

/// Where a distinct count comes from.
#[derive(Clone, Copy, Debug, PartialEq, Eq, Structural)]
pub enum DistinctProvenance {
    Unknown,
    /// A sketch that saw every row.
    Observed,
    /// A sketch that saw some of the rows.
    ObservedPartial { observed_rows: u64, total_rows: u64 },
    /// Computed from other evidence.
    Derived,
}

/// Number of distinct values: bounds, and a point estimate that is zero where
/// there is none.
#[derive(Clone, Copy, Debug, PartialEq, Eq, Structural)]
pub struct DistinctEvidence {
    pub lower: u64,
    pub upper: Option<u64>,
    pub point: u64,
    pub provenance: DistinctProvenance,
}

impl Default for DistinctEvidence {
    fn default() -> (r: DistinctEvidence)
        ensures
            r == DistinctEvidence::none(),
    {
        DistinctEvidence {
            lower: 0,
            upper: None,
            point: 0,
            provenance: DistinctProvenance::Unknown,
        }
    }
}

impl DistinctEvidence {
    pub open spec fn none() -> DistinctEvidence {
        DistinctEvidence {
            lower: 0,
            upper: None,
            point: 0,
            provenance: DistinctProvenance::Unknown,
        }
    }
}

/// Normal distribution of a column's values; both moments are held as the bit
/// patterns of doubles.
#[derive(Clone, Copy, Debug, PartialEq, Eq, Structural)]
pub struct NumericDistribution {
    pub mean: u64,
    pub variance: u64,
}

#[derive(Debug)]
pub struct ColumnStatistics {
    pub logical_type: LogicalType,
    pub minimum: Option<Value>,
    pub maximum: Option<Value>,
    pub distinct: DistinctEvidence,
    /// Number of distinct values that is proven not to be exceeded.
    pub guaranteed_distinct_upper: Option<u64>,
    pub distribution: Option<NumericDistribution>,
}

impl ColumnStatistics {
    /// Nothing known of a column but its type.
    pub open spec fn unknown(logical_type: LogicalType) -> ColumnStatistics {
        ColumnStatistics {
            logical_type,
            minimum: None,
            maximum: None,
            distinct: DistinctEvidence::none(),
            guaranteed_distinct_upper: None,
            distribution: None,
        }
    }

    pub fn create_unknown(logical_type: LogicalType) -> (r: ColumnStatistics)
        ensures
            r == Self::unknown(logical_type),
    {
        ColumnStatistics {
            logical_type,
            minimum: None,
            maximum: None,
            distinct: DistinctEvidence::default(),
            guaranteed_distinct_upper: None,
            distribution: None,
        }
    }

    pub fn copy(&self) -> (r: ColumnStatistics)
        ensures
            r == *self,
    {
        ColumnStatistics {
            logical_type: self.logical_type,
            minimum: copy_bound(&self.minimum),
            maximum: copy_bound(&self.maximum),
            distinct: self.distinct,
            guaranteed_distinct_upper: self.guaranteed_distinct_upper,
            distribution: self.distribution,
        }
    }

    pub open spec fn bounded(self, upper: u64) -> ColumnStatistics {
        let tightest = match self.guaranteed_distinct_upper {
            Some(known) => if known <= upper {
                known
            } else {
                upper
            },
            None => upper,
        };
        ColumnStatistics {
            guaranteed_distinct_upper: Some(tightest),
            distinct: DistinctEvidence {
                point: if self.distinct.point <= tightest {
                    self.distinct.point
                } else {
                    tightest
                },
                ..self.distinct
            },
            ..self
        }
    }

    /// The same evidence with one more proven bound on the distinct values.
    pub fn with_guaranteed_distinct_upper(self, upper: u64) -> (r: ColumnStatistics)
        ensures
            r == self.bounded(upper),
    {
        let tightest: u64 = match self.guaranteed_distinct_upper {
            Some(known) => if known <= upper {
                known
            } else {
                upper
            },
            None => upper,
        };
        let point: u64 = if self.distinct.point <= tightest {
            self.distinct.point
        } else {
            tightest
        };
        ColumnStatistics {
            logical_type: self.logical_type,
            minimum: self.minimum,
            maximum: self.maximum,
            distinct: DistinctEvidence {
                lower: self.distinct.lower,
                upper: self.distinct.upper,
                point,
                provenance: self.distinct.provenance,
            },
            guaranteed_distinct_upper: Some(tightest),
            distribution: self.distribution,
        }
    }

    /// The same evidence with another value distribution.
    pub fn with_distribution(self, distribution: Option<NumericDistribution>) -> (r:
        ColumnStatistics)
        ensures
            r == (ColumnStatistics { distribution, ..self }),
    {
        ColumnStatistics {
            logical_type: self.logical_type,
            minimum: self.minimum,
            maximum: self.maximum,
            distinct: self.distinct,
            guaranteed_distinct_upper: self.guaranteed_distinct_upper,
            distribution,
        }
    }
}

fn copy_bound(bound: &Option<Value>) -> (r: Option<Value>)
    ensures
        r == *bound,
{
    match bound {
        Some(value) => Some(value.copy()),
        None => None,
    }
}

/// Read-only access to column statistics.
pub trait ColumnStatisticsLookup {
    /// The columns with statistics.
    spec fn known(&self) -> Map<ColumnBinding, ColumnStatistics>;

    fn get(&self, binding: &ColumnBinding) -> (r: Option<&ColumnStatistics>)
        ensures
            match r {
                Some(statistics) => self.known().contains_key(*binding) && self.known()[*binding]
                    == *statistics,
                None => !self.known().contains_key(*binding),
            },
    ;
}

impl ColumnStatisticsLookup for BindingMap<ColumnStatistics> {
    open spec fn known(&self) -> Map<ColumnBinding, ColumnStatistics> {
        self@
    }

    fn get(&self, binding: &ColumnBinding) -> (r: Option<&ColumnStatistics>) {
        BindingMap::get(self, binding)
    }
}

/// The point estimate of a column's distinct values; zero where none is known.
pub open spec fn distinct_point(
    known: Map<ColumnBinding, ColumnStatistics>,
    binding: ColumnBinding,
) -> u64 {
    if known.contains_key(binding) {
        known[binding].distinct.point
    } else {
        0
    }
}

pub fn known_distinct_point<L: ColumnStatisticsLookup>(columns: &L, binding: &ColumnBinding) -> (r:
    u64)
    ensures
        r == distinct_point(columns.known(), *binding),
{
    match columns.get(binding) {
        Some(statistics) => statistics.distinct.point,
        None => 0,
    }
}

/// A bound on the rows bounds the distinct values, never loosens an earlier bound
/// and leaves the values themselves as they are.
pub proof fn bounding_only_tightens(statistics: ColumnStatistics, upper: u64)
    ensures
        ({
            let r = statistics.bounded(upper);
            &&& r.guaranteed_distinct_upper matches Some(bound) && bound <= upper
                && r.distinct.point <= bound
            &&& r.distinct.point <= statistics.distinct.point
            &&& statistics.guaranteed_distinct_upper matches Some(known)
                ==> r.guaranteed_distinct_upper->0 <= known
            &&& statistics.guaranteed_distinct_upper is None ==> r.guaranteed_distinct_upper
                == Some(upper)
            &&& statistics.distinct.point <= r.guaranteed_distinct_upper->0 ==> r.distinct
                == statistics.distinct
            &&& r.minimum == statistics.minimum && r.maximum == statistics.maximum
            &&& r.bounded(upper) == r
        }),
{
}

} // verus!
