//! Plain vocabulary shared by every part of the optimizer.

use vstd::prelude::*;

verus! {

/// Identity of a text collation. Two columns compare under the same rules
/// exactly when they carry the same identity.
#[derive(Clone, Copy, Debug, PartialEq, Eq, Structural)]
pub struct CollationId(pub u32);

/// Logical column types.
#[derive(Clone, Copy, Debug, PartialEq, Eq, Structural)]
pub enum LogicalType {
    Unknown,
    Boolean,
    TinyInt,
    SmallInt,
    Integer,
    BigInt,
    HugeInt,
    UTinyInt,
    USmallInt,
    UInteger,
    UBigInt,
    UHugeInt,
    Float,
    Double,
    Decimal { precision: u8, scale: u8 },
    Date,
    Time,
    Timestamp,
    TimestampTz,
    Varchar,
    CollatedVarchar(CollationId),
}

impl LogicalType {
    pub open spec fn spec_collation(self) -> Option<CollationId> {
        match self {
            LogicalType::CollatedVarchar(collation) => Some(collation),
            _ => None,
        }
    }

    /// The collation that text of this type compares under, if it is not the
    /// byte order.
    pub fn collation(&self) -> (r: Option<CollationId>)
        ensures
            r == self.spec_collation(),
    {
        match self {
            LogicalType::CollatedVarchar(collation) => Some(*collation),
            _ => None,
        }
    }
}

/// A column of one relation occurrence.
#[derive(Clone, Copy, Debug, PartialEq, Eq, Structural)]
pub struct ColumnBinding {
    pub table_index: usize,
    pub column_index: usize,
}

impl ColumnBinding {
    pub fn new(table_index: usize, column_index: usize) -> (r: Self)
        ensures
            r == (ColumnBinding { table_index, column_index }),
    {
        ColumnBinding { table_index, column_index }
    }

    /// Bindings are ordered by relation first, then by column.
    pub open spec fn spec_before(self, other: ColumnBinding) -> bool {
        self.table_index < other.table_index || (self.table_index == other.table_index
            && self.column_index < other.column_index)
    }

    pub fn before(&self, other: &ColumnBinding) -> (r: bool)
        ensures
            r == self.spec_before(*other),
    {
        self.table_index < other.table_index || (self.table_index == other.table_index
            && self.column_index < other.column_index)
    }
}

#[derive(Clone, Copy, Debug, PartialEq, Eq, Structural)]
pub enum ComparisonType {
    Equal,
    NotEqual,
    LessThan,
    GreaterThan,
    LessThanOrEqual,
    GreaterThanOrEqual,
    NotDistinctFrom,
    DistinctFrom,
}

impl ComparisonType {
    /// Whether a comparison is true of two values, where `None` is NULL. Only
    /// the distinction comparisons are ever true of NULL.
    pub open spec fn is_true_of(self, a: Option<int>, b: Option<int>) -> bool {
        match self {
            ComparisonType::NotDistinctFrom => a == b,
            ComparisonType::DistinctFrom => a != b,
            _ => match (a, b) {
                (Some(a), Some(b)) => match self {
                    ComparisonType::Equal => a == b,
                    ComparisonType::NotEqual => a != b,
                    ComparisonType::LessThan => a < b,
                    ComparisonType::GreaterThan => a > b,
                    ComparisonType::LessThanOrEqual => a <= b,
                    _ => a >= b,
                },
                _ => false,
            },
        }
    }
}

#[derive(Clone, Copy, Debug, PartialEq, Eq, Structural)]
pub enum ConjunctionType {
    And,
    Or,
}

#[derive(Clone, Copy, Debug, PartialEq, Eq, Structural)]
pub enum OperatorType {
    Not,
    IsNull,
    IsNotNull,
    In,
    NotIn,
    Like,
    ILike,
    Coalesce,
}

#[derive(Clone, Copy, Debug, PartialEq, Eq, Structural)]
pub enum JoinType {
    Invalid,
    Left,
    Right,
    Inner,
    Outer,
    Semi,
    Anti,
    Mark,
    Single,
    RightSemi,
    RightAnti,
}

#[derive(Clone, Copy, Debug, PartialEq, Eq, Structural)]
pub enum JoinComparisonType {
    Equal,
    NotEqual,
    LessThan,
    GreaterThan,
    LessThanOrEqual,
    GreaterThanOrEqual,
    NotDistinctFrom,
    DistinctFrom,
}

impl JoinComparisonType {
    /// Whether a comparison is true of two values, where `None` is NULL. Only
    /// the distinction comparisons are ever true of NULL.
    pub open spec fn is_true_of(self, a: Option<int>, b: Option<int>) -> bool {
        match self {
            JoinComparisonType::NotDistinctFrom => a == b,
            JoinComparisonType::DistinctFrom => a != b,
            _ => match (a, b) {
                (Some(a), Some(b)) => match self {
                    JoinComparisonType::Equal => a == b,
                    JoinComparisonType::NotEqual => a != b,
                    JoinComparisonType::LessThan => a < b,
                    JoinComparisonType::GreaterThan => a > b,
                    JoinComparisonType::LessThanOrEqual => a <= b,
                    _ => a >= b,
                },
                _ => false,
            },
        }
    }

    pub open spec fn spec_flip(self) -> JoinComparisonType {
        match self {
            JoinComparisonType::LessThan => JoinComparisonType::GreaterThan,
            JoinComparisonType::GreaterThan => JoinComparisonType::LessThan,
            JoinComparisonType::LessThanOrEqual => JoinComparisonType::GreaterThanOrEqual,
            JoinComparisonType::GreaterThanOrEqual => JoinComparisonType::LessThanOrEqual,
            other => other,
        }
    }

    /// The comparison that holds of `(b, a)` exactly when `self` holds of
    /// `(a, b)`.
    pub fn flip(self) -> (r: JoinComparisonType)
        ensures
            r == self.spec_flip(),
    {
        match self {
            JoinComparisonType::LessThan => JoinComparisonType::GreaterThan,
            JoinComparisonType::GreaterThan => JoinComparisonType::LessThan,
            JoinComparisonType::LessThanOrEqual => JoinComparisonType::GreaterThanOrEqual,
            JoinComparisonType::GreaterThanOrEqual => JoinComparisonType::LessThanOrEqual,
            other => other,
        }
    }
}

/// A flipped comparison is true of two values exactly when the comparison is
/// true of them the other way round.
pub proof fn flipping_keeps_the_meaning(
    comparison: JoinComparisonType,
    a: Option<int>,
    b: Option<int>,
)
    ensures
        comparison.spec_flip().is_true_of(b, a) <==> comparison.is_true_of(a, b),
{
}

/// Two columns come one before the other by relation and column, in one order
/// only, and any two different ones do.
pub proof fn bindings_are_ordered(a: ColumnBinding, b: ColumnBinding, c: ColumnBinding)
    ensures
        a.spec_before(b) ==> !b.spec_before(a),
        a.spec_before(b) && b.spec_before(c) ==> a.spec_before(c),
        a.spec_before(b) || b.spec_before(a) || a == b,
        a.spec_before(b) ==> a.table_index <= b.table_index,
{
}

#[derive(Clone, Copy, Debug, PartialEq, Eq, Structural)]
pub enum SetOpType {
    Union,
    Intersect,
    Except,
}

/// How a shared definition may be evaluated.
#[derive(Clone, Copy, Debug, PartialEq, Eq, Structural)]
pub enum CTEMaterialize {
    /// The optimizer chooses.
    Default,
    Materialized,
    NotMaterialized,
}

/// Which input of a join must be the materialized (build) side.
#[derive(Clone, Copy, Debug, PartialEq, Eq, Structural)]
pub enum JoinBuildSideConstraint {
    Free,
    Left,
    Right,
}

/// The same types in a list of their own.
pub fn copy_types(types: &Vec<LogicalType>) -> (r: Vec<LogicalType>)
    ensures
        r@ == types@,
{
    let mut r: Vec<LogicalType> = Vec::new();
    let mut i: usize = 0;
    while i < types.len()
        invariant
            i <= types@.len(),
            r@ == types@.take(i as int),
        decreases types@.len() - i,
    {
        r.push(types[i]);
        assert(r@ =~= types@.take(i + 1));
        i = i + 1;
    }
    assert(r@ =~= types@);
    r
}

} // verus!
