//! Values with a next and a previous value, and ranges of them.

use vstd::prelude::*;

use crate::types::ComparisonType;
use crate::value::{Value, ValueView};

verus! {

/// Types whose values are integers on one line. Values of different domains
/// are not comparable.
#[derive(Clone, Copy, Debug, PartialEq, Eq, Structural)]
pub enum IntegralDomain {
    Boolean,
    TinyInt,
    SmallInt,
    Integer,
    BigInt,
    HugeInt,
    UTinyInt,
    USmallInt,
    UInteger,
    UBigInt,
    UHugeInt,
    Date,
    Timestamp,
    TimestampTz,
    Time,
    Decimal { scale: u8 },
}

/// A value as a non-negative coordinate of its domain. Signed domains start at
/// their smallest value.
#[derive(Clone, Copy, Debug, PartialEq, Eq, Structural)]
pub struct OrderedIntegralValue {
    pub domain: IntegralDomain,
    pub coordinate: u128,
}

/// Domain of a literal and the integer that it stands for.
pub open spec fn integral_value(value: ValueView) -> Option<(IntegralDomain, int)> {
    match value {
        ValueView::Text(_) => None,
        ValueView::Plain(value) => match value {
            Value::Boolean(v) => Some(
                (
                    IntegralDomain::Boolean,
                    if v {
                        1
                    } else {
                        0
                    },
                ),
            ),
            Value::TinyInt(v) => Some((IntegralDomain::TinyInt, v as int)),
            Value::SmallInt(v) => Some((IntegralDomain::SmallInt, v as int)),
            Value::Integer(v) => Some((IntegralDomain::Integer, v as int)),
            Value::BigInt(v) => Some((IntegralDomain::BigInt, v as int)),
            Value::HugeInt(v) => Some((IntegralDomain::HugeInt, v as int)),
            Value::UTinyInt(v) => Some((IntegralDomain::UTinyInt, v as int)),
            Value::USmallInt(v) => Some((IntegralDomain::USmallInt, v as int)),
            Value::UInteger(v) => Some((IntegralDomain::UInteger, v as int)),
            Value::UBigInt(v) => Some((IntegralDomain::UBigInt, v as int)),
            Value::UHugeInt(v) => Some((IntegralDomain::UHugeInt, v as int)),
            Value::Date(v) => Some((IntegralDomain::Date, v as int)),
            Value::Timestamp(v) => Some((IntegralDomain::Timestamp, v as int)),
            Value::TimestampTz(v) => Some((IntegralDomain::TimestampTz, v as int)),
            Value::Time(v) => Some((IntegralDomain::Time, v as int)),
            Value::Decimal(v, _, scale) => Some((IntegralDomain::Decimal { scale }, v as int)),
            _ => None,
        },
    }
}

/// The smallest integer that a value of the domain stands for.
pub open spec fn domain_start(domain: IntegralDomain) -> int {
    match domain {
        IntegralDomain::TinyInt => i8::MIN as int,
        IntegralDomain::SmallInt => i16::MIN as int,
        IntegralDomain::Integer => i32::MIN as int,
        IntegralDomain::Date => i32::MIN as int,
        IntegralDomain::BigInt => i64::MIN as int,
        IntegralDomain::Timestamp => i64::MIN as int,
        IntegralDomain::TimestampTz => i64::MIN as int,
        IntegralDomain::Time => i64::MIN as int,
        IntegralDomain::HugeInt => i128::MIN as int,
        IntegralDomain::Decimal { .. } => i128::MIN as int,
        _ => 0,
    }
}

/// The coordinate of a literal: its distance from the start of its domain.
pub open spec fn coordinate(value: ValueView) -> Option<OrderedIntegralValue> {
    match integral_value(value) {
        Some((domain, v)) => Some(
            OrderedIntegralValue { domain, coordinate: (v - domain_start(domain)) as u128 },
        ),
        None => None,
    }
}

fn from_64(domain: IntegralDomain, value: i64) -> (r: OrderedIntegralValue)
    ensures
        r.domain == domain,
        r.coordinate == value - i64::MIN,
{
    OrderedIntegralValue { domain, coordinate: (value as i128 - i64::MIN as i128) as u128 }
}

fn from_128(domain: IntegralDomain, value: i128) -> (r: OrderedIntegralValue)
    ensures
        r.domain == domain,
        r.coordinate == value - i128::MIN,
{
    let coordinate: u128 = if value >= 0 {
        value as u128 + 0x8000_0000_0000_0000_0000_0000_0000_0000
    } else {
        (value - i128::MIN) as u128
    };
    OrderedIntegralValue { domain, coordinate }
}

/// The coordinate of a literal, where its type is integral.
pub fn ordered_integral_value(value: &Value) -> (r: Option<OrderedIntegralValue>)
    ensures
        r == coordinate(value@),
{
    Some(
        match value {
            Value::Boolean(v) => OrderedIntegralValue {
                domain: IntegralDomain::Boolean,
                coordinate: if *v {
                    1
                } else {
                    0
                },
            },
            Value::TinyInt(v) => OrderedIntegralValue {
                domain: IntegralDomain::TinyInt,
                coordinate: (*v as i128 - i8::MIN as i128) as u128,
            },
            Value::SmallInt(v) => OrderedIntegralValue {
                domain: IntegralDomain::SmallInt,
                coordinate: (*v as i128 - i16::MIN as i128) as u128,
            },
            Value::Integer(v) => OrderedIntegralValue {
                domain: IntegralDomain::Integer,
                coordinate: (*v as i128 - i32::MIN as i128) as u128,
            },
            Value::BigInt(v) => from_64(IntegralDomain::BigInt, *v),
            Value::HugeInt(v) => from_128(IntegralDomain::HugeInt, *v),
            Value::UTinyInt(v) => OrderedIntegralValue {
                domain: IntegralDomain::UTinyInt,
                coordinate: *v as u128,
            },
            Value::USmallInt(v) => OrderedIntegralValue {
                domain: IntegralDomain::USmallInt,
                coordinate: *v as u128,
            },
            Value::UInteger(v) => OrderedIntegralValue {
                domain: IntegralDomain::UInteger,
                coordinate: *v as u128,
            },
            Value::UBigInt(v) => OrderedIntegralValue {
                domain: IntegralDomain::UBigInt,
                coordinate: *v as u128,
            },
            Value::UHugeInt(v) => OrderedIntegralValue {
                domain: IntegralDomain::UHugeInt,
                coordinate: *v,
            },
            Value::Date(v) => OrderedIntegralValue {
                domain: IntegralDomain::Date,
                coordinate: (*v as i128 - i32::MIN as i128) as u128,
            },
            Value::Timestamp(v) => from_64(IntegralDomain::Timestamp, *v),
            Value::TimestampTz(v) => from_64(IntegralDomain::TimestampTz, *v),
            Value::Time(v) => from_64(IntegralDomain::Time, *v),
            Value::Decimal(v, _, scale) => from_128(IntegralDomain::Decimal { scale: *scale }, *v),
            _ => {
                return None;
            },
        },
    )
}

/// Coordinates order the values of one domain as the values themselves are
/// ordered.
pub proof fn coordinates_keep_the_order(a: ValueView, b: ValueView)
    requires
        integral_value(a) is Some,
        integral_value(b) is Some,
        (integral_value(a)->0).0 == (integral_value(b)->0).0,
    ensures
        (coordinate(a)->0).coordinate <= (coordinate(b)->0).coordinate <==> (integral_value(a)->0).1
            <= (integral_value(b)->0).1,
        (coordinate(a)->0).coordinate == (coordinate(b)->0).coordinate <==> (integral_value(a)->0).1
            == (integral_value(b)->0).1,
{
    lemma_in_domain(a);
    lemma_in_domain(b);
}

proof fn lemma_in_domain(value: ValueView)
    requires
        integral_value(value) is Some,
    ensures
        0 <= (integral_value(value)->0).1 - domain_start((integral_value(value)->0).0) <= u128::MAX,
{
}

/// A bound that a comparison with a constant puts on a column.
#[derive(Clone, Copy, Debug, PartialEq, Eq, Structural)]
pub enum IntegralRangeBound {
    Upper { inclusive: bool },
    Lower { inclusive: bool },
}

pub open spec fn range_bound(comparison: ComparisonType) -> Option<IntegralRangeBound> {
    match comparison {
        ComparisonType::LessThan => Some(IntegralRangeBound::Upper { inclusive: false }),
        ComparisonType::LessThanOrEqual => Some(IntegralRangeBound::Upper { inclusive: true }),
        ComparisonType::GreaterThan => Some(IntegralRangeBound::Lower { inclusive: false }),
        ComparisonType::GreaterThanOrEqual => Some(IntegralRangeBound::Lower { inclusive: true }),
        _ => None,
    }
}

pub fn comparison_bound(comparison: ComparisonType) -> (r: Option<IntegralRangeBound>)
    ensures
        r == range_bound(comparison),
{
    match comparison {
        ComparisonType::LessThan => Some(IntegralRangeBound::Upper { inclusive: false }),
        ComparisonType::LessThanOrEqual => Some(IntegralRangeBound::Upper { inclusive: true }),
        ComparisonType::GreaterThan => Some(IntegralRangeBound::Lower { inclusive: false }),
        ComparisonType::GreaterThanOrEqual => Some(IntegralRangeBound::Lower { inclusive: true }),
        _ => None,
    }
}

/// Whether coordinate `x` satisfies a bound at `constant`.
pub open spec fn satisfies(x: int, bound: IntegralRangeBound, constant: int) -> bool {
    match bound {
        IntegralRangeBound::Upper { inclusive } => if inclusive {
            x <= constant
        } else {
            x < constant
        },
        IntegralRangeBound::Lower { inclusive } => if inclusive {
            x >= constant
        } else {
            x > constant
        },
    }
}

/// Coordinates of a column that pass every range condition seen so far. They
/// form an interval within the column's own bounds.
#[derive(Clone, Copy, Debug, PartialEq, Eq, Structural)]
pub struct IntegralInterval {
    pub minimum: u128,
    pub maximum: u128,
    pub lower: u128,
    pub upper: u128,
    pub empty: bool,
}

impl IntegralInterval {
    pub open spec fn wf(self) -> bool {
        &&& self.minimum <= self.maximum
        &&& self.minimum <= self.lower
        &&& self.upper <= self.maximum
        &&& !self.empty ==> self.lower <= self.upper
    }

    /// Whether a coordinate is still possible.
    pub open spec fn contains(self, x: int) -> bool {
        !self.empty && self.lower <= x <= self.upper
    }

    pub fn new(minimum: u128, maximum: u128) -> (r: IntegralInterval)
        requires
            minimum <= maximum,
        ensures
            r.wf(),
            r.minimum == minimum,
            r.maximum == maximum,
            forall|x: int| #[trigger] r.contains(x) <==> minimum <= x <= maximum,
    {
        IntegralInterval { minimum, maximum, lower: minimum, upper: maximum, empty: false }
    }

    /// Keeps the coordinates that satisfy one more bound.
    pub fn intersect(&mut self, bound: IntegralRangeBound, constant: u128)
        requires
            old(self).wf(),
        ensures
            final(self).wf(),
            final(self).minimum == old(self).minimum,
            final(self).maximum == old(self).maximum,
            forall|x: int|
                #![trigger final(self).contains(x)]
                #![trigger old(self).contains(x)]
                final(self).contains(x) <==> (old(self).contains(x) && satisfies(
                    x,
                    bound,
                    constant as int,
                )),
    {
        if self.empty {
            return;
        }
        match bound {
            IntegralRangeBound::Upper { inclusive } => {
                if constant < self.minimum || (!inclusive && constant == self.minimum) {
                    self.empty = true;
                } else {
                    let last: u128 = if inclusive {
                        constant
                    } else {
                        constant - 1
                    };
                    if last < self.upper {
                        self.upper = last;
                    }
                }
            },
            IntegralRangeBound::Lower { inclusive } => {
                if constant > self.maximum || (!inclusive && constant == self.maximum) {
                    self.empty = true;
                } else {
                    let first: u128 = if inclusive {
                        constant
                    } else {
                        constant + 1
                    };
                    if first > self.lower {
                        self.lower = first;
                    }
                }
            },
        }
        if self.lower > self.upper {
            self.empty = true;
        }
    }

    /// Number of possible coordinates and of all coordinates of the column;
    /// the full range of 128 bits counts as one less.
    pub open spec fn share(self) -> (u128, u128) {
        (
            if self.empty {
                0
            } else {
                count_between(self.lower, self.upper)
            },
            count_between(self.minimum, self.maximum),
        )
    }

    pub fn counts(&self) -> (r: (u128, u128))
        requires
            self.wf(),
        ensures
            r == self.share(),
            r.0 <= r.1,
            r.1 > 0,
    {
        let domain: u128 = count_inclusive(self.minimum, self.maximum);
        if self.empty {
            (0, domain)
        } else {
            (count_inclusive(self.lower, self.upper), domain)
        }
    }
}

/// Number of coordinates from `low` to `high`, as far as it fits.
pub open spec fn count_between(low: u128, high: u128) -> u128 {
    if high - low + 1 <= u128::MAX {
        (high - low + 1) as u128
    } else {
        u128::MAX
    }
}

fn count_inclusive(low: u128, high: u128) -> (r: u128)
    requires
        low <= high,
    ensures
        r == count_between(low, high),
{
    let difference: u128 = high - low;
    if difference < u128::MAX {
        difference + 1
    } else {
        difference
    }
}

/// Coordinates from `minimum` to `maximum` that satisfy a bound at `constant`,
/// and how many there are.
pub open spec fn range_share(
    minimum: u128,
    maximum: u128,
    constant: u128,
    bound: IntegralRangeBound,
) -> (u128, u128) {
    let domain = count_between(minimum, maximum);
    let matching: int = match bound {
        IntegralRangeBound::Upper { inclusive } => if inclusive {
            constant - minimum + 1
        } else {
            constant - minimum
        },
        IntegralRangeBound::Lower { inclusive } => if inclusive {
            maximum - constant + 1
        } else {
            maximum - constant
        },
    };
    (
        if matching <= 0 {
            0
        } else if matching <= domain {
            matching as u128
        } else {
            domain
        },
        domain,
    )
}

/// Counts the coordinates of a column that satisfy a bound.
pub fn matching_values(
    minimum: u128,
    maximum: u128,
    constant: u128,
    bound: IntegralRangeBound,
) -> (r: (u128, u128))
    requires
        minimum <= maximum,
    ensures
        r == range_share(minimum, maximum, constant, bound),
        r.0 <= r.1,
        r.1 > 0,
{
    let domain: u128 = count_inclusive(minimum, maximum);
    let matching: u128 = match bound {
        IntegralRangeBound::Upper { inclusive } => {
            if constant < minimum || (!inclusive && constant == minimum) {
                0
            } else if inclusive {
                count_inclusive(minimum, constant)
            } else {
                constant - minimum
            }
        },
        IntegralRangeBound::Lower { inclusive } => {
            if constant > maximum || (!inclusive && constant == maximum) {
                0
            } else if inclusive {
                count_inclusive(constant, maximum)
            } else {
                maximum - constant
            }
        },
    };
    (
        if matching <= domain {
            matching
        } else {
            domain
        },
        domain,
    )
}

/// One range condition has the same share whether it is counted directly or
/// through the interval that it leaves.
pub proof fn interval_agrees_with_single_bound(
    before: IntegralInterval,
    after: IntegralInterval,
    bound: IntegralRangeBound,
    constant: u128,
)
    requires
        before.wf(),
        before.lower == before.minimum,
        before.upper == before.maximum,
        !before.empty,
        after.wf(),
        after.minimum == before.minimum,
        after.maximum == before.maximum,
        forall|x: int| #[trigger]
            after.contains(x) <==> (before.contains(x) && satisfies(x, bound, constant as int)),
    ensures
        after.share() == range_share(before.minimum, before.maximum, constant, bound),
{
    let low = before.minimum as int;
    let high = before.maximum as int;
    match bound {
        IntegralRangeBound::Upper { inclusive } => {
            let last = if inclusive {
                constant as int
            } else {
                constant - 1
            };
            let top = if last <= high {
                last
            } else {
                high
            };
            if top < low {
                if !after.empty {
                    assert(after.contains(after.lower as int));
                }
            } else {
                assert(after.contains(low) && after.contains(top));
                assert(!after.contains(top + 1) && !after.contains(low - 1));
                assert(after.contains(after.lower as int) && after.contains(after.upper as int));
            }
        },
        IntegralRangeBound::Lower { inclusive } => {
            let first = if inclusive {
                constant as int
            } else {
                constant + 1
            };
            let bottom = if first >= low {
                first
            } else {
                low
            };
            if bottom > high {
                if !after.empty {
                    assert(after.contains(after.lower as int));
                }
            } else {
                assert(after.contains(bottom) && after.contains(high));
                assert(!after.contains(high + 1) && !after.contains(bottom - 1));
                assert(after.contains(after.lower as int) && after.contains(after.upper as int));
            }
        },
    }
}

/// A comparison is a bound exactly where it orders values, and the bound admits
/// what the comparison is true of.
pub proof fn bounds_admit_what_compares(comparison: ComparisonType, x: int, constant: int)
    ensures
        range_bound(comparison) matches Some(bound) ==> (satisfies(x, bound, constant)
            <==> comparison.is_true_of(Some(x), Some(constant))),
        range_bound(comparison) is None <==> comparison is Equal || comparison is NotEqual
            || comparison is NotDistinctFrom || comparison is DistinctFrom,
{
}

/// The share of a bound counts the coordinates of the column that satisfy it:
/// those from `r.0` to `r.1`.
pub proof fn share_counts_what_satisfies(
    minimum: u128,
    maximum: u128,
    constant: u128,
    bound: IntegralRangeBound,
) -> (r: (int, int))
    requires
        minimum <= maximum,
        maximum - minimum < u128::MAX,
    ensures
        forall|x: int|
            #![trigger satisfies(x, bound, constant as int)]
            minimum <= x <= maximum && satisfies(x, bound, constant as int) <==> r.0 <= x <= r.1,
        range_share(minimum, maximum, constant, bound).0 == if r.0 <= r.1 {
            r.1 - r.0 + 1
        } else {
            0
        },
        range_share(minimum, maximum, constant, bound).1 == maximum - minimum + 1,
{
    match bound {
        IntegralRangeBound::Upper { inclusive } => {
            let high: int = if inclusive {
                constant as int
            } else {
                constant - 1
            };
            (
                minimum as int,
                if high <= maximum {
                    high
                } else {
                    maximum as int
                },
            )
        },
        IntegralRangeBound::Lower { inclusive } => {
            let low: int = if inclusive {
                constant as int
            } else {
                constant + 1
            };
            (
                if low >= minimum {
                    low
                } else {
                    minimum as int
                },
                maximum as int,
            )
        },
    }
}

/// Two bounds at one constant of which one admits exactly what the other does not
/// share the column between them.
pub proof fn opposite_bounds_share_the_column(
    minimum: u128,
    maximum: u128,
    constant: u128,
    inclusive: bool,
)
    requires
        minimum <= maximum,
        maximum - minimum < u128::MAX,
    ensures
        range_share(minimum, maximum, constant, IntegralRangeBound::Upper { inclusive }).0
            + range_share(
            minimum,
            maximum,
            constant,
            IntegralRangeBound::Lower { inclusive: !inclusive },
        ).0 == maximum - minimum + 1,
{
}

/// The coordinates of a type with so many bits lie below the number of its values.
pub proof fn coordinates_fit_their_width(value: Value)
    ensures
        value is Boolean ==> (coordinate(value@)->0).coordinate <= 1,
        value is TinyInt || value is UTinyInt ==> (coordinate(value@)->0).coordinate <= u8::MAX,
        value is SmallInt || value is USmallInt ==> (coordinate(value@)->0).coordinate <= u16::MAX,
        value is Integer || value is UInteger || value is Date ==> (coordinate(value@)->0).coordinate
            <= u32::MAX,
        value is BigInt || value is UBigInt || value is Time || value is Timestamp
            || value is TimestampTz ==> (coordinate(value@)->0).coordinate <= u64::MAX,
{
}

} // verus!
