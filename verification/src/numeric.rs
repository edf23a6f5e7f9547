//! Types and order of literals.

use vstd::prelude::*;

use crate::estimate::selectivity::integral::{
    coordinate, integral_value, ordered_integral_value, IntegralDomain,
};
use crate::types::LogicalType;
use crate::value::{Value, ValueView};

verus! {

/// The type of a literal.
pub open spec fn literal_type(value: ValueView) -> LogicalType {
    match value {
        ValueView::Text(_) => LogicalType::Varchar,
        ValueView::Plain(value) => match value {
            Value::Boolean(_) => LogicalType::Boolean,
            Value::TinyInt(_) => LogicalType::TinyInt,
            Value::SmallInt(_) => LogicalType::SmallInt,
            Value::Integer(_) => LogicalType::Integer,
            Value::BigInt(_) => LogicalType::BigInt,
            Value::HugeInt(_) => LogicalType::HugeInt,
            Value::UTinyInt(_) => LogicalType::UTinyInt,
            Value::USmallInt(_) => LogicalType::USmallInt,
            Value::UInteger(_) => LogicalType::UInteger,
            Value::UBigInt(_) => LogicalType::UBigInt,
            Value::UHugeInt(_) => LogicalType::UHugeInt,
            Value::Float(_) => LogicalType::Float,
            Value::Double(_) => LogicalType::Double,
            Value::Decimal(_, precision, scale) => LogicalType::Decimal { precision, scale },
            Value::Date(_) => LogicalType::Date,
            Value::Time(_) => LogicalType::Time,
            Value::Timestamp(_) => LogicalType::Timestamp,
            Value::TimestampTz(_) => LogicalType::TimestampTz,
            _ => LogicalType::Unknown,
        },
    }
}

pub fn type_of_value(value: &Value) -> (r: LogicalType)
    ensures
        r == literal_type(value@),
{
    match value {
        Value::Null => LogicalType::Unknown,
        Value::Varchar(_) => LogicalType::Varchar,
        Value::Boolean(_) => LogicalType::Boolean,
        Value::TinyInt(_) => LogicalType::TinyInt,
        Value::SmallInt(_) => LogicalType::SmallInt,
        Value::Integer(_) => LogicalType::Integer,
        Value::BigInt(_) => LogicalType::BigInt,
        Value::HugeInt(_) => LogicalType::HugeInt,
        Value::UTinyInt(_) => LogicalType::UTinyInt,
        Value::USmallInt(_) => LogicalType::USmallInt,
        Value::UInteger(_) => LogicalType::UInteger,
        Value::UBigInt(_) => LogicalType::UBigInt,
        Value::UHugeInt(_) => LogicalType::UHugeInt,
        Value::Float(_) => LogicalType::Float,
        Value::Double(_) => LogicalType::Double,
        Value::Decimal(_, precision, scale) => LogicalType::Decimal {
            precision: *precision,
            scale: *scale,
        },
        Value::Date(_) => LogicalType::Date,
        Value::Time(_) => LogicalType::Time,
        Value::Timestamp(_) => LogicalType::Timestamp,
        Value::TimestampTz(_) => LogicalType::TimestampTz,
    }
}

/// Literals that are compared with each other.
#[derive(Clone, Copy, Debug, PartialEq, Eq, Structural)]
pub enum NumericLine {
    Integral(IntegralDomain),
    Float,
    Double,
}

/// A position on a line of literals.
#[derive(Clone, Copy, Debug, PartialEq, Eq, Structural)]
pub struct NumericKey {
    pub line: NumericLine,
    pub position: u128,
}

/// Position of a double among all doubles, negative ones first, by its bits.
/// Values that are no number have none.
pub open spec fn double_position(bits: u64) -> Option<u64> {
    let magnitude = bits % 0x8000_0000_0000_0000;
    if magnitude > 0x7ff0_0000_0000_0000 {
        None
    } else if bits >= 0x8000_0000_0000_0000 {
        Some((u64::MAX - bits) as u64)
    } else {
        Some((bits + 0x8000_0000_0000_0000) as u64)
    }
}

pub fn position_of_double(bits: u64) -> (r: Option<u64>)
    ensures
        r == double_position(bits),
{
    let magnitude: u64 = bits % 0x8000_0000_0000_0000;
    if magnitude > 0x7ff0_0000_0000_0000 {
        None
    } else if bits >= 0x8000_0000_0000_0000 {
        Some(u64::MAX - bits)
    } else {
        Some(bits + 0x8000_0000_0000_0000)
    }
}

/// Position of a single-precision number by its bits.
pub open spec fn float_position(bits: u32) -> Option<u32> {
    let magnitude = bits % 0x8000_0000;
    if magnitude > 0x7f80_0000 {
        None
    } else if bits >= 0x8000_0000 {
        Some((u32::MAX - bits) as u32)
    } else {
        Some((bits + 0x8000_0000) as u32)
    }
}

fn position_of_float(bits: u32) -> (r: Option<u32>)
    ensures
        r == float_position(bits),
{
    let magnitude: u32 = bits % 0x8000_0000;
    if magnitude > 0x7f80_0000 {
        None
    } else if bits >= 0x8000_0000 {
        Some(u32::MAX - bits)
    } else {
        Some(bits + 0x8000_0000)
    }
}

/// Negating a number mirrors its position.
pub proof fn doubles_are_mirrored(bits: u64)
    requires
        bits < 0x8000_0000_0000_0000,
        double_position(bits) is Some,
    ensures
        double_position((bits + 0x8000_0000_0000_0000) as u64) == Some(
            (u64::MAX - double_position(bits)->0) as u64,
        ),
{
}

/// Line and position of a literal; text and the null have none.
pub open spec fn numeric_key(value: ValueView) -> Option<NumericKey> {
    match value {
        ValueView::Plain(Value::Float(bits)) => match float_position(bits) {
            Some(position) => Some(
                NumericKey { line: NumericLine::Float, position: position as u128 },
            ),
            None => None,
        },
        ValueView::Plain(Value::Double(bits)) => match double_position(bits) {
            Some(position) => Some(
                NumericKey { line: NumericLine::Double, position: position as u128 },
            ),
            None => None,
        },
        _ => match coordinate(value) {
            Some(found) => Some(
                NumericKey {
                    line: NumericLine::Integral(found.domain),
                    position: found.coordinate,
                },
            ),
            None => None,
        },
    }
}

pub fn key_of_value(value: &Value) -> (r: Option<NumericKey>)
    ensures
        r == numeric_key(value@),
{
    match value {
        Value::Float(bits) => match position_of_float(*bits) {
            Some(position) => Some(
                NumericKey { line: NumericLine::Float, position: position as u128 },
            ),
            None => None,
        },
        Value::Double(bits) => match position_of_double(*bits) {
            Some(position) => Some(
                NumericKey { line: NumericLine::Double, position: position as u128 },
            ),
            None => None,
        },
        _ => match ordered_integral_value(value) {
            Some(found) => Some(
                NumericKey {
                    line: NumericLine::Integral(found.domain),
                    position: found.coordinate,
                },
            ),
            None => None,
        },
    }
}

/// Whether a literal is a number that sums can be formed of.
pub open spec fn is_number(value: ValueView) -> bool {
    match value {
        ValueView::Text(_) => false,
        ValueView::Plain(value) => match value {
            Value::TinyInt(_) => true,
            Value::SmallInt(_) => true,
            Value::Integer(_) => true,
            Value::BigInt(_) => true,
            Value::HugeInt(_) => true,
            Value::UTinyInt(_) => true,
            Value::USmallInt(_) => true,
            Value::UInteger(_) => true,
            Value::UBigInt(_) => true,
            Value::UHugeInt(_) => true,
            Value::Float(_) => true,
            Value::Double(_) => true,
            Value::Decimal(_, _, _) => true,
            _ => false,
        },
    }
}

pub fn is_numeric_value(value: &Value) -> (r: bool)
    ensures
        r == is_number(value@),
{
    match value {
        Value::TinyInt(_) => true,
        Value::SmallInt(_) => true,
        Value::Integer(_) => true,
        Value::BigInt(_) => true,
        Value::HugeInt(_) => true,
        Value::UTinyInt(_) => true,
        Value::USmallInt(_) => true,
        Value::UInteger(_) => true,
        Value::UBigInt(_) => true,
        Value::UHugeInt(_) => true,
        Value::Float(_) => true,
        Value::Double(_) => true,
        Value::Decimal(_, _, _) => true,
        _ => false,
    }
}

/// Positions order doubles as numbers: by their bits from zero up, the other way
/// below zero, and every negative one before every other.
pub proof fn doubles_are_ordered(a: u64, b: u64)
    requires
        double_position(a) is Some,
        double_position(b) is Some,
    ensures
        a < 0x8000_0000_0000_0000 && b < 0x8000_0000_0000_0000 ==> (double_position(a)->0
            < double_position(b)->0 <==> a < b),
        a >= 0x8000_0000_0000_0000 && b >= 0x8000_0000_0000_0000 ==> (double_position(a)->0
            < double_position(b)->0 <==> a > b),
        a >= 0x8000_0000_0000_0000 && b < 0x8000_0000_0000_0000 ==> double_position(a)->0
            < double_position(b)->0,
{
}

/// The same for single precision.
pub proof fn floats_are_ordered(a: u32, b: u32)
    requires
        float_position(a) is Some,
        float_position(b) is Some,
    ensures
        a < 0x8000_0000 && b < 0x8000_0000 ==> (float_position(a)->0 < float_position(b)->0
            <==> a < b),
        a >= 0x8000_0000 && b >= 0x8000_0000 ==> (float_position(a)->0 < float_position(b)->0
            <==> a > b),
        a >= 0x8000_0000 && b < 0x8000_0000 ==> float_position(a)->0 < float_position(b)->0,
{
}

/// Exactly the bit patterns with all exponent bits and some fraction bit set are no
/// numbers; the infinities are.
pub proof fn only_numbers_have_positions(exponent: u64, fraction: u64, negative: bool)
    requires
        exponent <= 0x7ff,
        fraction < 0x10_0000_0000_0000,
    ensures
        ({
            let bits = exponent * 0x10_0000_0000_0000 + fraction + if negative {
                0x8000_0000_0000_0000int
            } else {
                0int
            };
            &&& bits <= u64::MAX
            &&& double_position(bits as u64) is None <==> exponent == 0x7ff && fraction != 0
        }),
{
}

/// Literals on one line of integers have one type, up to the precision of decimals
/// with the same scale.
pub proof fn literals_on_one_line_have_one_type(a: ValueView, b: ValueView)
    requires
        integral_value(a) is Some,
        integral_value(b) is Some,
        (integral_value(a)->0).0 == (integral_value(b)->0).0,
    ensures
        literal_type(a) == literal_type(b) || (literal_type(a) matches LogicalType::Decimal {
            scale: x,
            ..
        } && literal_type(b) matches LogicalType::Decimal { scale: y, .. } && x == y),
        literal_type(a) != LogicalType::Unknown,
{
}

/// Sums are formed of the literals of arithmetic types: not of truth values, texts,
/// dates or times.
pub proof fn only_arithmetic_literals_are_numbers(value: ValueView)
    ensures
        is_number(value) <==> match literal_type(value) {
            LogicalType::Unknown
            | LogicalType::Boolean
            | LogicalType::Varchar
            | LogicalType::Date
            | LogicalType::Time
            | LogicalType::Timestamp
            | LogicalType::TimestampTz => false,
            _ => true,
        },
{
}

} // verus!
