//! Literal values.

use vstd::prelude::*;

verus! {

/// A literal. Floating-point literals are held as their IEEE bit patterns.
#[derive(Debug)]
pub enum Value {
    Null,
    Boolean(bool),
    TinyInt(i8),
    SmallInt(i16),
    Integer(i32),
    BigInt(i64),
    HugeInt(i128),
    UTinyInt(u8),
    USmallInt(u16),
    UInteger(u32),
    UBigInt(u64),
    UHugeInt(u128),
    Float(u32),
    Double(u64),
    /// Unscaled digits, precision and scale.
    Decimal(i128, u8, u8),
    Date(i32),
    Time(i64),
    Timestamp(i64),
    TimestampTz(i64),
    Varchar(String),
}

/// What a literal denotes: text by its characters, anything else by itself.
pub enum ValueView {
    Text(Seq<char>),
    Plain(Value),
}

impl View for Value {
    type V = ValueView;

    open spec fn view(&self) -> ValueView {
        match *self {
            Value::Varchar(text) => ValueView::Text(text@),
            other => ValueView::Plain(other),
        }
    }
}

impl Value {
    pub fn is_null(&self) -> (r: bool)
        ensures
            r == (*self is Null),
    {
        match self {
            Value::Null => true,
            _ => false,
        }
    }

    /// A copy that denotes the same literal.
    pub fn copy(&self) -> (r: Value)
        ensures
            r == *self,
    {
        match self {
            Value::Null => Value::Null,
            Value::Boolean(v) => Value::Boolean(*v),
            Value::TinyInt(v) => Value::TinyInt(*v),
            Value::SmallInt(v) => Value::SmallInt(*v),
            Value::Integer(v) => Value::Integer(*v),
            Value::BigInt(v) => Value::BigInt(*v),
            Value::HugeInt(v) => Value::HugeInt(*v),
            Value::UTinyInt(v) => Value::UTinyInt(*v),
            Value::USmallInt(v) => Value::USmallInt(*v),
            Value::UInteger(v) => Value::UInteger(*v),
            Value::UBigInt(v) => Value::UBigInt(*v),
            Value::UHugeInt(v) => Value::UHugeInt(*v),
            Value::Float(v) => Value::Float(*v),
            Value::Double(v) => Value::Double(*v),
            Value::Decimal(v, precision, scale) => Value::Decimal(*v, *precision, *scale),
            Value::Date(v) => Value::Date(*v),
            Value::Time(v) => Value::Time(*v),
            Value::Timestamp(v) => Value::Timestamp(*v),
            Value::TimestampTz(v) => Value::TimestampTz(*v),
            Value::Varchar(text) => Value::Varchar(text.clone()),
        }
    }

    /// Whether both denote the same literal of the same type.
    pub fn same(&self, other: &Value) -> (r: bool)
        ensures
            r == (self@ == other@),
    {
        match (self, other) {
            (Value::Null, Value::Null) => true,
            (Value::Boolean(a), Value::Boolean(b)) => *a == *b,
            (Value::TinyInt(a), Value::TinyInt(b)) => *a == *b,
            (Value::SmallInt(a), Value::SmallInt(b)) => *a == *b,
            (Value::Integer(a), Value::Integer(b)) => *a == *b,
            (Value::BigInt(a), Value::BigInt(b)) => *a == *b,
            (Value::HugeInt(a), Value::HugeInt(b)) => *a == *b,
            (Value::UTinyInt(a), Value::UTinyInt(b)) => *a == *b,
            (Value::USmallInt(a), Value::USmallInt(b)) => *a == *b,
            (Value::UInteger(a), Value::UInteger(b)) => *a == *b,
            (Value::UBigInt(a), Value::UBigInt(b)) => *a == *b,
            (Value::UHugeInt(a), Value::UHugeInt(b)) => *a == *b,
            (Value::Float(a), Value::Float(b)) => *a == *b,
            (Value::Double(a), Value::Double(b)) => *a == *b,
            (Value::Decimal(a, ap, a_scale), Value::Decimal(b, bp, b_scale)) => *a == *b && *ap
                == *bp && *a_scale == *b_scale,
            (Value::Date(a), Value::Date(b)) => *a == *b,
            (Value::Time(a), Value::Time(b)) => *a == *b,
            (Value::Timestamp(a), Value::Timestamp(b)) => *a == *b,
            (Value::TimestampTz(a), Value::TimestampTz(b)) => *a == *b,
            (Value::Varchar(a), Value::Varchar(b)) => *a == *b,
            _ => false,
        }
    }
}

} // verus!
