//! Dynamically typed cell values and their logical column types.

use vstd::prelude::*;

verus! {

/// Fixed-point scale for `Num` cells: a `Num` cell holding `x` denotes the
/// decimal value `x / NUM_SCALE`.
pub const NUM_SCALE: i64 = 10000;

/// One cell of a table column.
#[derive(Debug)]
pub enum Value {
    /// 64-bit signed integer.
    Int(i64),
    /// Fixed-point decimal; the stored integer is the value times [`NUM_SCALE`].
    Num(i64),
    /// UTF-8 string.
    Str(String),
    /// Boolean.
    Bool(bool),
    /// Missing value.
    Null,
}

/// Mathematical model of a cell value.
pub ghost enum ValueV {
    Int(int),
    Num(int),
    Str(Seq<char>),
    Bool(bool),
    Null,
}

impl View for Value {
    type V = ValueV;

    open spec fn view(&self) -> ValueV {
        match self {
            Value::Int(x) => ValueV::Int(*x as int),
            Value::Num(x) => ValueV::Num(*x as int),
            Value::Str(s) => ValueV::Str(s@),
            Value::Bool(b) => ValueV::Bool(*b),
            Value::Null => ValueV::Null,
        }
    }
}

impl DeepView for Value {
    type V = ValueV;

    open spec fn deep_view(&self) -> ValueV {
        self@
    }
}

/// Logical type of a column.
#[derive(Clone, Copy, Debug, PartialEq, Eq, Structural)]
pub enum ColType {
    /// 64-bit signed integers.
    Int,
    /// Fixed-point decimals.
    Num,
    /// UTF-8 strings.
    Str,
    /// Booleans.
    Bool,
}

/// Whether a cell value may appear in a column of type `ty`.
/// A `Null` cell is accepted in every column.
pub open spec fn cell_ok(ty: ColType, v: ValueV) -> bool {
    match v {
        ValueV::Int(_) => ty == ColType::Int,
        ValueV::Num(_) => ty == ColType::Num,
        ValueV::Str(_) => ty == ColType::Str,
        ValueV::Bool(_) => ty == ColType::Bool,
        ValueV::Null => true,
    }
}

/// Equality of two cell values, where `Null` equals only `Null`.
pub open spec fn cell_eq(a: ValueV, b: ValueV) -> bool {
    a == b
}

/// Strict order on two cells of the same numeric type; `false` on any other
/// combination, `Null` included.
pub open spec fn cell_lt(a: ValueV, b: ValueV) -> bool {
    match (a, b) {
        (ValueV::Int(x), ValueV::Int(y)) => x < y,
        (ValueV::Num(x), ValueV::Num(y)) => x < y,
        _ => false,
    }
}

impl Value {
    /// A copy of this cell with the same model.
    pub fn duplicate(&self) -> (r: Value)
        ensures
            r@ == self@,
    {
        match self {
            Value::Int(x) => Value::Int(*x),
            Value::Num(x) => Value::Num(*x),
            Value::Str(s) => Value::Str(s.clone()),
            Value::Bool(b) => Value::Bool(*b),
            Value::Null => Value::Null,
        }
    }
}

/// Equality test on cells, matching [`cell_eq`] on the models.
pub fn val_eq(a: &Value, b: &Value) -> (r: bool)
    ensures
        r == cell_eq(a@, b@),
{
    match a {
        Value::Int(x) => match b {
            Value::Int(y) => *x == *y,
            _ => false,
        },
        Value::Num(x) => match b {
            Value::Num(y) => *x == *y,
            _ => false,
        },
        Value::Str(x) => match b {
            Value::Str(y) => *x == *y,
            _ => false,
        },
        Value::Bool(x) => match b {
            Value::Bool(y) => *x == *y,
            _ => false,
        },
        Value::Null => match b {
            Value::Null => true,
            _ => false,
        },
    }
}

/// Strict-order test on cells, matching [`cell_lt`] on the models.
pub fn val_lt(a: &Value, b: &Value) -> (r: bool)
    ensures
        r == cell_lt(a@, b@),
{
    match a {
        Value::Int(x) => match b {
            Value::Int(y) => *x < *y,
            _ => false,
        },
        Value::Num(x) => match b {
            Value::Num(y) => *x < *y,
            _ => false,
        },
        _ => false,
    }
}

} // verus!
