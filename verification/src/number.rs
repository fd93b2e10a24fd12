//! The numeric algebra of the optimizer: a number is a signed integer, an
//! unsigned integer or a float, and sums and products promote their operands.

use crate::host::{apply, callable, function_of, single_valued};
use crate::json::{integer_as_float, integer_float_bits};
use vstd::prelude::*;

verus! {

/// A number with its kind. A float is given by its binary64 bit pattern.
#[derive(Copy, Clone, Debug, PartialEq)]
pub enum Number {
    I64(i64),
    U64(u64),
    F64(u64),
}

/// The two operations of the algebra.
#[derive(Copy, Clone, Debug, PartialEq, Eq, Structural)]
pub enum Operation {
    Plus,
    Times,
}

/// An operation on two signed integers. Overflow wraps around.
pub open spec fn signed(op: Operation, l: i64, r: i64) -> i64 {
    match op {
        Operation::Plus => l.wrapping_add(r),
        Operation::Times => l.wrapping_mul(r),
    }
}

/// An operation on two unsigned integers. Overflow wraps around.
pub open spec fn unsigned(op: Operation, l: u64, r: u64) -> u64 {
    match op {
        Operation::Plus => l.wrapping_add(r),
        Operation::Times => l.wrapping_mul(r),
    }
}

/// The result of an operation on two numbers, the float operation being
/// `float`. Two operands of one kind keep their kind. A float operand makes the
/// result a float, and the other operand is converted. A signed and an
/// unsigned operand give a signed result; the unsigned operand is converted,
/// and there is no result where it is above the largest signed integer. Where
/// the kinds differ, the operands stand in the order signed, unsigned, or
/// signed, float, or float, unsigned.
pub open spec fn combine(op: Operation, float: spec_fn(u64, u64) -> u64, a: Number, b: Number) -> Option<
    Number,
> {
    match (a, b) {
        (Number::I64(l), Number::I64(r)) => Some(Number::I64(signed(op, l, r))),
        (Number::I64(l), Number::U64(r)) => if r <= i64::MAX {
            Some(Number::I64(signed(op, l, r as i64)))
        } else {
            None
        },
        (Number::I64(l), Number::F64(r)) => Some(Number::F64(float(integer_as_float(l as int), r))),
        (Number::U64(l), Number::U64(r)) => Some(Number::U64(unsigned(op, l, r))),
        (Number::F64(l), Number::F64(r)) => Some(Number::F64(float(l, r))),
        (Number::F64(l), Number::U64(r)) => Some(Number::F64(float(l, integer_as_float(r as int)))),
        (Number::U64(l), Number::I64(r)) => if l <= i64::MAX {
            Some(Number::I64(signed(op, r, l as i64)))
        } else {
            None
        },
        (Number::F64(l), Number::I64(r)) => Some(Number::F64(float(integer_as_float(r as int), l))),
        (Number::U64(l), Number::F64(r)) => Some(Number::F64(float(r, integer_as_float(l as int)))),
    }
}

/// The float that a signed integer is converted to.
fn float_of_signed(v: i64) -> (r: u64)
    ensures
        r == integer_as_float(v as int),
{
    integer_float_bits(v as i128).unwrap()
}

/// The float that an unsigned integer is converted to.
fn float_of_unsigned(v: u64) -> (r: u64)
    ensures
        r == integer_as_float(v as int),
{
    integer_float_bits(v as i128).unwrap()
}

fn signed_result(op: Operation, l: i64, r: i64) -> (out: i64)
    ensures
        out == signed(op, l, r),
{
    match op {
        Operation::Plus => l.wrapping_add(r),
        Operation::Times => l.wrapping_mul(r),
    }
}

fn unsigned_result(op: Operation, l: u64, r: u64) -> (out: u64)
    ensures
        out == unsigned(op, l, r),
{
    match op {
        Operation::Plus => l.wrapping_add(r),
        Operation::Times => l.wrapping_mul(r),
    }
}

fn float_result<F: Fn(u64, u64) -> u64>(float: &F, l: u64, r: u64) -> (out: Option<Number>)
    requires
        callable(float),
    ensures
        single_valued(float) ==> out == Some(Number::F64(function_of(float)(l, r))),
{
    Some(Number::F64(apply(float, l, r)))
}

impl Number {
    /// The number that a JSON number stands for: a signed integer where it
    /// fits, an unsigned integer above that, a float for a float.
    pub fn from(js: crate::json::Number) -> (n: Number)
        ensures
            n == Number::of_json(js),
    {
        match js {
            crate::json::Number::PosInt(v) => if v <= 0x7fff_ffff_ffff_ffff {
                Number::I64(v as i64)
            } else {
                Number::U64(v)
            },
            crate::json::Number::NegInt(v) => Number::I64(v),
            crate::json::Number::Float(bits) => Number::F64(bits),
        }
    }

    /// The number that a JSON number stands for.
    pub open spec fn of_json(js: crate::json::Number) -> Number {
        match js {
            crate::json::Number::PosInt(v) => if v <= i64::MAX {
                Number::I64(v as i64)
            } else {
                Number::U64(v)
            },
            crate::json::Number::NegInt(v) => Number::I64(v),
            crate::json::Number::Float(bits) => Number::F64(bits),
        }
    }

    /// Applies `op` to `self` and `rhs`, with `float` as the operation on
    /// floats. `None` stands for an unsigned operand that has no signed
    /// counterpart.
    pub fn combined<F: Fn(u64, u64) -> u64>(self, op: Operation, rhs: Number, float: &F) -> (out: Option<
        Number,
    >)
        requires
            callable(float),
        ensures
            single_valued(float) ==> out == combine(op, function_of(float), self, rhs),
    {
        match (self, rhs) {
            (Number::I64(l), Number::I64(r)) => Some(Number::I64(signed_result(op, l, r))),
            (Number::I64(l), Number::U64(r)) => if r <= 0x7fff_ffff_ffff_ffff {
                Some(Number::I64(signed_result(op, l, r as i64)))
            } else {
                None
            },
            (Number::I64(l), Number::F64(r)) => float_result(float, float_of_signed(l), r),
            (Number::U64(l), Number::U64(r)) => Some(Number::U64(unsigned_result(op, l, r))),
            (Number::F64(l), Number::F64(r)) => float_result(float, l, r),
            (Number::F64(l), Number::U64(r)) => float_result(float, l, float_of_unsigned(r)),
            (Number::U64(l), Number::I64(r)) => if l <= 0x7fff_ffff_ffff_ffff {
                Some(Number::I64(signed_result(op, r, l as i64)))
            } else {
                None
            },
            (Number::F64(l), Number::I64(r)) => float_result(float, float_of_signed(r), l),
            (Number::U64(l), Number::F64(r)) => float_result(float, r, float_of_unsigned(l)),
        }
    }

    /// The sum of `self` and `rhs`, with `plus` as the sum of two floats.
    pub fn add<F: Fn(u64, u64) -> u64>(self, rhs: Number, plus: &F) -> (out: Option<Number>)
        requires
            callable(plus),
        ensures
            single_valued(plus) ==> out == combine(Operation::Plus, function_of(plus), self, rhs),
    {
        self.combined(Operation::Plus, rhs, plus)
    }

    /// The product of `self` and `rhs`, with `times` as the product of two
    /// floats.
    pub fn mul<F: Fn(u64, u64) -> u64>(self, rhs: Number, times: &F) -> (out: Option<Number>)
        requires
            callable(times),
        ensures
            single_valued(times) ==> out == combine(Operation::Times, function_of(times), self, rhs),
    {
        self.combined(Operation::Times, rhs, times)
    }
}

} // verus!
