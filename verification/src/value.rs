//! Dynamically typed value.
//!
//! A `Value` carries an IEEE-754 binary64 number as its raw 64 bits, so the
//! whole data model is plain integers. Arithmetic on those bit patterns is
//! done by `rustc_apfloat`, a software implementation of IEEE-754 binary64,
//! through the trusted wrappers at the bottom of this file; each operation's
//! result is named by an uninterpreted function of the operand bits.
use rustc_apfloat::Float;
use vstd::prelude::*;

verus! {

/// The sign bit of an IEEE-754 binary64 number.
pub const FLOAT_SIGN_BIT: u64 = 0x8000_0000_0000_0000;

/// The dynamically-typed scalar carried on the VM stack and in constant
/// pools. `Float` holds the raw bits of an IEEE-754 binary64 number.
/// `Error` marks the result of arithmetic on a non-`Float` operand; the VM
/// never pushes it, translating it into a type error at dispatch instead.
#[derive(Debug, Clone, Copy, PartialEq, Eq, Structural)]
pub enum Value {
    Null,
    Float(u64),
    Error,
}

/// The bits of the IEEE-754 binary64 sum of two numbers given by their bits,
/// rounding to nearest, ties to even.
pub uninterp spec fn add_bits(a: u64, b: u64) -> u64;

/// The bits of the IEEE-754 binary64 difference of two numbers given by
/// their bits, rounding to nearest, ties to even.
pub uninterp spec fn sub_bits(a: u64, b: u64) -> u64;

/// The bits of the IEEE-754 binary64 product of two numbers given by their
/// bits, rounding to nearest, ties to even.
pub uninterp spec fn mul_bits(a: u64, b: u64) -> u64;

/// The bits of the IEEE-754 binary64 quotient of two numbers given by their
/// bits, rounding to nearest, ties to even. Division by zero follows
/// IEEE-754 and yields an infinity or NaN.
pub uninterp spec fn div_bits(a: u64, b: u64) -> u64;

/// IEEE-754 negation of a binary64 number is exactly a flip of its sign bit.
pub open spec fn neg_bits(a: u64) -> u64 {
    a ^ FLOAT_SIGN_BIT
}

/// Negation: a `Float` yields the `Float` with its sign flipped; any other
/// operand yields `Error`.
pub open spec fn spec_neg(value: Value) -> Value {
    match value {
        Value::Float(a) => Value::Float(neg_bits(a)),
        _ => Value::Error,
    }
}

/// Addition: two `Float`s yield the `Float` of their IEEE-754 sum; any
/// non-`Float` operand yields `Error`.
pub open spec fn spec_add(lhs: Value, rhs: Value) -> Value {
    match (lhs, rhs) {
        (Value::Float(a), Value::Float(b)) => Value::Float(add_bits(a, b)),
        _ => Value::Error,
    }
}

/// Subtraction: two `Float`s yield the `Float` of their IEEE-754 difference;
/// any non-`Float` operand yields `Error`.
pub open spec fn spec_sub(lhs: Value, rhs: Value) -> Value {
    match (lhs, rhs) {
        (Value::Float(a), Value::Float(b)) => Value::Float(sub_bits(a, b)),
        _ => Value::Error,
    }
}

/// Multiplication: two `Float`s yield the `Float` of their IEEE-754 product;
/// any non-`Float` operand yields `Error`.
pub open spec fn spec_mul(lhs: Value, rhs: Value) -> Value {
    match (lhs, rhs) {
        (Value::Float(a), Value::Float(b)) => Value::Float(mul_bits(a, b)),
        _ => Value::Error,
    }
}

/// Division: two `Float`s yield the `Float` of their IEEE-754 quotient; any
/// non-`Float` operand yields `Error`.
pub open spec fn spec_div(lhs: Value, rhs: Value) -> Value {
    match (lhs, rhs) {
        (Value::Float(a), Value::Float(b)) => Value::Float(div_bits(a, b)),
        _ => Value::Error,
    }
}

impl Value {
    /// The raw binary64 bits of a `Float`, or `None` for any other value.
    pub fn as_float_bits(&self) -> (bits: Option<u64>)
        ensures
            bits == (match *self {
                Value::Float(v) => Some(v),
                _ => None::<u64>,
            }),
    {
        match self {
            Value::Float(v) => Some(*v),
            _ => None,
        }
    }

    pub fn neg(self) -> (result: Value)
        ensures
            result == spec_neg(self),
    {
        match self {
            Value::Float(a) => Value::Float(a ^ FLOAT_SIGN_BIT),
            _ => Value::Error,
        }
    }

    pub fn add(self, rhs: Value) -> (result: Value)
        ensures
            result == spec_add(self, rhs),
    {
        match (self, rhs) {
            (Value::Float(a), Value::Float(b)) => Value::Float(float_add(a, b)),
            _ => Value::Error,
        }
    }

    pub fn sub(self, rhs: Value) -> (result: Value)
        ensures
            result == spec_sub(self, rhs),
    {
        match (self, rhs) {
            (Value::Float(a), Value::Float(b)) => Value::Float(float_sub(a, b)),
            _ => Value::Error,
        }
    }

    pub fn mul(self, rhs: Value) -> (result: Value)
        ensures
            result == spec_mul(self, rhs),
    {
        match (self, rhs) {
            (Value::Float(a), Value::Float(b)) => Value::Float(float_mul(a, b)),
            _ => Value::Error,
        }
    }

    pub fn div(self, rhs: Value) -> (result: Value)
        ensures
            result == spec_div(self, rhs),
    {
        match (self, rhs) {
            (Value::Float(a), Value::Float(b)) => Value::Float(float_div(a, b)),
            _ => Value::Error,
        }
    }
}

impl Default for Value {
    fn default() -> (result: Value)
        ensures
            result == Value::Null,
    {
        Value::Null
    }
}

/// Relies on rustc_apfloat's `Double` addition (`IeeeFloat::add_r` with
/// round-to-nearest-even): the result depends on the operand bits alone.
#[verifier::external_body]
fn float_add(a: u64, b: u64) -> (r: u64)
    ensures
        r == add_bits(a, b),
{
    let x = rustc_apfloat::ieee::Double::from_bits(a as u128);
    let y = rustc_apfloat::ieee::Double::from_bits(b as u128);
    (x + y).value.to_bits() as u64
}

/// Relies on rustc_apfloat's `Double` subtraction (`IeeeFloat::sub_r` with
/// round-to-nearest-even): the result depends on the operand bits alone.
#[verifier::external_body]
fn float_sub(a: u64, b: u64) -> (r: u64)
    ensures
        r == sub_bits(a, b),
{
    let x = rustc_apfloat::ieee::Double::from_bits(a as u128);
    let y = rustc_apfloat::ieee::Double::from_bits(b as u128);
    (x - y).value.to_bits() as u64
}

/// Relies on rustc_apfloat's `Double` multiplication (`IeeeFloat::mul_r`
/// with round-to-nearest-even): the result depends on the operand bits
/// alone.
#[verifier::external_body]
fn float_mul(a: u64, b: u64) -> (r: u64)
    ensures
        r == mul_bits(a, b),
{
    let x = rustc_apfloat::ieee::Double::from_bits(a as u128);
    let y = rustc_apfloat::ieee::Double::from_bits(b as u128);
    (x * y).value.to_bits() as u64
}

/// Relies on rustc_apfloat's `Double` division (`IeeeFloat::div_r` with
/// round-to-nearest-even): the result depends on the operand bits alone.
#[verifier::external_body]
fn float_div(a: u64, b: u64) -> (r: u64)
    ensures
        r == div_bits(a, b),
{
    let x = rustc_apfloat::ieee::Double::from_bits(a as u128);
    let y = rustc_apfloat::ieee::Double::from_bits(b as u128);
    (x / y).value.to_bits() as u64
}

/// The text rustc_apfloat renders for the binary64 number with the
/// given bits: a function of the bits alone.
pub uninterp spec fn float_text(bits: u64) -> Seq<char>;

/// Debug-style text of a value, as the constant pool listing shows it.
pub open spec fn spec_debug_text(value: Value) -> Seq<char> {
    match value {
        Value::Null => "Null"@,
        Value::Float(bits) => "Float("@ + float_text(bits) + ")"@,
        Value::Error => "Error"@,
    }
}

/// Display-style text of a value, as the disassembler quotes constants.
pub open spec fn spec_display_text(value: Value) -> Seq<char> {
    match value {
        Value::Null => "null"@,
        Value::Float(bits) => float_text(bits),
        Value::Error => "error"@,
    }
}

impl Value {
    /// Debug-style rendering: the variant, with a float's decimal text.
    pub fn debug_text(&self) -> (text: String)
        ensures
            text@ == spec_debug_text(*self),
    {
        match self {
            Value::Null => String::from_str("Null"),
            Value::Float(bits) => {
                let mut text = String::from_str("Float(");
                let inner = float_display(*bits);
                text.append(inner.as_str());
                text.append(")");
                proof {
                    assert(text@ =~= spec_debug_text(*self));
                }
                text
            }
            Value::Error => String::from_str("Error"),
        }
    }

    /// Display-style rendering: `null`, the float's decimal text, or
    /// `error`.
    pub fn display_text(&self) -> (text: String)
        ensures
            text@ == spec_display_text(*self),
    {
        match self {
            Value::Null => String::from_str("null"),
            Value::Float(bits) => float_display(*bits),
            Value::Error => String::from_str("error"),
        }
    }
}

/// Relies on rustc_apfloat's `Display` for `Double`: the rendered text
/// depends on the bits alone.
#[verifier::external_body]
fn float_display(bits: u64) -> (text: String)
    ensures
        text@ == float_text(bits),
{
    format!("{}", rustc_apfloat::ieee::Double::from_bits(bits as u128))
}

} // verus!
