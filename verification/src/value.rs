//! Runtime values. A value is the bit pattern of an IEEE-754 double-precision
//! number, held as a plain 64-bit word so that every other component can be
//! reasoned about exactly. The arithmetic on those bit patterns is done by an
//! IEEE-754 software implementation behind trusted wrappers; negation alone is
//! a pure bit operation and is implemented and verified here.

use vstd::prelude::*;

use rustc_apfloat::Float;
use rustc_apfloat::ieee::Double;

verus! {

/// A runtime value: the bit pattern of an IEEE-754 double-precision number.
pub type Value = u64;

/// The sign bit of a double-precision bit pattern.
pub const SIGN_BIT: u64 = 0x8000_0000_0000_0000;

/// IEEE-754 negation flips the sign bit and leaves every other bit alone,
/// for finite numbers, infinities and NaNs alike.
pub open spec fn negated(v: u64) -> u64 {
    v ^ SIGN_BIT
}

/// Arithmetic negation of a value.
pub fn negate_value(v: Value) -> (r: Value)
    ensures
        r == negated(v),
{
    v ^ SIGN_BIT
}

/// The value after `k` negations in a row.
pub open spec fn iter_neg(k: nat, v: u64) -> u64
    decreases k,
{
    if k == 0 {
        v
    } else {
        iter_neg((k - 1) as nat, negated(v))
    }
}

/// A decimal digit.
pub open spec fn decimal_digit(c: char) -> bool {
    '0' as u32 <= c as u32 && c as u32 <= '9' as u32
}

/// Every character of `s` in `[from, to)` is a decimal digit.
pub open spec fn all_digits(s: Seq<char>, from: int, to: int) -> bool {
    forall|k: int| from <= k < to ==> decimal_digit(#[trigger] s[k])
}

/// The shape of a numeric literal: one or more digits, optionally followed by
/// a dot and one or more digits. No sign and no exponent.
pub open spec fn is_numeral(s: Seq<char>) -> bool {
    ||| (s.len() > 0 && all_digits(s, 0, s.len() as int))
    ||| (exists|i: int|
        0 < i && i + 1 < s.len() && #[trigger] s[i] == '.' && all_digits(s, 0, i) && all_digits(
            s,
            i + 1,
            s.len() as int,
        ))
}

/// The IEEE-754 double (as its bit pattern) that a decimal numeral denotes,
/// rounded to nearest, ties to even. A function of the characters alone.
pub uninterp spec fn num_of_decimal(s: Seq<char>) -> u64;

/// The IEEE-754 double-precision sum of two bit patterns (round to nearest,
/// ties to even).
pub uninterp spec fn num_add(a: u64, b: u64) -> u64;

/// The IEEE-754 double-precision difference of two bit patterns.
pub uninterp spec fn num_sub(a: u64, b: u64) -> u64;

/// The IEEE-754 double-precision product of two bit patterns.
pub uninterp spec fn num_mul(a: u64, b: u64) -> u64;

/// The IEEE-754 double-precision quotient of two bit patterns. Division by
/// zero follows the floating-point convention and yields an infinity or NaN,
/// never an error.
pub uninterp spec fn num_div(a: u64, b: u64) -> u64;

/// Relies on rustc_apfloat's `Double::from_str` (round to nearest, ties to
/// even), which parses any digits[.digits] numeral exactly as Rust's own
/// float literals are parsed; the result depends on the characters alone.
#[verifier::external_body]
pub(crate) fn parse_number(chars: &[char]) -> (r: Value)
    requires
        is_numeral(chars@),
    ensures
        r == num_of_decimal(chars@),
{
    let text: String = chars.iter().collect();
    match text.parse::<Double>() {
        Ok(d) => d.to_bits() as u64,
        Err(_) => 0,
    }
}

/// Relies on rustc_apfloat's `Double` addition: IEEE-754 binary64 addition,
/// round to nearest, ties to even, a function of the two bit patterns alone.
#[verifier::external_body]
pub(crate) fn add_values(a: Value, b: Value) -> (r: Value)
    ensures
        r == num_add(a, b),
{
    (Double::from_bits(a as u128) + Double::from_bits(b as u128)).value.to_bits() as u64
}

/// Relies on rustc_apfloat's `Double` subtraction: IEEE-754 binary64
/// subtraction, round to nearest, ties to even, a function of the bit
/// patterns alone.
#[verifier::external_body]
pub(crate) fn sub_values(a: Value, b: Value) -> (r: Value)
    ensures
        r == num_sub(a, b),
{
    (Double::from_bits(a as u128) - Double::from_bits(b as u128)).value.to_bits() as u64
}

/// Relies on rustc_apfloat's `Double` multiplication: IEEE-754 binary64
/// multiplication, round to nearest, ties to even, a function of the bit
/// patterns alone.
#[verifier::external_body]
pub(crate) fn mul_values(a: Value, b: Value) -> (r: Value)
    ensures
        r == num_mul(a, b),
{
    (Double::from_bits(a as u128) * Double::from_bits(b as u128)).value.to_bits() as u64
}

/// Relies on rustc_apfloat's `Double` division: IEEE-754 binary64 division,
/// round to nearest, ties to even; division by zero yields an infinity or
/// NaN. A function of the two bit patterns alone.
#[verifier::external_body]
pub(crate) fn div_values(a: Value, b: Value) -> (r: Value)
    ensures
        r == num_div(a, b),
{
    (Double::from_bits(a as u128) / Double::from_bits(b as u128)).value.to_bits() as u64
}

/// The constant pool: an append-only ordered list of values.
pub struct ValueArray {
    pub values: Vec<Value>,
}

impl ValueArray {
    pub fn new() -> (r: ValueArray)
        ensures
            r.values@ == Seq::<Value>::empty(),
    {
        ValueArray { values: Vec::new() }
    }

    pub fn write(&mut self, value: Value)
        ensures
            final(self).values@ == old(self).values@.push(value),
    {
        self.values.push(value);
    }

    pub fn get(&self, index: usize) -> (r: Value)
        requires
            index < self.values@.len(),
        ensures
            r == self.values@[index as int],
    {
        self.values[index]
    }
}

impl Default for ValueArray {
    fn default() -> (r: Self)
        ensures
            r.values@ == Seq::<Value>::empty(),
    {
        ValueArray::new()
    }
}

} // verus!
