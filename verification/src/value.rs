//! The mathematical model of binary32 data.
//!
//! A finite binary32 datum is an integer multiple of 2^-149, the smallest
//! positive subnormal. The model counts in that unit, so every finite datum
//! is an `int`, and the sum of two finite data is exact before it is rounded.

use vstd::arithmetic::power2::pow2;
use vstd::prelude::*;

verus! {

/// What a binary32 datum denotes. `Finite(n)` stands for `n * 2^-149`;
/// the two zeros of the format both denote `Finite(0)`.
pub enum Value {
    Nan,
    NegInf,
    Finite(int),
    PosInf,
}

/// The leading mantissa bit, which the encoding of a normal datum leaves out:
/// 2^23.
pub open spec fn hidden_bit() -> nat {
    0x80_0000
}

/// First integer that no mantissa reaches: 2^24.
pub open spec fn mantissa_limit() -> nat {
    0x100_0000
}

/// First magnitude that is too large to be finite: 2^24 * 2^253, that is 2^128
/// counted in units of 2^-149.
pub open spec fn overflow_threshold() -> nat {
    mantissa_limit() * pow2(253)
}

/// Distance between neighbouring binary32 data around the magnitude `x`:
/// 1 below 2^24, and doubling with every further binade.
pub open spec fn ulp(x: nat) -> nat
    decreases x,
{
    if x < mantissa_limit() {
        1
    } else {
        2 * ulp(x / 2)
    }
}

/// The exponent of that distance: `ulp(x)` is `2^binade(x)`.
pub open spec fn binade(x: nat) -> nat
    decreases x,
{
    if x < mantissa_limit() {
        0
    } else {
        1 + binade(x / 2)
    }
}

/// The multiple of `q` nearest to `x`; of two equally near ones, the even
/// multiple.
pub open spec fn nearest_even(x: nat, q: nat) -> nat {
    let t = x / q;
    let r = x % q;
    if 2 * r < q || (2 * r == q && t % 2 == 0) {
        t * q
    } else {
        (t + 1) * q
    }
}

/// A magnitude rounded to the grid of binary32 magnitudes, exponent unbounded.
pub open spec fn round_magnitude(x: nat) -> nat {
    nearest_even(x, ulp(x))
}

/// The magnitude of an integer.
pub open spec fn magnitude(x: int) -> nat {
    if x < 0 {
        (-x) as nat
    } else {
        x as nat
    }
}

/// The integer with the given sign and magnitude.
pub open spec fn signed(negative: bool, m: nat) -> int {
    if negative {
        -(m as int)
    } else {
        m as int
    }
}

/// An exact result rounded to binary32: to the nearest datum, ties to the even
/// mantissa, and to an infinity once the rounded magnitude leaves the finite
/// range.
pub open spec fn round(x: int) -> Value {
    let m = round_magnitude(magnitude(x));
    if m >= overflow_threshold() {
        if x < 0 {
            Value::NegInf
        } else {
            Value::PosInf
        }
    } else {
        Value::Finite(signed(x < 0, m))
    }
}

impl Value {
    /// Whether the value is one that the format holds: a finite one is, when
    /// rounding leaves it alone.
    pub open spec fn is_datum(self) -> bool {
        self matches Value::Finite(n) ==> round(n) == self
    }

    /// The binary32 sum of two data.
    pub open spec fn plus(self, other: Value) -> Value {
        match (self, other) {
            (Value::Nan, _) => Value::Nan,
            (_, Value::Nan) => Value::Nan,
            (Value::PosInf, Value::NegInf) => Value::Nan,
            (Value::NegInf, Value::PosInf) => Value::Nan,
            (Value::PosInf, _) => Value::PosInf,
            (_, Value::PosInf) => Value::PosInf,
            (Value::NegInf, _) => Value::NegInf,
            (_, Value::NegInf) => Value::NegInf,
            (Value::Finite(x), Value::Finite(y)) => round(x + y),
        }
    }

    /// The binary32 comparison `self <= other`: false as soon as one side is
    /// a NaN.
    pub open spec fn le(self, other: Value) -> bool {
        match (self, other) {
            (Value::Nan, _) => false,
            (_, Value::Nan) => false,
            (Value::NegInf, _) => true,
            (_, Value::PosInf) => true,
            (Value::Finite(x), Value::Finite(y)) => x <= y,
            _ => false,
        }
    }
}

} // verus!
