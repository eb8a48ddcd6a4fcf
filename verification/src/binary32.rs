//! Binary32 data as they are stored, and as the arithmetic handles them.

use crate::rounding::{lemma_round_exact, lemma_scaled_is_finite};
use crate::value::{hidden_bit, mantissa_limit, signed, Value};
use vstd::arithmetic::power2::{lemma2_to64, pow2};
use vstd::prelude::*;

verus! {

/// An IEEE-754 binary32 datum, held as its encoding: one sign bit, eight
/// exponent bits, twenty-three fraction bits.
#[derive(Clone, Copy, Debug)]
pub struct Binary32 {
    pub bits: u32,
}

impl Binary32 {
    /// The sign bit.
    pub open spec fn sign(self) -> bool {
        self.bits >= 0x8000_0000
    }

    /// The biased exponent.
    pub open spec fn exponent_field(self) -> nat {
        (self.bits as nat / 0x80_0000) % 0x100
    }

    /// The fraction.
    pub open spec fn fraction_field(self) -> nat {
        self.bits as nat % 0x80_0000
    }

    /// The magnitude of a datum whose exponent field is not 255, in units of
    /// 2^-149: the bare fraction for a subnormal, and for a normal datum the
    /// fraction under its hidden bit, scaled by the exponent.
    pub open spec fn finite_magnitude(self) -> nat {
        if self.exponent_field() == 0 {
            self.fraction_field()
        } else {
            (hidden_bit() + self.fraction_field()) * pow2((self.exponent_field() - 1) as nat)
        }
    }
}

impl View for Binary32 {
    type V = Value;

    open spec fn view(&self) -> Value {
        if self.exponent_field() == 0xff {
            if self.fraction_field() != 0 {
                Value::Nan
            } else if self.sign() {
                Value::NegInf
            } else {
                Value::PosInf
            }
        } else {
            Value::Finite(signed(self.sign(), self.finite_magnitude()))
        }
    }
}

/// A binary32 datum taken apart. A finite one has the magnitude
/// `mantissa * 2^exponent` in units of 2^-149.
#[derive(Clone, Copy, Debug, PartialEq, Eq)]
pub enum Unpacked {
    Nan,
    Infinite { negative: bool },
    Finite { negative: bool, mantissa: u32, exponent: u32 },
}

impl Unpacked {
    /// The mantissa has at most 24 bits and the exponent stays in the finite
    /// range; above exponent 0 the mantissa is full, so that every magnitude
    /// has one form; and zero carries no sign.
    pub open spec fn wf(self) -> bool {
        match self {
            Unpacked::Finite { negative, mantissa, exponent } => {
                &&& mantissa < mantissa_limit()
                &&& exponent <= 253
                &&& exponent > 0 ==> mantissa >= hidden_bit()
                &&& mantissa == 0 ==> !negative
            },
            _ => true,
        }
    }
}

impl View for Unpacked {
    type V = Value;

    open spec fn view(&self) -> Value {
        match *self {
            Unpacked::Nan => Value::Nan,
            Unpacked::Infinite { negative } => if negative {
                Value::NegInf
            } else {
                Value::PosInf
            },
            Unpacked::Finite { negative, mantissa, exponent } => Value::Finite(
                signed(negative, mantissa as nat * pow2(exponent as nat)),
            ),
        }
    }
}

impl Binary32 {
    /// Every encoding denotes a value of the format: a finite one is a
    /// fixed point of rounding.
    pub proof fn lemma_view_is_datum(self)
        ensures
            self@.is_datum(),
    {
        lemma2_to64();
        if self.exponent_field() == 0 {
            lemma_round_exact(self.fraction_field(), 0);
            lemma_scaled_is_finite(self.fraction_field(), 0);
        } else if self.exponent_field() != 0xff {
            let m = hidden_bit() + self.fraction_field();
            let e = (self.exponent_field() - 1) as nat;
            lemma_round_exact(m, e);
            lemma_scaled_is_finite(m, e);
        }
    }

    /// Takes the encoding apart.
    pub fn unpack(self) -> (u: Unpacked)
        ensures
            u.wf(),
            u@ == self@,
    {
        let bits: u32 = self.bits;
        let negative: bool = bits >> 31 == 1;
        let field: u32 = (bits >> 23) & 0xff;
        let fraction: u32 = bits & 0x7f_ffff;
        assert(bits >> 31 == 1 <==> bits >= 0x8000_0000) by (bit_vector);
        assert((bits >> 23) & 0xff == (bits / 0x80_0000) % 0x100) by (bit_vector);
        assert(bits & 0x7f_ffff == bits % 0x80_0000) by (bit_vector);
        if field == 0xff {
            if fraction != 0 {
                Unpacked::Nan
            } else {
                Unpacked::Infinite { negative }
            }
        } else if field == 0 {
            proof {
                lemma2_to64();
            }
            Unpacked::Finite { negative: negative && fraction != 0, mantissa: fraction, exponent: 0 }
        } else {
            Unpacked::Finite { negative, mantissa: 0x80_0000 + fraction, exponent: field - 1 }
        }
    }
}

} // verus!
