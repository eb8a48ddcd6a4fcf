//! Addition and comparison of unpacked binary32 data, on integers alone.

use crate::binary32::Unpacked;
use crate::rounding::{
    lemma_pow2_increases, lemma_round_absorbs, lemma_round_exact, lemma_round_shifted,
    lemma_scaled_is_finite, lemma_scaled_order, lemma_scaled_overflows,
};
use crate::value::{round, signed};
use vstd::arithmetic::div_mod::{lemma_div_denominator, lemma_fundamental_div_mod};
use vstd::arithmetic::power2::{
    lemma2_to64, lemma2_to64_rest, lemma_pow2_adds, lemma_pow2_pos, lemma_pow2_unfold, pow2,
};
use vstd::bits::lemma_u64_shl_is_mul;
use vstd::prelude::*;

verus! {

/// Largest gap between two exponents at which the operand with the smaller
/// one is still lined up with the other and added in full. Beyond it, that
/// operand is below a quarter of the spacing around the other, and the sum
/// rounds back to the other.
pub const ALIGN_LIMIT: u32 = 25;

/// Brings a magnitude of fewer than 24 bits into the one form that a finite
/// datum has: the mantissa is doubled until it is full or the exponent is 0.
fn normalized(negative: bool, mag: u32, exp: u32) -> (r: Unpacked)
    requires
        0 < mag < 0x100_0000,
        exp <= 253,
    ensures
        r.wf(),
        r@ == round(signed(negative, mag as nat * pow2(exp as nat))),
{
    let mut m: u32 = mag;
    let mut e: u32 = exp;
    while m < 0x80_0000 && e > 0
        invariant
            0 < m < 0x100_0000,
            e <= exp,
            m as nat * pow2(e as nat) == mag as nat * pow2(exp as nat),
        decreases e,
    {
        proof {
            lemma_pow2_unfold(e as nat);
            assert((2 * m) * pow2((e - 1) as nat) == m * (2 * pow2((e - 1) as nat)))
                by (nonlinear_arith);
        }
        m = m * 2;
        e = e - 1;
    }
    proof {
        lemma_round_exact(m as nat, e as nat);
        lemma_scaled_is_finite(m as nat, e as nat);
        lemma_pow2_pos(e as nat);
        assert(m as nat * pow2(e as nat) > 0) by (nonlinear_arith)
            requires
                m > 0,
                pow2(e as nat) > 0,
        ;
    }
    Unpacked::Finite { negative, mantissa: m, exponent: e }
}

/// Rounds a magnitude of 24 bits or more to a full mantissa: the low bits
/// are dropped, and the mantissa goes up by one where they exceed half of the
/// last place kept, or equal it with an odd mantissa.
fn shortened(negative: bool, mag: u64, exp: u32) -> (r: Unpacked)
    requires
        0x100_0000 <= mag < 0x4000_0000_0000_0000,
        exp <= 253,
    ensures
        r.wf(),
        r@ == round(signed(negative, mag as nat * pow2(exp as nat))),
{
    let mut top: u64 = mag;
    let mut unit: u64 = 1;
    let mut e: u32 = exp;
    proof {
        lemma2_to64();
    }
    while top >= 0x100_0000
        invariant
            mag < 0x4000_0000_0000_0000,
            exp <= 253,
            exp <= e <= exp + 38,
            unit == pow2((e - exp) as nat),
            0 < unit < 0x80_0000_0000,
            top == mag / unit,
            top >= 0x80_0000,
        decreases top,
    {
        proof {
            let sh = (e - exp) as nat;
            lemma_pow2_unfold(sh + 1);
            lemma_div_denominator(mag as int, unit as int, 2);
            lemma_fundamental_div_mod(mag as int, unit as int);
            assert(unit < 0x40_0000_0000) by (nonlinear_arith)
                requires
                    top >= 0x100_0000,
                    mag < 0x4000_0000_0000_0000,
                    mag >= unit * top,
            ;
            if sh >= 38 {
                lemma_pow2_increases(38, sh);
                lemma2_to64_rest();
            }
        }
        top = top / 2;
        unit = unit * 2;
        e = e + 1;
    }
    let rem: u64 = mag % unit;
    let up: bool = 2 * rem > unit || (2 * rem == unit && top % 2 == 1);
    let ghost sh = (e - exp) as nat;
    let ghost chosen: nat = if up { (top + 1) as nat } else { top as nat };
    proof {
        lemma_fundamental_div_mod(mag as int, unit as int);
        assert(mag == top * unit + rem) by (nonlinear_arith)
            requires
                mag == unit * top + rem,
        ;
        lemma_round_shifted(top as nat, rem as nat, sh, exp as nat);
        assert(sh + exp == e);
    }
    let mut m: u32 = if up { (top + 1) as u32 } else { top as u32 };
    if m == 0x100_0000 {
        proof {
            lemma_pow2_unfold((e + 1) as nat);
            assert(0x100_0000 * pow2(e as nat) == 0x80_0000 * (2 * pow2(e as nat)))
                by (nonlinear_arith);
        }
        m = 0x80_0000;
        e = e + 1;
    }
    proof {
        assert(m as nat * pow2(e as nat) == chosen * pow2(sh + exp as nat));
        lemma_pow2_pos(e as nat);
        assert(m as nat * pow2(e as nat) > 0) by (nonlinear_arith)
            requires
                m > 0,
                pow2(e as nat) > 0,
        ;
        lemma_pow2_pos(exp as nat);
        assert(mag as nat * pow2(exp as nat) > 0) by (nonlinear_arith)
            requires
                mag > 0,
                pow2(exp as nat) > 0,
        ;
    }
    if e > 253 {
        proof {
            lemma_scaled_overflows(m as nat, e as nat);
        }
        Unpacked::Infinite { negative }
    } else {
        proof {
            lemma_scaled_is_finite(m as nat, e as nat);
        }
        Unpacked::Finite { negative, mantissa: m, exponent: e }
    }
}

/// The sum of two finite data, the first with the exponent that is not the
/// smaller one.
fn plus_aligned(
    an: bool,
    am: u32,
    ae: u32,
    bn: bool,
    bm: u32,
    be: u32,
) -> (r: Unpacked)
    requires
        (Unpacked::Finite { negative: an, mantissa: am, exponent: ae }).wf(),
        (Unpacked::Finite { negative: bn, mantissa: bm, exponent: be }).wf(),
        ae >= be,
    ensures
        r.wf(),
        r@ == round(
            signed(an, am as nat * pow2(ae as nat)) + signed(bn, bm as nat * pow2(be as nat)),
        ),
{
    let gap: u32 = ae - be;
    let ghost a = am as nat * pow2(ae as nat);
    let ghost b = bm as nat * pow2(be as nat);
    let ghost unit = pow2(be as nat);
    proof {
        lemma2_to64();
        lemma_pow2_pos(be as nat);
        lemma_pow2_pos(ae as nat);
        lemma_pow2_adds(gap as nat, be as nat);
    }
    if gap > ALIGN_LIMIT {
        proof {
            lemma_pow2_increases((ALIGN_LIMIT + 1 + be) as nat, ae as nat);
            lemma_pow2_adds((ALIGN_LIMIT + 1) as nat, be as nat);
            assert(4 * b < pow2(ae as nat)) by (nonlinear_arith)
                requires
                    b == bm as nat * unit,
                    bm < 0x100_0000,
                    unit > 0,
                    pow2(ae as nat) >= 0x400_0000 * unit,
            ;
            lemma_round_absorbs(am as nat, ae as nat, b);
            lemma_scaled_is_finite(am as nat, ae as nat);
            assert(a >= pow2(ae as nat)) by (nonlinear_arith)
                requires
                    a == am as nat * pow2(ae as nat),
                    am >= 1,
            ;
        }
        return Unpacked::Finite { negative: an, mantissa: am, exponent: ae };
    }
    proof {
        lemma_pow2_increases(gap as nat, ALIGN_LIMIT as nat);
        assert(am * pow2(gap as nat) <= 0x100_0000 * 0x200_0000) by (nonlinear_arith)
            requires
                am < 0x100_0000,
                pow2(gap as nat) <= 0x200_0000,
        ;
        lemma_u64_shl_is_mul(am as u64, gap as u64);
    }
    let big: u64 = (am as u64) << (gap as u64);
    let small: u64 = bm as u64;
    proof {
        assert(big as nat * unit == a) by (nonlinear_arith)
            requires
                big == am * pow2(gap as nat),
                pow2(ae as nat) == pow2(gap as nat) * unit,
                a == am as nat * pow2(ae as nat),
        ;
        assert((big + small) * unit == a + b && (big - small) * unit == a - b && (small - big)
            * unit == b - a) by (nonlinear_arith)
            requires
                big as nat * unit == a,
                small as nat * unit == b,
        ;
    }
    let negative: bool;
    let mag: u64;
    if an == bn {
        negative = an;
        mag = big + small;
    } else if big >= small {
        negative = an;
        mag = big - small;
    } else {
        negative = bn;
        mag = small - big;
    }
    assert(signed(an, a) + signed(bn, b) == signed(negative, mag as nat * unit));
    if mag == 0 {
        proof {
            lemma_round_exact(0, 0);
            lemma_scaled_is_finite(0, 0);
            assert(mag as nat * unit == 0) by (nonlinear_arith)
                requires
                    mag == 0,
            ;
        }
        Unpacked::Finite { negative: false, mantissa: 0, exponent: 0 }
    } else if mag < 0x100_0000 {
        normalized(negative, mag as u32, be)
    } else {
        shortened(negative, mag, be)
    }
}

impl Unpacked {
    /// The binary32 sum: exact, then rounded to nearest, ties to even.
    pub fn plus(self, other: Unpacked) -> (r: Unpacked)
        requires
            self.wf(),
            other.wf(),
        ensures
            r.wf(),
            r@ == self@.plus(other@),
    {
        match self {
            Unpacked::Nan => Unpacked::Nan,
            Unpacked::Infinite { negative } => match other {
                Unpacked::Nan => Unpacked::Nan,
                Unpacked::Infinite { negative: other_negative } => if negative == other_negative {
                    self
                } else {
                    Unpacked::Nan
                },
                Unpacked::Finite { .. } => self,
            },
            Unpacked::Finite { negative: an, mantissa: am, exponent: ae } => match other {
                Unpacked::Nan => Unpacked::Nan,
                Unpacked::Infinite { .. } => other,
                Unpacked::Finite { negative: bn, mantissa: bm, exponent: be } => if ae >= be {
                    plus_aligned(an, am, ae, bn, bm, be)
                } else {
                    plus_aligned(bn, bm, be, an, am, ae)
                },
            },
        }
    }

    /// The binary32 comparison `self <= other`.
    pub fn le(self, other: Unpacked) -> (r: bool)
        requires
            self.wf(),
            other.wf(),
        ensures
            r == self@.le(other@),
    {
        match self {
            Unpacked::Nan => false,
            Unpacked::Infinite { negative } => match other {
                Unpacked::Nan => false,
                Unpacked::Infinite { negative: other_negative } => negative || !other_negative,
                Unpacked::Finite { .. } => negative,
            },
            Unpacked::Finite { negative: an, mantissa: am, exponent: ae } => match other {
                Unpacked::Nan => false,
                Unpacked::Infinite { negative: other_negative } => !other_negative,
                Unpacked::Finite { negative: bn, mantissa: bm, exponent: be } => {
                    proof {
                        lemma_scaled_order(am as nat, ae as nat, bm as nat, be as nat);
                        lemma_scaled_order(bm as nat, be as nat, am as nat, ae as nat);
                        lemma_pow2_pos(ae as nat);
                        lemma_pow2_pos(be as nat);
                        assert(am > 0 ==> am as nat * pow2(ae as nat) > 0) by (nonlinear_arith)
                            requires
                                pow2(ae as nat) > 0,
                        ;
                        assert(bm > 0 ==> bm as nat * pow2(be as nat) > 0) by (nonlinear_arith)
                            requires
                                pow2(be as nat) > 0,
                        ;
                    }
                    if an != bn {
                        an
                    } else if an {
                        be < ae || (be == ae && bm <= am)
                    } else {
                        ae < be || (ae == be && am <= bm)
                    }
                },
            },
        }
    }
}

} // verus!
