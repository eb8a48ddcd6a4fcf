//! Facts about rounding to the binary32 grid.

use crate::value::{
    binade, hidden_bit, magnitude, mantissa_limit, nearest_even, overflow_threshold, round,
    round_magnitude, ulp, Value,
};
use vstd::arithmetic::div_mod::{lemma_fundamental_div_mod, lemma_fundamental_div_mod_converse};
use vstd::arithmetic::power2::{
    lemma2_to64, lemma_pow2_adds, lemma_pow2_pos, lemma_pow2_strictly_increases,
    lemma_pow2_unfold, pow2,
};
use vstd::prelude::*;

verus! {

/// Within the binade `[2^23 * 2^k, 2^24 * 2^k)` neighbouring data are `2^k`
/// apart.
pub proof fn lemma_ulp_in_binade(x: nat, k: nat)
    requires
        hidden_bit() * pow2(k) <= x < mantissa_limit() * pow2(k),
    ensures
        ulp(x) == pow2(k),
    decreases k,
{
    lemma2_to64();
    if k > 0 {
        lemma_pow2_unfold(k);
        lemma_pow2_pos((k - 1) as nat);
        lemma_ulp_in_binade(x / 2, (k - 1) as nat);
    }
}

/// Rounding `t * q + r` to a multiple of `q`, with `r` a proper remainder,
/// looks at `r` and at the parity of `t` only.
pub proof fn lemma_nearest_even_split(t: nat, r: nat, q: nat)
    requires
        r < q,
    ensures
        nearest_even(t * q + r, q) == if 2 * r < q || (2 * r == q && t % 2 == 0) {
            t * q
        } else {
            (t + 1) * q
        },
{
    lemma_fundamental_div_mod_converse((t * q + r) as int, q as int, t as int, r as int);
}

/// A mantissa in `[2^23, 2^24)` scaled by `2^k` lies in the binade whose
/// spacing is `2^k`.
pub proof fn lemma_binade_bounds(m: nat, r: nat, k: nat)
    requires
        hidden_bit() <= m < mantissa_limit(),
        r < pow2(k),
    ensures
        hidden_bit() * pow2(k) <= m * pow2(k) + r < mantissa_limit() * pow2(k),
        ulp(m * pow2(k) + r) == pow2(k),
{
    let q = pow2(k);
    assert(hidden_bit() * q <= m * q && (m + 1) * q <= mantissa_limit() * q
        && (m + 1) * q == m * q + q) by (nonlinear_arith)
        requires
            hidden_bit() <= m < mantissa_limit(),
    ;
    lemma_ulp_in_binade(m * q + r, k);
}

/// A mantissa below 2^24 with exponent 0, or one in `[2^23, 2^24)` with any
/// exponent, denotes a magnitude that rounding leaves alone.
pub proof fn lemma_round_exact(m: nat, e: nat)
    requires
        m < mantissa_limit(),
        e > 0 ==> m >= hidden_bit(),
    ensures
        round_magnitude(m * pow2(e)) == m * pow2(e),
{
    let q = pow2(e);
    lemma_pow2_pos(e);
    if e == 0 {
        lemma2_to64();
        assert(m * q == m);
        lemma_fundamental_div_mod_converse(m as int, 1, m as int, 0);
    } else {
        lemma_binade_bounds(m, 0, e);
        lemma_nearest_even_split(m, 0, q);
    }
}

/// Rounding away the low `sh` bits of a magnitude whose remaining bits form a
/// full mantissa `top`: the result is `top` or its successor, decided by the
/// bits dropped, whatever power of two scales the whole.
pub proof fn lemma_round_shifted(top: nat, rem: nat, sh: nat, k: nat)
    requires
        hidden_bit() <= top < mantissa_limit(),
        rem < pow2(sh),
    ensures
        round_magnitude((top * pow2(sh) + rem) * pow2(k)) == (if 2 * rem < pow2(sh) || (2 * rem
            == pow2(sh) && top % 2 == 0) {
            top
        } else {
            top + 1
        }) * pow2(sh + k),
{
    let ps = pow2(sh);
    let pk = pow2(k);
    let q = pow2(sh + k);
    let r = rem * pk;
    lemma_pow2_adds(sh, k);
    lemma_pow2_pos(k);
    assert((top * ps + rem) * pk == top * (ps * pk) + rem * pk) by (nonlinear_arith);
    assert(rem * pk < ps * pk && (2 * rem < ps <==> 2 * (rem * pk) < ps * pk) && (2 * rem == ps
        <==> 2 * (rem * pk) == ps * pk)) by (nonlinear_arith)
        requires
            rem < ps,
            pk > 0,
    ;
    lemma_binade_bounds(top, r, sh + k);
    lemma_nearest_even_split(top, r, q);
}

/// A full mantissa scaled by `2^k` absorbs anything below a quarter of `2^k`,
/// added or taken away.
pub proof fn lemma_round_absorbs(m: nat, k: nat, b: nat)
    requires
        hidden_bit() <= m < mantissa_limit(),
        4 * b < pow2(k),
    ensures
        round_magnitude(m * pow2(k) + b) == m * pow2(k),
        b <= m * pow2(k),
        round_magnitude((m * pow2(k) - b) as nat) == m * pow2(k),
{
    let q = pow2(k);
    lemma_binade_bounds(m, b, k);
    lemma_nearest_even_split(m, b, q);
    assert(m * q >= q) by (nonlinear_arith)
        requires
            m >= 1,
    ;
    if b == 0 {
    } else if m > hidden_bit() {
        let t = (m - 1) as nat;
        let r = (q - b) as nat;
        assert(t * q + r == m * q - b && (t + 1) * q == m * q) by (nonlinear_arith)
            requires
                t == m - 1,
                r == q - b,
        ;
        lemma_binade_bounds(t, r, k);
        lemma_nearest_even_split(t, r, q);
    } else {
        lemma2_to64();
        assert(k > 0);
        lemma_pow2_unfold(k);
        let h = pow2((k - 1) as nat);
        let t = (mantissa_limit() - 1) as nat;
        let r = (h - b) as nat;
        assert(t * h + r == m * q - b && (t + 1) * h == m * q) by (nonlinear_arith)
            requires
                t == 0x100_0000 - 1,
                m == 0x80_0000,
                q == 2 * h,
                r == h - b,
        ;
        lemma_binade_bounds(t, r, (k - 1) as nat);
        lemma_nearest_even_split(t, r, h);
    }
}

/// Powers of two grow with the exponent.
pub proof fn lemma_pow2_increases(e1: nat, e2: nat)
    requires
        e1 <= e2,
    ensures
        pow2(e1) <= pow2(e2),
{
    if e1 < e2 {
        lemma_pow2_strictly_increases(e1, e2);
    }
}

/// A mantissa below 2^24 with an exponent of at most 253 stays finite.
pub proof fn lemma_scaled_is_finite(m: nat, e: nat)
    requires
        m < mantissa_limit(),
        e <= 253,
    ensures
        m * pow2(e) < overflow_threshold(),
{
    lemma_pow2_increases(e, 253);
    lemma_pow2_pos(e);
    assert(m * pow2(e) < 0x100_0000 * pow2(253)) by (nonlinear_arith)
        requires
            m < 0x100_0000,
            0 < pow2(e) <= pow2(253),
    ;
}

/// A full mantissa with an exponent above 253 is out of the finite range.
pub proof fn lemma_scaled_overflows(m: nat, e: nat)
    requires
        m >= hidden_bit(),
        e >= 254,
    ensures
        m * pow2(e) >= overflow_threshold(),
{
    lemma_pow2_increases(254, e);
    lemma_pow2_unfold(254);
    assert(m * pow2(e) >= 0x100_0000 * pow2(253)) by (nonlinear_arith)
        requires
            m >= 0x80_0000,
            pow2(e) >= 2 * pow2(253),
    ;
}

/// Magnitudes in the one form that `mantissa * 2^exponent` allows (a full
/// mantissa above exponent 0) are ordered by exponent, then by mantissa.
pub proof fn lemma_scaled_order(m1: nat, e1: nat, m2: nat, e2: nat)
    requires
        m1 < mantissa_limit(),
        m2 < mantissa_limit(),
        e1 > 0 ==> m1 >= hidden_bit(),
        e2 > 0 ==> m2 >= hidden_bit(),
    ensures
        m1 * pow2(e1) <= m2 * pow2(e2) <==> e1 < e2 || (e1 == e2 && m1 <= m2),
{
    lemma_pow2_pos(e1);
    lemma_pow2_pos(e2);
    if e1 == e2 {
        assert(m1 * pow2(e1) <= m2 * pow2(e1) <==> m1 <= m2) by (nonlinear_arith)
            requires
                pow2(e1) > 0,
        ;
    } else if e1 < e2 {
        lemma_scaled_step(m1, e1, m2, e2);
    } else {
        lemma_scaled_step(m2, e2, m1, e1);
    }
}

/// A full mantissa with the larger exponent denotes the larger magnitude.
proof fn lemma_scaled_step(m1: nat, e1: nat, m2: nat, e2: nat)
    requires
        m1 < mantissa_limit(),
        m2 >= hidden_bit(),
        e1 < e2,
    ensures
        m1 * pow2(e1) < m2 * pow2(e2),
{
    lemma_pow2_pos(e1);
    lemma_pow2_increases(e1 + 1, e2);
    lemma_pow2_unfold(e1 + 1);
    assert(m1 * pow2(e1) < m2 * pow2(e2)) by (nonlinear_arith)
        requires
            m1 < 0x100_0000,
            m2 >= 0x80_0000,
            pow2(e1) > 0,
            pow2(e2) >= 2 * pow2(e1),
    ;
}

/// A mantissa below 2^24 denotes a magnitude that rounding leaves alone,
/// whatever the exponent.
pub proof fn lemma_round_short(m: nat, e: nat)
    requires
        m < mantissa_limit(),
    ensures
        round_magnitude(m * pow2(e)) == m * pow2(e),
    decreases e,
{
    if e == 0 || m >= hidden_bit() {
        lemma_round_exact(m, e);
    } else {
        lemma_pow2_unfold(e);
        assert((2 * m) * pow2((e - 1) as nat) == m * (2 * pow2((e - 1) as nat)))
            by (nonlinear_arith);
        lemma_round_short(2 * m, (e - 1) as nat);
    }
}

/// The sum of two multiples of `q` is one, and so is the negation of one.
pub proof fn lemma_multiples(a: int, b: int, q: int)
    requires
        q > 0,
        a % q == 0,
        b % q == 0,
    ensures
        (a + b) % q == 0,
        (-a) % q == 0,
{
    lemma_fundamental_div_mod(a, q);
    lemma_fundamental_div_mod(b, q);
    let x = a / q;
    let y = b / q;
    assert(a + b == (x + y) * q + 0 && -a == (-x) * q + 0) by (nonlinear_arith)
        requires
            a == q * x,
            b == q * y,
    ;
    lemma_fundamental_div_mod_converse(a + b, q, x + y, 0);
    lemma_fundamental_div_mod_converse(-a, q, -x, 0);
}

/// A multiple of `2^k` of at most `2^24 * 2^k` in magnitude, and within the
/// finite range, is a binary32 datum: rounding returns it unchanged.
pub proof fn lemma_round_multiple(x: int, k: nat)
    requires
        x % (pow2(k) as int) == 0,
        magnitude(x) <= mantissa_limit() * pow2(k),
        magnitude(x) < overflow_threshold(),
    ensures
        round(x) == Value::Finite(x),
{
    let q = pow2(k);
    let a = magnitude(x);
    lemma_pow2_pos(k);
    lemma_multiples(x, 0, q as int);
    lemma_fundamental_div_mod(a as int, q as int);
    let j = a / q;
    assert(a == j * q) by (nonlinear_arith)
        requires
            a == q * j + 0,
    ;
    assert(j <= 0x100_0000) by (nonlinear_arith)
        requires
            j * q <= 0x100_0000 * q,
            q > 0,
    ;
    if j == mantissa_limit() {
        lemma_pow2_unfold(k + 1);
        assert(0x100_0000 * q == 0x80_0000 * (2 * q)) by (nonlinear_arith);
        lemma_round_exact(hidden_bit(), k + 1);
    } else {
        lemma_round_short(j, k);
    }
}

/// The spacing around `x` is a power of two, and `x` has at most 24 bits
/// when counted in it; from 2^24 on it has exactly 24.
pub proof fn lemma_ulp_bounds(x: nat)
    ensures
        ulp(x) == pow2(binade(x)),
        ulp(x) > 0,
        x < mantissa_limit() * ulp(x),
        x >= mantissa_limit() ==> hidden_bit() * ulp(x) <= x,
    decreases x,
{
    lemma2_to64();
    if x >= mantissa_limit() {
        lemma_ulp_bounds(x / 2);
        lemma_pow2_unfold(binade(x));
    }
}

/// The spacing does not shrink as magnitudes grow, and where it grows, it at
/// least doubles.
pub proof fn lemma_ulp_steps(x: nat, y: nat)
    requires
        x <= y,
    ensures
        ulp(x) == ulp(y) || 2 * ulp(x) <= ulp(y),
    decreases y,
{
    if y >= mantissa_limit() {
        if x >= mantissa_limit() {
            lemma_ulp_steps(x / 2, y / 2);
        } else {
            lemma_ulp_bounds(y / 2);
        }
    }
}

/// The rounded magnitude is the multiple of the spacing just below or just
/// above, and the one below is reached from a mantissa of 24 bits at most.
proof fn lemma_round_magnitude_cell(x: nat)
    ensures
        x == (x / ulp(x)) * ulp(x) + x % ulp(x),
        0 <= x % ulp(x) < ulp(x),
        x / ulp(x) < mantissa_limit(),
        x >= mantissa_limit() ==> x / ulp(x) >= hidden_bit(),
        round_magnitude(x) == (x / ulp(x)) * ulp(x) || round_magnitude(x) == (x / ulp(x) + 1)
            * ulp(x),
        x % ulp(x) == 0 ==> round_magnitude(x) == x,
{
    let q = ulp(x);
    let t = x / q;
    let r = x % q;
    lemma_ulp_bounds(x);
    lemma_fundamental_div_mod(x as int, q as int);
    assert(x == t * q + r) by (nonlinear_arith)
        requires
            x == q * t + r,
    ;
    assert(t < 0x100_0000) by (nonlinear_arith)
        requires
            x == t * q + r,
            x < 0x100_0000 * q,
            q > 0,
    ;
    if x >= mantissa_limit() {
        assert(t >= 0x80_0000) by (nonlinear_arith)
            requires
                x == t * q + r,
                r < q,
                x >= 0x80_0000 * q,
                q > 0,
        ;
    }
}

/// Rounding keeps the order of magnitudes.
pub proof fn lemma_round_magnitude_monotone(x: nat, y: nat)
    requires
        x <= y,
    ensures
        round_magnitude(x) <= round_magnitude(y),
{
    let qx = ulp(x);
    let qy = ulp(y);
    let tx = x / qx;
    let ty = y / qy;
    let rx = x % qx;
    let ry = y % qy;
    lemma_round_magnitude_cell(x);
    lemma_round_magnitude_cell(y);
    lemma_ulp_steps(x, y);
    assert((tx + 1) * qx == tx * qx + qx && (ty + 1) * qy == ty * qy + qy) by (nonlinear_arith);
    if qx == qy {
        if tx != ty {
            assert((tx + 1) * qx <= ty * qx) by (nonlinear_arith)
                requires
                    tx * qx + rx <= ty * qx + ry,
                    ry < qx,
                    0 <= rx,
                    tx != ty,
            ;
        }
    } else {
        lemma_ulp_bounds(x);
        lemma_ulp_bounds(y);
        assert(y >= mantissa_limit());
        assert((tx + 1) * qx <= 0x100_0000 * qx) by (nonlinear_arith)
            requires
                tx < 0x100_0000,
                qx > 0,
        ;
        assert(ty * qy >= 0x80_0000 * qy) by (nonlinear_arith)
            requires
                ty >= 0x80_0000,
                qy > 0,
        ;
    }
}

/// Rounding keeps the order of exact results.
pub proof fn lemma_round_monotone(x: int, y: int)
    requires
        x <= y,
    ensures
        round(x).le(round(y)),
{
    if x >= 0 {
        lemma_round_magnitude_monotone(magnitude(x), magnitude(y));
    } else if y < 0 {
        lemma_round_magnitude_monotone(magnitude(y), magnitude(x));
    }
}

/// What rounding returns, it leaves alone.
pub proof fn lemma_round_is_datum(x: int)
    ensures
        round(x).is_datum(),
{
    let a = magnitude(x);
    let q = ulp(a);
    let k = binade(a);
    let t = a / q;
    lemma_round_magnitude_cell(a);
    lemma_ulp_bounds(a);
    if a >= mantissa_limit() {
        if round_magnitude(a) == t * q {
            lemma_round_exact(t, k);
        } else if t + 1 < mantissa_limit() {
            lemma_round_exact(t + 1, k);
        } else {
            lemma_pow2_unfold(k + 1);
            assert(0x100_0000 * q == 0x80_0000 * (2 * q)) by (nonlinear_arith);
            lemma_round_exact(hidden_bit(), k + 1);
        }
    } else {
        lemma_fundamental_div_mod_converse(a as int, 1, a as int, 0);
    }
}

} // verus!
