//! 32-bit and 16-bit floats by their IEEE 754 bit patterns.
//!
//! The library never computes with floats: it reads them out of a file, orders
//! them and hands them on, and all three can be said of the bits.

use vstd::arithmetic::div_mod::*;
use vstd::arithmetic::mul::*;
use vstd::arithmetic::power2::*;
use vstd::prelude::*;

verus! {

/// The bit that carries the sign of a 32-bit float.
pub const SIGN_BIT: u32 = 0x8000_0000;

/// The bits of negative infinity.
pub const NEG_INFINITY: u32 = 0xFF80_0000;

/// The bits of the float, without the sign.
pub open spec fn f32_magnitude(bits: u32) -> int {
    (bits as int) % 0x8000_0000
}

/// The sign bit is set.
pub open spec fn f32_negative(bits: u32) -> bool {
    bits >= 0x8000_0000
}

/// The float is no number.
pub open spec fn f32_nan(bits: u32) -> bool {
    f32_magnitude(bits) > 0x7F80_0000
}

/// The float is neither infinite nor no number.
pub open spec fn f32_finite(bits: u32) -> bool {
    f32_magnitude(bits) < 0x7F80_0000
}

/// The exponent field.
pub open spec fn f32_exponent(bits: u32) -> int {
    f32_magnitude(bits) / 0x80_0000
}

/// The mantissa field.
pub open spec fn f32_mantissa(bits: u32) -> int {
    f32_magnitude(bits) % 0x80_0000
}

/// The absolute value of a finite float, times two to the 149.
pub open spec fn f32_abs_scaled(bits: u32) -> int {
    if f32_exponent(bits) == 0 {
        f32_mantissa(bits)
    } else {
        (0x80_0000 + f32_mantissa(bits)) * pow2((f32_exponent(bits) - 1) as nat)
    }
}

/// The value of a finite float, times two to the 149.
pub open spec fn f32_scaled(bits: u32) -> int {
    if f32_negative(bits) {
        -f32_abs_scaled(bits)
    } else {
        f32_abs_scaled(bits)
    }
}

/// An integer that orders the floats that are numbers as their values are
/// ordered. Both zeros have the key zero.
pub open spec fn f32_key(bits: u32) -> int {
    if f32_negative(bits) {
        -f32_magnitude(bits)
    } else {
        f32_magnitude(bits)
    }
}

/// An integer that orders all floats by the total order of IEEE 754: negative
/// before positive, by magnitude, with the zeros told apart and the patterns
/// that are no number at both ends.
pub open spec fn f32_total_key(bits: u32) -> int {
    if f32_negative(bits) {
        -1 - f32_magnitude(bits)
    } else {
        f32_magnitude(bits)
    }
}

/// `a > b` for floats: false where either is no number.
pub open spec fn f32_greater(a: u32, b: u32) -> bool {
    !f32_nan(a) && !f32_nan(b) && f32_key(a) > f32_key(b)
}

fn key(bits: u32) -> (k: i64)
    ensures
        k == f32_key(bits),
{
    if bits >= SIGN_BIT {
        -((bits - SIGN_BIT) as i64)
    } else {
        bits as i64
    }
}

/// Whether the float is no number.
pub fn f32_is_nan(bits: u32) -> (r: bool)
    ensures
        r == f32_nan(bits),
{
    let magnitude: u32 = if bits >= SIGN_BIT {
        bits - SIGN_BIT
    } else {
        bits
    };
    magnitude > 0x7F80_0000
}

/// `a > b` for floats.
pub fn f32_gt(a: u32, b: u32) -> (r: bool)
    ensures
        r == f32_greater(a, b),
{
    !f32_is_nan(a) && !f32_is_nan(b) && key(a) > key(b)
}

/// The place of a float in the total order.
pub fn total_key(bits: u32) -> (k: i64)
    ensures
        k == f32_total_key(bits),
{
    if bits >= SIGN_BIT {
        -1 - ((bits - SIGN_BIT) as i64)
    } else {
        bits as i64
    }
}

proof fn lemma_abs_monotone(a: u32, b: u32)
    requires
        f32_magnitude(a) < f32_magnitude(b),
    ensures
        f32_abs_scaled(a) < f32_abs_scaled(b),
{
    let ea = f32_exponent(a);
    let eb = f32_exponent(b);
    let ma = f32_mantissa(a);
    let mb = f32_mantissa(b);
    assert(f32_magnitude(a) == ea * 0x80_0000 + ma);
    assert(f32_magnitude(b) == eb * 0x80_0000 + mb);
    assert(ea <= eb);
    lemma2_to64();
    if eb > 0 {
        lemma_pow2_pos((eb - 1) as nat);
    }
    if ea == eb {
        if ea > 0 {
            lemma_mul_strict_inequality(
                0x80_0000 + ma,
                0x80_0000 + mb,
                pow2((ea - 1) as nat) as int,
            );
        }
    } else {
        let p = pow2((eb - 1) as nat) as int;
        lemma_mul_inequality(0x80_0000, 0x80_0000 + mb, p);
        if ea == 0 {
            lemma_mul_inequality(1, p, 0x80_0000);
            lemma_mul_is_commutative(p, 0x80_0000);
        } else {
            let q = pow2((ea - 1) as nat) as int;
            lemma_pow2_pos((ea - 1) as nat);
            if ea < eb - 1 {
                lemma_pow2_strictly_increases(ea as nat, (eb - 1) as nat);
            }
            lemma_pow2_unfold(ea as nat);
            assert(2 * q <= p);
            lemma_mul_strict_inequality(0x80_0000 + ma, 0x100_0000, q);
            assert(0x100_0000 * q == 0x80_0000 * (2 * q)) by (nonlinear_arith);
            lemma_mul_inequality(2 * q, p, 0x80_0000);
            lemma_mul_is_commutative(2 * q, 0x80_0000);
            lemma_mul_is_commutative(p, 0x80_0000);
        }
    }
}

/// Comparing keys compares values: of two finite floats the one with the
/// larger key is the larger number, and equal keys mean equal numbers.
pub proof fn law_key_orders_by_value(a: u32, b: u32)
    requires
        f32_finite(a),
        f32_finite(b),
    ensures
        f32_key(a) < f32_key(b) <==> f32_scaled(a) < f32_scaled(b),
        f32_key(a) == f32_key(b) <==> f32_scaled(a) == f32_scaled(b),
{
    lemma_abs_zero(a);
    lemma_abs_zero(b);
    if f32_magnitude(a) < f32_magnitude(b) {
        lemma_abs_monotone(a, b);
    } else if f32_magnitude(b) < f32_magnitude(a) {
        lemma_abs_monotone(b, a);
    }
}

proof fn lemma_abs_zero(a: u32)
    ensures
        f32_abs_scaled(a) >= 0,
        f32_abs_scaled(a) == 0 <==> f32_magnitude(a) == 0,
{
    if f32_magnitude(a) > 0 {
        assert(f32_magnitude(0) == 0);
        lemma_abs_monotone(0, a);
    }
}

/// The exponent field of a 16-bit float.
pub open spec fn f16_exponent(bits: u16) -> int {
    (bits as int % 0x8000) / 0x400
}

/// The mantissa field of a 16-bit float.
pub open spec fn f16_mantissa(bits: u16) -> int {
    bits as int % 0x400
}

/// The absolute value of a finite 16-bit float, times two to the 24.
pub open spec fn f16_abs_scaled(bits: u16) -> int {
    if f16_exponent(bits) == 0 {
        f16_mantissa(bits)
    } else {
        (0x400 + f16_mantissa(bits)) * pow2((f16_exponent(bits) - 1) as nat)
    }
}

/// `r` is the 32-bit float that the 16-bit float `bits` stands for: the sign is
/// kept, a finite float keeps its value, an infinity stays one and a pattern
/// that is no number keeps its payload.
pub open spec fn is_f16_value(r: u32, bits: u16) -> bool {
    &&& f32_negative(r) == (bits >= 0x8000)
    &&& f16_exponent(bits) < 31 ==> f32_finite(r) && f32_abs_scaled(r) == f16_abs_scaled(bits)
        * pow2(125)
    &&& f16_exponent(bits) == 31 ==> f32_exponent(r) == 255 && f32_mantissa(r) == f16_mantissa(bits)
        * 0x2000
}

/// A 16-bit float stands for one 32-bit float only.
pub proof fn law_f16_value_is_unique(a: u32, b: u32, bits: u16)
    requires
        is_f16_value(a, bits),
        is_f16_value(b, bits),
    ensures
        a == b,
{
    if f16_exponent(bits) < 31 {
        if f32_magnitude(a) < f32_magnitude(b) {
            lemma_abs_monotone(a, b);
        } else if f32_magnitude(b) < f32_magnitude(a) {
            lemma_abs_monotone(b, a);
        }
    }
}

/// The 32-bit float that a 16-bit float stands for.
pub open spec fn f16_value(bits: u16) -> u32 {
    choose|r: u32| is_f16_value(r, bits)
}

/// The 32-bit float that a 16-bit float stands for.
///
/// The sign is kept. A finite float keeps its value, subnormal ones included;
/// an infinity stays one and a pattern that is no number keeps its payload.
pub fn f16_to_f32(bits: u16) -> (r: u32)
    ensures
        is_f16_value(r, bits),
        r == f16_value(bits),
{
    let r: u32 = widen(bits);
    proof {
        law_f16_value_is_unique(r, f16_value(bits), bits);
    }
    r
}

fn widen(bits: u16) -> (r: u32)
    ensures
        is_f16_value(r, bits),
{
    let sign: u32 = if bits >= 0x8000 {
        SIGN_BIT
    } else {
        0
    };
    let exp: u32 = ((bits % 0x8000) / 0x400) as u32;
    let mant: u32 = (bits % 0x400) as u32;
    assert(bits as int % 0x400 == mant);
    if exp == 31 {
        return sign + 0x7F80_0000 + mant * 0x2000;
    }
    if exp > 0 {
        let r: u32 = sign + (exp + 112) * 0x80_0000 + mant * 0x2000;
        proof {
            lemma_fields(r, sign, exp + 112, mant * 0x2000);
            lemma_pow2_adds((exp - 1) as nat, 125);
            lemma_pow2_adds((exp + 111) as nat, 13);
            lemma2_to64();
            let p = pow2((exp + 111) as nat) as int;
            assert(pow2((exp + 124) as nat) == p * 0x2000);
            assert((0x80_0000 + mant * 0x2000) * p == (0x400 + mant) * (p * 0x2000))
                by (nonlinear_arith);
            let q = pow2((exp - 1) as nat) as int;
            let t = pow2(125) as int;
            assert((0x400 + mant) * (q * t) == ((0x400 + mant) * q) * t) by (nonlinear_arith);
        }
        return r;
    }
    if mant == 0 {
        proof {
            lemma_fields(sign, sign, 0, 0);
            assert(0 * pow2(125) == 0);
        }
        return sign;
    }
    let mut m: u32 = mant;
    let mut e: u32 = 113;
    proof {
        lemma2_to64();
        assert(pow2((113 - e) as nat) == 1);
    }
    while m < 0x400
        invariant
            0 < m < 0x800,
            0 < mant < 0x400,
            m * pow2(e as nat) == mant * pow2(113),
            m == mant * pow2((113 - e) as nat),
            103 <= e <= 113,
            e == 103 ==> m >= 0x400,
        decreases e,
    {
        proof {
            let p = pow2((e - 1) as nat) as int;
            lemma_pow2_unfold(e as nat);
            assert(m * (2 * p) == (m * 2) * p) by (nonlinear_arith);
            let q = pow2((113 - e) as nat) as int;
            lemma_pow2_unfold((114 - e) as nat);
            assert((mant * q) * 2 == mant * (2 * q)) by (nonlinear_arith);
            lemma2_to64();
            if e == 104 {
                assert(pow2(10) == 0x400);
                assert(mant * 0x400 >= 0x400) by (nonlinear_arith)
                    requires
                        mant >= 1,
                ;
            }
        }
        m = m * 2;
        e = e - 1;
    }
    let r: u32 = sign + e * 0x80_0000 + (m - 0x400) * 0x2000;
    proof {
        lemma_fields(r, sign, e as int, (m - 0x400) * 0x2000);
        let p = pow2((e - 1) as nat) as int;
        lemma_pow2_unfold(e as nat);
        lemma_pow2_adds(113, 12);
        lemma2_to64();
        assert((0x80_0000 + (m - 0x400) * 0x2000) * p == (m * (2 * p)) * 0x1000) by (nonlinear_arith);
        let t = pow2(113) as int;
        assert((mant * t) * 0x1000 == mant * (t * 0x1000)) by (nonlinear_arith);
    }
    r
}

proof fn lemma_fields(r: u32, sign: u32, e: int, m: int)
    requires
        sign == 0 || sign == SIGN_BIT,
        0 <= e < 255,
        0 <= m < 0x80_0000,
        r == sign + e * 0x80_0000 + m,
    ensures
        f32_negative(r) == (sign != 0),
        f32_finite(r),
        f32_exponent(r) == e,
        f32_mantissa(r) == m,
{
}


/// A float cut to an unsigned byte: its whole part, kept within 0 and 255. What
/// is no number becomes 0.
pub open spec fn f32_as_u8(bits: u32) -> int {
    if f32_nan(bits) || f32_negative(bits) {
        0
    } else if !f32_finite(bits) {
        255
    } else {
        let whole = f32_abs_scaled(bits) / (pow2(149) as int);
        if whole > 255 {
            255
        } else {
            whole
        }
    }
}

proof fn lemma_whole_part(e: int, m: int)
    requires
        0 <= m < 0x80_0000,
        1 <= e <= 149,
    ensures
        ((0x80_0000 + m) * pow2((e - 1) as nat)) / (pow2(149) as int) == (0x80_0000 + m) / (pow2(
            (150 - e) as nat,
        ) as int),
{
    let x = pow2((e - 1) as nat) as int;
    let d = pow2((150 - e) as nat) as int;
    lemma_pow2_pos((e - 1) as nat);
    lemma_pow2_pos((150 - e) as nat);
    lemma_pow2_adds((e - 1) as nat, (150 - e) as nat);
    lemma_div_multiples_vanish_quotient(x, 0x80_0000 + m, d);
    lemma_mul_is_commutative(x, 0x80_0000 + m);
}

/// Cut a float to an unsigned byte.
pub fn f32_to_u8(bits: u32) -> (r: u8)
    ensures
        r == f32_as_u8(bits),
{
    if f32_is_nan(bits) || bits >= SIGN_BIT {
        return 0;
    }
    if bits >= 0x7F80_0000 {
        return 255;
    }
    let e: u32 = bits / 0x80_0000;
    let m: u32 = bits % 0x80_0000;
    proof {
        lemma_fields(bits, 0, e as int, m as int);
        lemma2_to64();
        lemma_pow2_pos(149);
    }
    if e < 127 {
        proof {
            if e == 0 {
                lemma_pow2_strictly_increases(24, 149);
                lemma_basic_div(m as int, pow2(149) as int);
            } else {
                lemma_whole_part(e as int, m as int);
                if e < 126 {
                    lemma_pow2_strictly_increases(24, (150 - e) as nat);
                }
                lemma_basic_div(0x80_0000 + m, pow2((150 - e) as nat) as int);
            }
        }
        return 0;
    }
    if e >= 135 {
        proof {
            lemma_abs_big(e as int, m as int);
        }
        return 255;
    }
    let mut d: u32 = 0x80_0000;
    let mut x: u32 = 127;
    while x < e
        invariant
            127 <= x <= e < 135,
            d == pow2((150 - x) as nat),
            d >= 0x1_0000,
        decreases e - x,
    {
        proof {
            lemma_pow2_unfold((150 - x) as nat);
            lemma2_to64();
            if 149 - x > 16 {
                lemma_pow2_strictly_increases(16, (149 - x) as nat);
            }
        }
        d = d / 2;
        x = x + 1;
    }
    proof {
        lemma_whole_part(e as int, m as int);
        assert((0x80_0000 + m) / (d as int) <= 255) by (nonlinear_arith)
            requires
                0 <= m < 0x80_0000,
                d >= 0x1_0000,
        ;
    }
    ((0x80_0000 + m) / d) as u8
}

proof fn lemma_abs_big(e: int, m: int)
    requires
        135 <= e,
        0 <= m < 0x80_0000,
    ensures
        ((0x80_0000 + m) * pow2((e - 1) as nat)) / (pow2(149) as int) >= 256,
{
    let p = pow2((e - 1) as nat) as int;
    let t = pow2(149) as int;
    let q = pow2(134) as int;
    lemma_pow2_pos(149);
    if e > 135 {
        lemma_pow2_strictly_increases(134, (e - 1) as nat);
    }
    lemma_pow2_adds(23, 134);
    lemma_pow2_adds(8, 149);
    lemma2_to64();
    assert(0x80_0000 * q == 256 * t);
    assert((0x80_0000 + m) * p >= 0x80_0000 * q) by (nonlinear_arith)
        requires
            0 <= m,
            p >= q,
            q >= 0,
    ;
    lemma_div_is_ordered(256 * t, (0x80_0000 + m) * p, t);
    lemma_div_by_multiple(256, t);
}

} // verus!
