//! What a binary32 bit pattern stands for, and the laws that tie the
//! conversions to it.
//!
//! Every finite binary32 value is a whole multiple of 2^-149. The value of a
//! pattern is given here as that multiple, which keeps the laws within the
//! integers.

use crate::single::{
    log2_floor, magnitude_pattern, round_half_even, single_of_half, single_of_int,
};
use vstd::arithmetic::power2::*;
use vstd::prelude::*;

verus! {

/// The biased exponent of a pattern.
pub open spec fn exponent_field(bits: int) -> int {
    (bits / 0x80_0000) % 0x100
}

/// The fraction of a pattern.
pub open spec fn fraction_field(bits: int) -> int {
    bits % 0x80_0000
}

/// The pattern has its sign bit set.
pub open spec fn is_negative(bits: int) -> bool {
    bits >= 0x8000_0000
}

/// The pattern without its sign bit.
pub open spec fn magnitude_of(bits: int) -> int {
    bits % 0x8000_0000
}

/// The pattern stands for a number, not for an infinity or a NaN.
pub open spec fn is_finite(bits: int) -> bool {
    exponent_field(bits) != 0xff
}

/// The pattern stands for an infinity.
pub open spec fn is_infinite(bits: int) -> bool {
    exponent_field(bits) == 0xff && fraction_field(bits) == 0
}

/// The pattern stands for a NaN.
pub open spec fn is_nan(bits: int) -> bool {
    exponent_field(bits) == 0xff && fraction_field(bits) != 0
}

/// The absolute value that a finite pattern stands for, as a multiple of
/// 2^-149.
///
/// With exponent field 0 the value is the fraction times 2^-149; otherwise
/// it is the fraction with the implied leading bit, times 2 to the exponent
/// field less 150.
pub open spec fn units(bits: int) -> int {
    let e = exponent_field(bits);
    let f = fraction_field(bits);
    if e == 0 {
        f
    } else {
        (0x80_0000 + f) * pow2((e - 1) as nat)
    }
}

/// The fields of a pattern put together from an exponent and a fraction.
proof fn lemma_fields(exponent: int, fraction: int)
    requires
        0 <= exponent < 0x100,
        0 <= fraction < 0x80_0000,
    ensures
        exponent_field(exponent * 0x80_0000 + fraction) == exponent,
        fraction_field(exponent * 0x80_0000 + fraction) == fraction,
        0 <= exponent * 0x80_0000 + fraction < 0x8000_0000,
{
}

/// The value of a pattern put together from an exponent and a 24-bit
/// significand, which may have been rounded up to 2^24.
proof fn lemma_units_of_parts(exponent: int, significand: int)
    requires
        1 <= exponent < 0xfe,
        0x80_0000 <= significand <= 0x100_0000,
    ensures
        is_finite(exponent * 0x80_0000 + (significand - 0x80_0000)),
        0 <= exponent * 0x80_0000 + (significand - 0x80_0000) < 0x7f80_0000,
        units(exponent * 0x80_0000 + (significand - 0x80_0000)) == significand * pow2(
            (exponent - 1) as nat,
        ),
        fraction_field(exponent * 0x80_0000 + (significand - 0x80_0000)) % 2 == significand % 2,
{
    if significand < 0x100_0000 {
        lemma_fields(exponent, significand - 0x80_0000);
    } else {
        lemma_fields(exponent + 1, 0);
        lemma_pow2_unfold(exponent as nat);
        assert(0x80_0000 * (2 * pow2((exponent - 1) as nat)) == 0x100_0000 * pow2(
            (exponent - 1) as nat,
        )) by (nonlinear_arith);
    }
}

/// The next pattern stands for a greater value.
proof fn lemma_units_step(c: int)
    requires
        0 <= c,
        c + 1 < 0x7f80_0000,
    ensures
        units(c) < units(c + 1),
{
    let e = c / 0x80_0000;
    let f = c % 0x80_0000;
    lemma_fields(e, f);
    if f + 1 < 0x80_0000 {
        lemma_fields(e, f + 1);
        if e > 0 {
            lemma_pow2_pos((e - 1) as nat);
            assert((0x80_0000 + f) * pow2((e - 1) as nat) < (0x80_0000 + f + 1) * pow2(
                (e - 1) as nat,
            )) by (nonlinear_arith)
                requires
                    pow2((e - 1) as nat) > 0,
            ;
        }
    } else {
        lemma_fields(e + 1, 0);
        if e > 0 {
            lemma_pow2_pos((e - 1) as nat);
            lemma_pow2_unfold(e as nat);
            assert((0x80_0000 + f) * pow2((e - 1) as nat) < 0x80_0000 * (2 * pow2(
                (e - 1) as nat,
            ))) by (nonlinear_arith)
                requires
                    pow2((e - 1) as nat) > 0,
                    f < 0x80_0000,
            ;
        } else {
            lemma2_to64();
        }
    }
}

/// Among the finite patterns without sign, a greater pattern stands for a
/// greater value.
pub proof fn lemma_units_increase(c: int, d: int)
    requires
        0 <= c < d < 0x7f80_0000,
    ensures
        units(c) < units(d),
    decreases d - c,
{
    lemma_units_step(d - 1);
    if c < d - 1 {
        lemma_units_increase(c, d - 1);
    }
}

/// A positive number lies between the power of two at its highest set bit
/// and the next.
pub proof fn lemma_log2_floor_bounds(a: int)
    requires
        a >= 1,
    ensures
        pow2(log2_floor(a)) <= a < pow2(log2_floor(a) + 1),
    decreases a,
{
    if a == 1 {
        lemma2_to64();
    } else {
        lemma_log2_floor_bounds(a / 2);
        lemma_pow2_unfold(log2_floor(a));
        lemma_pow2_unfold(log2_floor(a) + 1);
    }
}

/// How the pattern of a positive number below 2^32 is put together: the
/// exponent field is 127 more than the position `e` of the highest set bit,
/// and the significand is the number in units of 2^(e - 23), exactly or
/// rounded.
proof fn lemma_pattern_parts(a: int) -> (parts: (int, int))
    requires
        1 <= a < 0x1_0000_0000,
    ensures
        parts.0 == log2_floor(a),
        0 <= parts.0 <= 31,
        pow2(parts.0 as nat) <= a < pow2((parts.0 + 1) as nat),
        0x80_0000 <= parts.1 <= 0x100_0000,
        magnitude_pattern(a) == (127 + parts.0) * 0x80_0000 + (parts.1 - 0x80_0000),
        parts.0 <= 23 ==> parts.1 == a * pow2((23 - parts.0) as nat),
        parts.0 > 23 ==> parts.1 == round_half_even(a, pow2((parts.0 - 23) as nat) as int),
{
    let e = log2_floor(a) as int;
    lemma_log2_floor_bounds(a);
    lemma2_to64();
    lemma2_to64_rest();
    if e > 31 {
        lemma_pow2_strictly_increases(32, e as nat);
    }
    let p = pow2(e as nat) as int;
    let q = pow2((e + 1) as nat) as int;
    if e <= 23 {
        let k = pow2((23 - e) as nat) as int;
        lemma_pow2_pos((23 - e) as nat);
        lemma_pow2_adds(e as nat, (23 - e) as nat);
        lemma_pow2_adds((e + 1) as nat, (23 - e) as nat);
        assert(p * k <= a * k < q * k) by (nonlinear_arith)
            requires
                p <= a < q,
                k > 0,
        ;
        (e, a * k)
    } else {
        let unit = pow2((e - 23) as nat) as int;
        lemma_pow2_pos((e - 23) as nat);
        lemma_pow2_adds(23, (e - 23) as nat);
        lemma_pow2_adds(24, (e - 23) as nat);
        let kept = a / unit;
        assert(0x80_0000 <= kept < 0x100_0000) by (nonlinear_arith)
            requires
                0x80_0000 * unit <= a < 0x100_0000 * unit,
                unit > 0,
                kept == a / unit,
        ;
        (e, round_half_even(a, unit))
    }
}

/// An integer of at most 24 bits is converted without error: the pattern
/// of `a` stands for `a`.
pub proof fn lemma_small_integers_are_exact(a: int)
    requires
        1 <= a <= 0x100_0000,
    ensures
        is_finite(magnitude_pattern(a)),
        !is_negative(magnitude_pattern(a)),
        units(magnitude_pattern(a)) == a * pow2(149),
{
    let (e, significand) = lemma_pattern_parts(a);
    lemma2_to64();
    if e >= 24 {
        if e > 24 {
            lemma_pow2_strictly_increases(24, e as nat);
        }
        // Only 2^24 itself has its highest bit that high.
        let unit = pow2((e - 23) as nat) as int;
        assert(e == 24);
        assert(unit == 2);
    }
    lemma_units_of_parts(127 + e, significand);
    let scale = pow2((126 + e) as nat) as int;
    if e <= 23 {
        let k = pow2((23 - e) as nat) as int;
        lemma_pow2_adds((23 - e) as nat, (126 + e) as nat);
        assert((a * k) * scale == a * (k * scale)) by (nonlinear_arith);
    } else {
        lemma_pow2_adds(1, 149);
        assert(significand * 2 == a);
        assert(significand * scale == a * pow2(149)) by (nonlinear_arith)
            requires
                significand * 2 == a,
                scale == 2 * pow2(149),
        ;
    }
}

/// How far the value of a finite pattern without sign lies from the
/// integer `a`, as a multiple of 2^-149.
pub open spec fn distance(bits: int, a: int) -> int {
    let d = units(bits) - a * pow2(149);
    if d < 0 {
        -d
    } else {
        d
    }
}

/// The pattern of a positive number below 2^32 stands for the binary32
/// value nearest to it: no finite pattern `c` stands for a nearer value, and
/// where another stands for one just as near, the pattern chosen has an
/// even fraction.
pub proof fn lemma_nearest_value(a: int, c: int)
    requires
        1 <= a < 0x1_0000_0000,
        0 <= c < 0x7f80_0000,
    ensures
        0 <= magnitude_pattern(a) < 0x7f80_0000,
        distance(magnitude_pattern(a), a) <= distance(c, a),
        distance(magnitude_pattern(a), a) == distance(c, a) && c != magnitude_pattern(a)
            ==> fraction_field(magnitude_pattern(a)) % 2 == 0,
{
    let b = magnitude_pattern(a);
    let (e, significand) = lemma_pattern_parts(a);
    lemma_units_of_parts(127 + e, significand);
    if e <= 23 {
        lemma2_to64();
        // The conversion is exact, and no other pattern has the same value.
        let k = pow2((23 - e) as nat) as int;
        let scale = pow2((126 + e) as nat) as int;
        lemma_pow2_adds((23 - e) as nat, (126 + e) as nat);
        assert((a * k) * scale == a * (k * scale)) by (nonlinear_arith);
        assert(distance(b, a) == 0);
        if c < b {
            lemma_units_increase(c, b);
        }
        if b < c {
            lemma_units_increase(b, c);
        }
    } else {
        let unit = pow2((e - 23) as nat) as int;
        let whole = pow2(149) as int;
        let scale = pow2((126 + e) as nat) as int;
        lemma_pow2_pos((e - 23) as nat);
        lemma_pow2_pos(149);
        lemma_pow2_adds((e - 23) as nat, 149);
        lemma_pow2_adds(23, (e - 23) as nat);
        lemma_pow2_adds(24, (e - 23) as nat);
        lemma2_to64();
        let kept = a / unit;
        let rest = a % unit;
        assert(a == kept * unit + rest && 0 <= rest < unit) by (nonlinear_arith)
            requires
                unit > 0,
                kept == a / unit,
                rest == a % unit,
        ;
        assert(0x80_0000 <= kept < 0x100_0000) by (nonlinear_arith)
            requires
                0x80_0000 * unit <= a < 0x100_0000 * unit,
                a == kept * unit + rest,
                0 <= rest < unit,
        ;
        let lo = (127 + e) * 0x80_0000 + (kept - 0x80_0000);
        let hi = lo + 1;
        lemma_units_of_parts(127 + e, kept);
        lemma_units_of_parts(127 + e, kept + 1);
        assert(units(lo) == a * whole - rest * whole) by (nonlinear_arith)
            requires
                units(lo) == kept * scale,
                scale == unit * whole,
                a == kept * unit + rest,
        ;
        assert(units(hi) == a * whole + (unit - rest) * whole) by (nonlinear_arith)
            requires
                units(hi) == (kept + 1) * scale,
                scale == unit * whole,
                a == kept * unit + rest,
        ;
        assert(rest * whole >= 0 && (unit - rest) * whole > 0) by (nonlinear_arith)
            requires
                0 <= rest < unit,
                whole > 0,
        ;
        assert(2 * rest > unit ==> rest * whole > (unit - rest) * whole) by (nonlinear_arith)
            requires
                whole > 0,
        ;
        assert(2 * rest < unit ==> rest * whole < (unit - rest) * whole) by (nonlinear_arith)
            requires
                whole > 0,
        ;
        assert(2 * rest == unit ==> rest * whole == (unit - rest) * whole) by (nonlinear_arith);
        assert(b == lo || b == hi);
        if c < lo {
            lemma_units_increase(c, lo);
        }
        if hi < c {
            lemma_units_increase(hi, c);
        }
    }
}

/// The pattern of an integer has the integer's sign and the pattern of its
/// absolute value; zero has the pattern of positive zero.
pub proof fn lemma_sign_and_magnitude(v: int)
    requires
        -0x1_0000_0000 < v < 0x1_0000_0000,
    ensures
        v == 0 ==> single_of_int(v) == 0,
        v > 0 ==> !is_negative(single_of_int(v)) && magnitude_of(single_of_int(v))
            == magnitude_pattern(v),
        v < 0 ==> is_negative(single_of_int(v)) && magnitude_of(single_of_int(v))
            == magnitude_pattern(-v),
        0 <= single_of_int(v) < 0x1_0000_0000,
        is_finite(single_of_int(v)),
{
    if v > 0 {
        let (e, significand) = lemma_pattern_parts(v);
        lemma_units_of_parts(127 + e, significand);
    }
    if v < 0 {
        let (e, significand) = lemma_pattern_parts(-v);
        lemma_units_of_parts(127 + e, significand);
    }
}

/// The biased exponent of a binary16 pattern.
pub open spec fn half_exponent_field(h: int) -> int {
    (h / 0x400) % 0x20
}

/// The fraction of a binary16 pattern.
pub open spec fn half_fraction_field(h: int) -> int {
    h % 0x400
}

/// The absolute value that a finite binary16 pattern stands for, as a
/// multiple of 2^-24.
pub open spec fn half_units(h: int) -> int {
    let e = half_exponent_field(h);
    let f = half_fraction_field(h);
    if e == 0 {
        f
    } else {
        (0x400 + f) * pow2((e - 1) as nat)
    }
}

/// Widening keeps what a binary16 pattern stands for: the sign always, the
/// value of a number exactly, an infinity as an infinity and a NaN as a
/// NaN.
pub proof fn lemma_widening_keeps_the_value(h: int)
    requires
        0 <= h < 0x1_0000,
    ensures
        0 <= single_of_half(h) < 0x1_0000_0000,
        is_negative(single_of_half(h)) == (h >= 0x8000),
        half_exponent_field(h) != 0x1f ==> is_finite(single_of_half(h)) && units(
            single_of_half(h),
        ) == half_units(h) * pow2(125),
        half_exponent_field(h) == 0x1f && half_fraction_field(h) == 0 ==> is_infinite(
            single_of_half(h),
        ),
        half_exponent_field(h) == 0x1f && half_fraction_field(h) != 0 ==> is_nan(single_of_half(h)),
{
    let e = half_exponent_field(h);
    let f = half_fraction_field(h);
    let b = single_of_half(h);
    let m = if h >= 0x8000 {
        b - 0x8000_0000
    } else {
        b
    };
    lemma2_to64();
    assert(0 <= m < 0x8000_0000 ==> exponent_field(b) == exponent_field(m) && fraction_field(b)
        == fraction_field(m));
    if e == 0x1f {
        if f == 0 {
            lemma_fields(0xff, 0);
        } else {
            lemma_fields(0xff, 0x40_0000 + (f % 0x200) * 0x2000);
        }
    } else if e > 0 {
        lemma_fields(e + 112, f * 0x2000);
        assert(m == (e + 112) * 0x80_0000 + f * 0x2000);
        let scale = pow2((e + 111) as nat) as int;
        let low = pow2((e - 1) as nat) as int;
        let whole = pow2(125) as int;
        lemma_pow2_adds(13, (e + 111) as nat);
        lemma_pow2_adds((e - 1) as nat, 125);
        assert(0x2000 * scale == low * whole);
        assert(units(b) == (0x80_0000 + f * 0x2000) * scale);
        assert((0x80_0000 + f * 0x2000) * scale == ((0x400 + f) * low) * whole)
            by (nonlinear_arith)
            requires
                0x2000 * scale == low * whole,
        ;
    } else if f == 0 {
        lemma_fields(0, 0);
        assert(half_units(h) * pow2(125) == 0) by (nonlinear_arith)
            requires
                half_units(h) == 0,
        ;
    } else {
        let k = log2_floor(f) as int;
        lemma_log2_floor_bounds(f);
        if k > 10 {
            lemma_pow2_strictly_increases(10, k as nat);
        }
        let lift = pow2((23 - k) as nat) as int;
        let scale = pow2((102 + k) as nat) as int;
        let whole = pow2(125) as int;
        lemma_pow2_pos((23 - k) as nat);
        lemma_pow2_adds(k as nat, (23 - k) as nat);
        lemma_pow2_adds((k + 1) as nat, (23 - k) as nat);
        assert(pow2(k as nat) * lift <= f * lift < pow2((k + 1) as nat) * lift)
            by (nonlinear_arith)
            requires
                pow2(k as nat) <= f < pow2((k + 1) as nat),
                lift > 0,
        ;
        lemma_units_of_parts(103 + k, f * lift);
        assert(m == (103 + k) * 0x80_0000 + (f * lift - 0x80_0000));
        lemma_pow2_adds((23 - k) as nat, (102 + k) as nat);
        assert(lift * scale == whole);
        assert(units(b) == (f * lift) * scale);
        assert((f * lift) * scale == f * whole) by (nonlinear_arith)
            requires
                lift * scale == whole,
        ;
    }
}

} // verus!
