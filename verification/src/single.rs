//! IEEE 754 binary32 bit patterns of integers and of binary16 values.
//!
//! A pattern is a `u32`: the sign in bit 31, the biased exponent in bits 23
//! to 30, the fraction in bits 0 to 22.

use vstd::arithmetic::power2::*;
use vstd::bits::*;
use vstd::prelude::*;
use vstd::std_specs::bits::*;

verus! {

/// The position of the highest set bit of `a`, for `a` at least 1.
pub open spec fn log2_floor(a: int) -> nat
    decreases a,
{
    if a <= 1 {
        0
    } else {
        1 + log2_floor(a / 2)
    }
}

/// The quotient `a / unit` rounded to the nearest integer, a tie going to
/// the even neighbour.
pub open spec fn round_half_even(a: int, unit: int) -> int {
    let kept = a / unit;
    let rest = a % unit;
    if 2 * rest > unit || (2 * rest == unit && kept % 2 == 1) {
        kept + 1
    } else {
        kept
    }
}

/// The pattern of the binary32 value nearest to the positive integer `a`.
///
/// With `e` the position of the highest set bit, `a` is scaled to a 24-bit
/// significand: exactly where `e` is at most 23, and rounded to nearest,
/// ties to even, above that. The leading bit of the significand is implied,
/// and a significand that rounds up to 2^24 carries into the exponent.
pub open spec fn magnitude_pattern(a: int) -> int {
    let e = log2_floor(a);
    let significand = if e <= 23 {
        a * pow2((23 - e) as nat)
    } else {
        round_half_even(a, pow2((e - 23) as nat) as int)
    };
    (127 + e) * 0x80_0000 + (significand - 0x80_0000)
}

/// The pattern of the binary32 value nearest to the integer `v`.
pub open spec fn single_of_int(v: int) -> int {
    if v == 0 {
        0
    } else if v > 0 {
        magnitude_pattern(v)
    } else {
        0x8000_0000 + magnitude_pattern(-v)
    }
}

/// A number between two consecutive powers of two has its highest set bit
/// at the lower one's exponent.
pub proof fn lemma_log2_floor_between(a: int, e: nat)
    requires
        pow2(e) <= a < pow2(e + 1),
    ensures
        log2_floor(a) == e,
    decreases e,
{
    lemma_pow2_unfold(e + 1);
    if e == 0 {
        lemma2_to64();
    } else {
        lemma_pow2_unfold(e);
        lemma_log2_floor_between(a / 2, (e - 1) as nat);
    }
}

/// The highest set bit of a nonzero `a`, from its count of leading zeros.
proof fn lemma_highest_bit(a: u32, e: u32)
    requires
        a > 0,
        e == 31 - u32_leading_zeros(a),
    ensures
        e <= 31,
        pow2(e as nat) <= a < pow2((e + 1) as nat),
        log2_floor(a as int) == e,
{
    axiom_u32_leading_zeros(a);
    let lz = u32_leading_zeros(a);
    assert(e == (31u32 - lz) as u32);
    let top = a >> e;
    assert(top & 1u32 != 0u32);
    assert(top != 0) by (bit_vector)
        requires
            top & 1u32 != 0u32,
    ;
    lemma_u32_shr_is_div(a, e);
    lemma_pow2_pos(e as nat);
    let p = pow2(e as nat) as int;
    assert(a as int >= p) by (nonlinear_arith)
        requires
            (a as int) / p >= 1,
            p > 0,
    ;
    lemma_pow2_unfold((e + 1) as nat);
    if e < 31 {
        let above: u32 = (e + 1) as u32;
        assert(above == (32u32 - lz) as u32);
        assert(a >> above == 0);
        lemma_u32_shr_is_div(a, above);
        let q = pow2(above as nat) as int;
        assert((a as int) < q) by (nonlinear_arith)
            requires
                (a as int) / q == 0,
                q > 0,
                a >= 0,
        ;
    } else {
        lemma2_to64();
        lemma2_to64_rest();
    }
    lemma_log2_floor_between(a as int, e as nat);
}

/// The pattern of the binary32 value nearest to `a`.
pub fn single_from_magnitude(a: u32) -> (bits: u32)
    ensures
        bits == single_of_int(a as int),
        bits < 0x8000_0000,
{
    if a == 0 {
        return 0;
    }
    let e: u32 = 31 - a.leading_zeros();
    proof {
        axiom_u32_leading_zeros(a);
        lemma_highest_bit(a, e);
        lemma2_to64();
    }
    let significand: u32 = if e <= 23 {
        let shift: u32 = 23 - e;
        let scale: u32 = 1u32 << shift;
        proof {
            lemma_u32_pow2_no_overflow(shift as nat);
            lemma_u32_shl_is_mul(1u32, shift);
            lemma_pow2_adds(e as nat, shift as nat);
            lemma_pow2_adds((e + 1) as nat, shift as nat);
            let p = pow2(e as nat) as int;
            let q = pow2((e + 1) as nat) as int;
            let s = pow2(shift as nat) as int;
            assert(p * s <= a * s < q * s) by (nonlinear_arith)
                requires
                    p <= a < q,
                    s > 0,
            ;
        }
        a * scale
    } else {
        let shift: u32 = e - 23;
        let unit: u32 = 1u32 << shift;
        proof {
            lemma_u32_pow2_no_overflow(shift as nat);
            lemma_u32_shl_is_mul(1u32, shift);
            lemma_pow2_adds(23, shift as nat);
            lemma_pow2_adds(24, shift as nat);
            let u = unit as int;
            let q = a as int / u;
            assert(0x80_0000 <= q < 0x100_0000) by (nonlinear_arith)
                requires
                    0x80_0000 * u <= a < 0x100_0000 * u,
                    u > 0,
                    q == a as int / u,
            ;
        }
        let kept: u32 = a / unit;
        let rest: u32 = a % unit;
        if 2 * rest > unit || (2 * rest == unit && kept % 2 == 1) {
            kept + 1
        } else {
            kept
        }
    };
    (127 + e) * 0x80_0000 + (significand - 0x80_0000)
}

/// The pattern of the binary32 value nearest to `v`: what a conversion of
/// `v` to binary32 yields.
pub fn single_from_int(v: i32) -> (bits: u32)
    ensures
        bits == single_of_int(v as int),
{
    if v >= 0 {
        single_from_magnitude(v as u32)
    } else {
        let a: u32 = (-(v as i64)) as u32;
        0x8000_0000 + single_from_magnitude(a)
    }
}

/// The pattern of the binary32 value equal to the binary16 value whose
/// pattern is `h`.
///
/// Zero and infinity keep their sign. A NaN keeps its sign and the low nine
/// bits of its payload, and comes out quiet. A subnormal, which stands for
/// `fraction` times 2^-24, is normal in binary32.
pub open spec fn single_of_half(h: int) -> int {
    let sign: int = if h >= 0x8000 {
        0x8000_0000
    } else {
        0
    };
    let exponent = (h / 0x400) % 0x20;
    let fraction = h % 0x400;
    if exponent == 0x1f {
        if fraction == 0 {
            sign + 0x7f80_0000
        } else {
            sign + 0x7fc0_0000 + (fraction % 0x200) * 0x2000
        }
    } else if exponent > 0 {
        sign + (exponent + 112) * 0x80_0000 + fraction * 0x2000
    } else if fraction == 0 {
        sign
    } else {
        let e = log2_floor(fraction);
        sign + (103 + e) * 0x80_0000 + (fraction * pow2((23 - e) as nat) - 0x80_0000)
    }
}

/// Widens the binary16 value whose pattern is `h` to binary32.
pub fn single_from_half(h: u16) -> (bits: u32)
    ensures
        bits == single_of_half(h as int),
{
    let sign: u32 = if h >= 0x8000 {
        0x8000_0000
    } else {
        0
    };
    let exponent: u32 = ((h / 0x400) % 0x20) as u32;
    let fraction: u32 = (h % 0x400) as u32;
    if exponent == 0x1f {
        if fraction == 0 {
            sign + 0x7f80_0000
        } else {
            sign + 0x7fc0_0000 + (fraction % 0x200) * 0x2000
        }
    } else if exponent > 0 {
        sign + (exponent + 112) * 0x80_0000 + fraction * 0x2000
    } else if fraction == 0 {
        sign
    } else {
        let e: u32 = 31 - fraction.leading_zeros();
        proof {
            axiom_u32_leading_zeros(fraction);
            lemma_highest_bit(fraction, e);
            lemma2_to64();
            if e >= 10 {
                lemma_pow2_strictly_increases(10, (e + 1) as nat);
                lemma_pow2_unfold((e + 1) as nat);
            }
        }
        let shift: u32 = 23 - e;
        let scale: u32 = 1u32 << shift;
        proof {
            lemma_u32_pow2_no_overflow(shift as nat);
            lemma_u32_shl_is_mul(1u32, shift);
            lemma_pow2_adds(e as nat, shift as nat);
            lemma_pow2_adds((e + 1) as nat, shift as nat);
            let p = pow2(e as nat) as int;
            let q = pow2((e + 1) as nat) as int;
            let s = pow2(shift as nat) as int;
            assert(p * s <= fraction * s < q * s) by (nonlinear_arith)
                requires
                    p <= fraction < q,
                    s > 0,
            ;
        }
        sign + (103 + e) * 0x80_0000 + (fraction * scale - 0x80_0000)
    }
}

} // verus!
