use mrc_volume::single::{single_from_half, single_from_int, single_from_magnitude};

#[test]
fn small_integers_have_their_exact_patterns() {
    assert_eq!(single_from_int(0), 0);
    assert_eq!(single_from_int(1), 0x3F80_0000);
    assert_eq!(single_from_int(-1), 0xBF80_0000);
    assert_eq!(single_from_int(2), 0x4000_0000);
    assert_eq!(single_from_int(3), 0x4040_0000);
    assert_eq!(single_from_int(15), 0x4170_0000);
    assert_eq!(single_from_int(65535), 0x477F_FF00);
    assert_eq!(single_from_int(-32768), 0xC700_0000);
}

#[test]
fn integers_match_the_hardware_conversion_near_zero() {
    let mut v: i32 = -200_000;
    while v <= 200_000 {
        assert_eq!(single_from_int(v), (v as f32).to_bits(), "{}", v);
        v += 1;
    }
}

#[test]
fn integers_match_the_hardware_conversion_at_the_limits() {
    for v in [i32::MIN, i32::MIN + 1, i32::MAX, i32::MAX - 1, i32::MAX - 64, i32::MAX - 63] {
        assert_eq!(single_from_int(v), (v as f32).to_bits(), "{}", v);
    }
    assert_eq!(single_from_int(i32::MIN), 0xCF00_0000);
    assert_eq!(single_from_int(i32::MAX), 0x4F00_0000);
}

#[test]
fn integers_round_to_nearest_with_ties_to_even() {
    // 2^24 + 1 lies halfway between two neighbours and goes to the even one.
    assert_eq!(single_from_int(16_777_217), 0x4B80_0000);
    assert_eq!(f32::from_bits(single_from_int(16_777_217)), 16_777_216.0);
    // 2^24 + 3 lies halfway too, and goes up to 2^24 + 4.
    assert_eq!(single_from_int(16_777_219), 0x4B80_0002);
    assert_eq!(f32::from_bits(single_from_int(16_777_219)), 16_777_220.0);
    // Just above and just below a tie.
    assert_eq!(f32::from_bits(single_from_int(33_554_435)), 33_554_436.0);
    assert_eq!(f32::from_bits(single_from_int(33_554_433)), 33_554_432.0);
    assert_eq!(f32::from_bits(single_from_int(33_554_434)), 33_554_432.0);
    assert_eq!(f32::from_bits(single_from_int(33_554_438)), 33_554_440.0);
}

#[test]
fn integers_match_the_hardware_conversion_around_every_power_of_two() {
    let mut e = 0;
    while e < 31 {
        let p: i64 = 1 << e;
        let mut d: i64 = -300;
        while d <= 300 {
            let v = p + d;
            if v >= i32::MIN as i64 && v <= i32::MAX as i64 {
                let v = v as i32;
                assert_eq!(single_from_int(v), (v as f32).to_bits(), "{}", v);
                let w = v.wrapping_neg();
                assert_eq!(single_from_int(w), (w as f32).to_bits(), "{}", w);
            }
            d += 1;
        }
        e += 1;
    }
}

#[test]
fn integers_match_the_hardware_conversion_on_scattered_values() {
    let mut state: u64 = 0x9E37_79B9_7F4A_7C15;
    let mut n = 0;
    while n < 400_000 {
        state = state.wrapping_mul(6364136223846793005).wrapping_add(1442695040888963407);
        let v = (state >> 32) as u32 as i32;
        assert_eq!(single_from_int(v), (v as f32).to_bits(), "{}", v);
        n += 1;
    }
}

#[test]
fn magnitudes_cover_the_unsigned_range() {
    assert_eq!(single_from_magnitude(0), 0);
    assert_eq!(single_from_magnitude(1), 0x3F80_0000);
    assert_eq!(single_from_magnitude(u32::MAX), (u32::MAX as f32).to_bits());
    assert_eq!(single_from_magnitude(0x8000_0000), 0x4F00_0000);
    assert_eq!(single_from_magnitude(0xFFFF_FF7F), (0xFFFF_FF7Fu32 as f32).to_bits());
    assert_eq!(single_from_magnitude(0xFFFF_FF80), 0x4F80_0000);
}

#[test]
fn half_precision_landmarks_widen_exactly() {
    assert_eq!(single_from_half(0x0000), 0x0000_0000);
    assert_eq!(single_from_half(0x8000), 0x8000_0000);
    assert_eq!(f32::from_bits(single_from_half(0x3C00)), 1.0);
    assert_eq!(f32::from_bits(single_from_half(0xC000)), -2.0);
    assert_eq!(f32::from_bits(single_from_half(0x7BFF)), 65504.0);
    assert_eq!(f32::from_bits(single_from_half(0x3555)), 0.333_251_95);
    // The smallest subnormal is 2^-24, the largest 1023 * 2^-24.
    assert_eq!(single_from_half(0x0001), 0x3380_0000);
    assert_eq!(f32::from_bits(single_from_half(0x0001)), 5.960_464_5e-8);
    assert_eq!(f32::from_bits(single_from_half(0x03FF)), 1023.0 / 16_777_216.0);
    // The smallest normal is 2^-14.
    assert_eq!(f32::from_bits(single_from_half(0x0400)), 6.103_515_6e-5);
    assert_eq!(single_from_half(0x7C00), 0x7F80_0000);
    assert_eq!(single_from_half(0xFC00), 0xFF80_0000);
}

#[test]
fn half_precision_nan_stays_nan_and_comes_out_quiet() {
    assert_eq!(single_from_half(0x7E00), 0x7FC0_0000);
    assert_eq!(single_from_half(0x7C01), 0x7FC0_2000);
    assert_eq!(single_from_half(0xFDFF), 0xFFFF_E000);
    assert!(f32::from_bits(single_from_half(0x7C01)).is_nan());
}

#[test]
fn half_precision_widening_agrees_with_the_half_crate_everywhere() {
    let mut h: u32 = 0;
    while h <= 0xFFFF {
        let bits = h as u16;
        let want = half::f16::from_bits(bits).to_f32();
        let got = single_from_half(bits);
        if want.is_nan() {
            assert!(f32::from_bits(got).is_nan(), "{:#06x}", bits);
        } else {
            assert_eq!(got, want.to_bits(), "{:#06x}", bits);
        }
        h += 1;
    }
}
