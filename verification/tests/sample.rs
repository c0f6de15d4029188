use vst3_sample64::carrier::residual_of;
use vst3_sample64::layout::residual_capacity;
use vst3_sample64::rounding::{bit_length, power_of_two, round_pattern};
use vst3_sample64::sample::{
    ceil_to_usize, difference, is_finite32, is_finite64, product, quantize, sum, widen,
};

/// Patterns that reach every exponent, and the special values.
fn patterns64() -> Vec<u64> {
    let mut all = vec![
        0,
        1,
        2,
        0x000f_ffff_ffff_ffff,
        0x0010_0000_0000_0000,
        0x7fef_ffff_ffff_ffff,
        0x7ff0_0000_0000_0000,
        0x7ff0_0000_0000_0001,
        0x7ff8_0000_0000_0000,
        1.0f64.to_bits(),
        0.1f64.to_bits(),
        (f32::MAX as f64).to_bits(),
        f64::from_bits((f32::MAX as f64).to_bits() + 0x0fff_ffff).to_bits(),
        f64::from_bits((f32::MAX as f64).to_bits() + 0x1000_0000).to_bits(),
        (f32::from_bits(1) as f64).to_bits(),
        (f32::from_bits(1) as f64 / 2.0).to_bits(),
        (f32::from_bits(1) as f64 / 2.0).to_bits() + 1,
        (f32::from_bits(3) as f64 / 2.0).to_bits(),
        1.0e-20f64.to_bits(),
        1.0e-45f64.to_bits(),
        1.0e-60f64.to_bits(),
    ];
    let mut state: u64 = 0x9e37_79b9_7f4a_7c15;
    for exponent in 0..2048u64 {
        state = state.wrapping_mul(6364136223846793005).wrapping_add(1442695040888963407);
        all.push((exponent << 52) | (state >> 12));
        all.push((exponent << 52) | ((state >> 12) & !0x1fff_ffff) | 0x1000_0000);
    }
    let negative: Vec<u64> = all.iter().map(|bits| bits | (1 << 63)).collect();
    all.extend(negative);
    all
}

fn same64(ours: u64, theirs: f64) -> bool {
    if theirs.is_nan() {
        f64::from_bits(ours).is_nan()
    } else {
        ours == theirs.to_bits()
    }
}

fn same32(ours: u32, theirs: f32) -> bool {
    if theirs.is_nan() {
        f32::from_bits(ours).is_nan()
    } else {
        ours == theirs.to_bits()
    }
}

#[test]
fn quantizing_agrees_with_the_hardware() {
    for bits in patterns64() {
        let value = f64::from_bits(bits);
        assert!(same32(quantize(bits), value as f32), "{bits:#x}");
        assert_eq!(is_finite64(bits), value.is_finite());
    }
}

#[test]
fn widening_agrees_with_the_hardware() {
    for bits in patterns64() {
        for sample in [quantize(bits), (bits >> 32) as u32, bits as u32] {
            let value = f32::from_bits(sample);
            assert!(same64(widen(sample), f64::from(value)), "{sample:#x}");
            assert_eq!(is_finite32(sample), value.is_finite());
        }
    }
}

#[test]
fn arithmetic_agrees_with_the_hardware() {
    let all = patterns64();
    for (i, &a) in all.iter().enumerate() {
        for step in [0usize, 1, 2, 3, 7, 50, 97, 107, 115, 131, 1009, 4097, 4099, 4203] {
            let b = all[(i + step) % all.len()];
            let (x, y) = (f64::from_bits(a), f64::from_bits(b));
            assert!(same64(sum(a, b), x + y), "{a:#x} + {b:#x}");
            assert!(same64(difference(a, b), x - y), "{a:#x} - {b:#x}");
            assert!(same64(product(a, b), x * y), "{a:#x} * {b:#x}");
        }
    }
}

#[test]
fn products_in_the_subnormal_range_agree_with_the_hardware() {
    let all = patterns64();
    for (i, &a) in all.iter().enumerate() {
        let exponent = (a >> 52) & 0x7ff;
        for target in [0u64, 1, 20, 52, 53, 54] {
            // a second operand that brings the product near the smallest values
            let wanted = (1023 + target).saturating_sub(exponent) & 0x7ff;
            let b = (wanted << 52) | (all[(i * 31 + 5) % all.len()] & 0x000f_ffff_ffff_ffff);
            let (x, y) = (f64::from_bits(a), f64::from_bits(b));
            assert!(same64(product(a, b), x * y), "{a:#x} * {b:#x}");
        }
    }
}

#[test]
fn sums_of_opposites_are_positive_zero() {
    let one = 1.0f64.to_bits();
    assert_eq!(sum(one, (-1.0f64).to_bits()), 0);
    assert_eq!(sum((-0.0f64).to_bits(), (-0.0f64).to_bits()), (-0.0f64).to_bits());
    assert_eq!(sum((-0.0f64).to_bits(), 0), 0);
    assert_eq!(difference(one, one), 0);
}

#[test]
fn exact_arithmetic_on_known_values() {
    assert_eq!(quantize(0x3ff0_0000_0000_0000), 0x3f80_0000);
    assert_eq!(widen(0x3f80_0000), 0x3ff0_0000_0000_0000);
    assert_eq!(quantize(0x3fb9_9999_9999_999a), 0x3dcc_cccd);
    assert_eq!(sum(0x3ff0_0000_0000_0000, 0x3ff0_0000_0000_0000), 0x4000_0000_0000_0000);
    assert_eq!(difference(0x4000_0000_0000_0000, 0x3ff0_0000_0000_0000), 0x3ff0_0000_0000_0000);
    assert_eq!(product(0x4000_0000_0000_0000, 0x4008_0000_0000_0000), 0x4018_0000_0000_0000);
}

#[test]
fn operations_without_a_result_are_not_a_number() {
    let infinity = f64::INFINITY.to_bits();
    let minus_infinity = f64::NEG_INFINITY.to_bits();
    assert!(f64::from_bits(sum(infinity, minus_infinity)).is_nan());
    assert!(f64::from_bits(difference(infinity, infinity)).is_nan());
    assert!(f64::from_bits(product(infinity, 0)).is_nan());
    assert_eq!(sum(infinity, infinity), infinity);
    assert_eq!(product(infinity, (-2.0f64).to_bits()), minus_infinity);
    assert_eq!(sum(1.0f64.to_bits(), minus_infinity), minus_infinity);
}

#[test]
fn ceiling_agrees_with_the_hardware() {
    for bits in patterns64() {
        let value = f64::from_bits(bits);
        assert_eq!(ceil_to_usize(bits), value.ceil() as usize, "{bits:#x}");
    }
    for value in [0.0, 0.25, 1.0, 1.5, 4410.0, 4410.000000000001, 1e15 + 0.5, 1e19, 1e20, 1e300] {
        assert_eq!(ceil_to_usize(f64::to_bits(value)), value.ceil() as usize);
    }
}

#[test]
fn residual_restores_every_sample_in_range() {
    let mut restored = 0;
    for bits in patterns64() {
        let quantized = quantize(bits);
        let back = sum(widen(quantized), residual_of(bits, quantized));
        let value = f64::from_bits(bits);
        if value.is_finite() && f32::from_bits(quantized).is_finite() {
            assert_eq!(f64::from_bits(back), value);
            assert_eq!(back, if bits == 1 << 63 { 0 } else { bits });
            restored += 1;
        } else {
            assert_eq!(residual_of(bits, quantized), 0);
            assert_eq!(back, widen(quantized));
        }
    }
    assert!(restored > 4000);
}

#[test]
fn samples_with_32_bits_leave_no_residual() {
    for sample in [0u32, 1, 0x007f_ffff, 0x0080_0000, 0x3f80_0000, 0x7f7f_ffff, 0xbf80_0001] {
        assert_eq!(quantize(widen(sample)), sample);
        assert_eq!(residual_of(widen(sample), sample), 0);
    }
}

#[test]
fn silence_stays_silent() {
    assert_eq!(quantize(0), 0);
    assert_eq!(widen(0), 0);
    assert_eq!(residual_of(0, 0), 0);
    assert_eq!(sum(widen(0), 0), 0);
}

#[test]
fn infinity_is_quantized_to_infinity() {
    assert_eq!(quantize(f64::INFINITY.to_bits()), f32::INFINITY.to_bits());
    assert_eq!(quantize(f64::NEG_INFINITY.to_bits()), f32::NEG_INFINITY.to_bits());
    assert_eq!(widen(f32::NEG_INFINITY.to_bits()), f64::NEG_INFINITY.to_bits());
}

#[test]
fn capacity_follows_rate_and_latency_bound() {
    let capacity = |rate: f32, seconds: f64| residual_capacity(rate.to_bits(), seconds.to_bits());
    assert_eq!(capacity(48_000.0, 1.0), 48_001);
    assert_eq!(capacity(44_100.0, 0.5), 22_051);
    // the product is rounded before it is rounded up
    assert_eq!(capacity(44_100.0, 0.1), 4_411);
    assert_eq!(capacity(44_100.0, 0.3), (44_100.0f64 * 0.3).ceil() as usize + 1);
    assert_eq!(capacity(48_000.0, 0.0), 1);
    assert_eq!(capacity(48_000.0, -0.0), 1);
    assert_eq!(capacity(48_000.0, -1.0), 1);
    assert_eq!(capacity(48_000.0, f64::NAN), 1);
    assert_eq!(capacity(48_000.0, f64::INFINITY), 1);
    assert_eq!(capacity(f32::NAN, 1.0), 1);
    assert_eq!(capacity(-48_000.0, 1.0), 1);
    assert_eq!(capacity(f32::INFINITY, 0.0), 1);
    assert_eq!(capacity(f32::INFINITY, 1.0), usize::MAX);
    assert_eq!(capacity(1.0, 1.0e300), usize::MAX);
    assert_eq!(capacity(1.0e-30, 1.0e-30), 2);
}

#[test]
fn powers_and_lengths() {
    assert_eq!(power_of_two(0), 1);
    assert_eq!(power_of_two(127), 1 << 127);
    assert_eq!(bit_length(0), 0);
    assert_eq!(bit_length(1), 1);
    assert_eq!(bit_length(255), 8);
    assert_eq!(bit_length(256), 9);
    assert_eq!(bit_length(u128::MAX), 128);
}

#[test]
fn rounding_goes_to_the_nearest_and_ties_to_even() {
    // two fraction bits: 4, 5, 6 and 7 are exact, then 8, 10, 12 and 14
    assert_eq!(round_pattern(2, 7, 9, 0), 8);
    assert_eq!(round_pattern(2, 7, 11, 0), 10);
    assert_eq!(round_pattern(2, 7, 13, 0), 10);
    assert_eq!(round_pattern(2, 7, 10, 0), 9);
    assert_eq!(round_pattern(2, 7, 1, -1), 0);
    assert_eq!(round_pattern(2, 7, 3, -1), 2);
    assert_eq!(round_pattern(2, 7, 1, -4000), 0);
    assert_eq!(round_pattern(2, 7, 1, 4000), 28);
    assert_eq!(round_pattern(2, 7, 0, 0), 0);
}
