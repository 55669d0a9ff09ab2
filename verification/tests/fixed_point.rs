use audio_analyzer::fixed::divide_rounded;
use audio_analyzer::fixed::integer_sqrt;
use audio_analyzer::fixed::magnitude_of_float;
use audio_analyzer::fixed::sample_of_float;
use audio_analyzer::fixed::SAMPLE_ONE;
use audio_analyzer::fixed::threshold_of_float;

fn probes() -> Vec<f32> {
    let mut values = vec![
        0.0f32, -0.0, 1.0, -1.0, 0.5, -0.5, 0.25, 0.1, -0.7, 0.3, 0.999_999_94, 1.000_000_1, 2.0,
        -2.0, 1024.0, 123_456.79, 1.0e-10, -1.0e-10, 1.0e-38, 1.0e-45, 3.0e38, -3.0e38, 4.656_613e-10,
        -4.656_613e-10, 9.313_226e-10, 65_535.996, 4_294_967_300.0, 1.8e19, 9.3e18,
    ];
    let mut state: u32 = 0x1234_5678;
    for _ in 0..2000 {
        state = state.wrapping_mul(1_664_525).wrapping_add(1_013_904_223);
        let value = f32::from_bits(state);
        if value.is_finite() {
            values.push(value);
        }
    }
    values
}

#[test]
fn samples_of_simple_floats() {
    assert_eq!(sample_of_float(0.5f32.to_bits()), 1 << 30);
    assert_eq!(sample_of_float((-0.5f32).to_bits()), -(1 << 30));
    assert_eq!(sample_of_float(0.25f32.to_bits()), 1 << 29);
    assert_eq!(sample_of_float(0.0f32.to_bits()), 0);
    assert_eq!(sample_of_float((-0.0f32).to_bits()), 0);
    assert_eq!(sample_of_float(0.1f32.to_bits()), 214_748_368);
    assert_eq!(sample_of_float((-0.7f32).to_bits()), -1_503_238_528);
}

#[test]
fn both_ends_of_the_range_are_held_exactly() {
    assert_eq!(sample_of_float(1.0f32.to_bits()), SAMPLE_ONE);
    assert_eq!(sample_of_float((-1.0f32).to_bits()), -SAMPLE_ONE);
    assert_eq!(SAMPLE_ONE, 1 << 31);
    assert_eq!(sample_of_float(0.999_999_94f32.to_bits()), SAMPLE_ONE - 128);
    assert_eq!(sample_of_float((-0.999_999_94f32).to_bits()), 128 - SAMPLE_ONE);
    assert_eq!(sample_of_float(1.0f32.to_bits()) / 2, sample_of_float(0.5f32.to_bits()));
}

#[test]
fn samples_outside_the_range_are_held_to_its_ends() {
    assert_eq!(sample_of_float(1.000_000_1f32.to_bits()), SAMPLE_ONE);
    assert_eq!(sample_of_float(2.0f32.to_bits()), SAMPLE_ONE);
    assert_eq!(sample_of_float((-2.0f32).to_bits()), -SAMPLE_ONE);
    assert_eq!(sample_of_float(f32::INFINITY.to_bits()), SAMPLE_ONE);
    assert_eq!(sample_of_float(f32::NEG_INFINITY.to_bits()), -SAMPLE_ONE);
    assert_eq!(sample_of_float(f32::MAX.to_bits()), SAMPLE_ONE);
    assert_eq!(sample_of_float(f32::MIN.to_bits()), -SAMPLE_ONE);
}

#[test]
fn a_nan_sample_is_silence() {
    assert_eq!(sample_of_float(f32::NAN.to_bits()), 0);
    assert_eq!(sample_of_float(0x7f80_0001), 0);
    assert_eq!(sample_of_float(0xffff_ffff), 0);
}

#[test]
fn samples_too_small_for_the_scale_vanish() {
    assert_eq!(sample_of_float(1.0e-10f32.to_bits()), 0);
    assert_eq!(sample_of_float((-1.0e-10f32).to_bits()), 0);
    assert_eq!(sample_of_float(1), 0);
    assert_eq!(sample_of_float(0x3000_0000), 1);
    assert_eq!(sample_of_float(0xb000_0000), -1);
}

#[test]
fn samples_agree_with_a_cast_held_to_the_range() {
    for value in probes() {
        let expected = ((value as f64 * 2_147_483_648.0) as i64).clamp(-SAMPLE_ONE, SAMPLE_ONE);
        assert_eq!(sample_of_float(value.to_bits()), expected, "sample of {}", value);
    }
}

#[test]
fn magnitudes_of_simple_floats() {
    assert_eq!(magnitude_of_float(1.0f32.to_bits()), 1 << 32);
    assert_eq!(magnitude_of_float(0.5f32.to_bits()), 1 << 31);
    assert_eq!(magnitude_of_float(1024.0f32.to_bits()), 1 << 42);
    assert_eq!(magnitude_of_float(0.0f32.to_bits()), 0);
    assert_eq!(magnitude_of_float(3.0f32.to_bits()), 3 << 32);
}

#[test]
fn magnitudes_are_never_negative() {
    assert_eq!(magnitude_of_float((-1.0f32).to_bits()), 0);
    assert_eq!(magnitude_of_float((-0.0f32).to_bits()), 0);
    assert_eq!(magnitude_of_float(f32::NEG_INFINITY.to_bits()), 0);
    assert_eq!(magnitude_of_float(f32::NAN.to_bits()), 0);
    assert_eq!(magnitude_of_float(f32::INFINITY.to_bits()), u64::MAX);
    assert_eq!(magnitude_of_float(f32::MAX.to_bits()), u64::MAX);
}

#[test]
fn magnitudes_agree_with_a_saturating_cast() {
    for value in probes() {
        let expected = (value as f64 * 4_294_967_296.0) as u64;
        assert_eq!(magnitude_of_float(value.to_bits()), expected, "magnitude of {}", value);
    }
}

#[test]
fn thresholds_of_simple_floats() {
    assert_eq!(threshold_of_float(0.3f32.to_bits()), 1_288_490_240);
    assert_eq!(threshold_of_float(1.0f32.to_bits()), 1 << 32);
    assert_eq!(threshold_of_float(0.0f32.to_bits()), 0);
    assert_eq!(threshold_of_float((-0.5f32).to_bits()), -(1 << 31));
    assert_eq!(threshold_of_float(0.5f32.to_bits()), 1 << 31);
}

#[test]
fn thresholds_at_the_ends() {
    assert_eq!(threshold_of_float(f32::NAN.to_bits()), i64::MAX);
    assert_eq!(threshold_of_float(f32::INFINITY.to_bits()), i64::MAX);
    assert_eq!(threshold_of_float(f32::NEG_INFINITY.to_bits()), -i64::MAX);
    assert_eq!(threshold_of_float(f32::MAX.to_bits()), i64::MAX);
    assert_eq!(threshold_of_float(f32::MIN.to_bits()), -i64::MAX);
}

#[test]
fn thresholds_agree_with_a_cast_inside_the_range() {
    for value in probes() {
        if value.abs() < 2.0e9 {
            let expected = (value as f64 * 4_294_967_296.0) as i64;
            assert_eq!(threshold_of_float(value.to_bits()), expected, "threshold of {}", value);
        }
    }
}

#[test]
fn integer_square_roots() {
    assert_eq!(integer_sqrt(0), 0);
    assert_eq!(integer_sqrt(1), 1);
    assert_eq!(integer_sqrt(2), 1);
    assert_eq!(integer_sqrt(3), 1);
    assert_eq!(integer_sqrt(4), 2);
    assert_eq!(integer_sqrt(99), 9);
    assert_eq!(integer_sqrt(100), 10);
    assert_eq!(integer_sqrt(101), 10);
    assert_eq!(integer_sqrt(1 << 64), 1 << 32);
    assert_eq!(integer_sqrt(1 << 126), 1 << 63);
    assert_eq!(integer_sqrt(1_000_000_000_000_000_000_000_000_000_000), 1_000_000_000_000_000);
    assert_eq!(integer_sqrt(u128::MAX), u64::MAX);
}

#[test]
fn integer_square_root_brackets_its_argument() {
    let mut state: u128 = 0x9e37_79b9_7f4a_7c15;
    for _ in 0..500 {
        state = state.wrapping_mul(0x2545_f491_4f6c_dd1d_0000_0000_0000_0001).wrapping_add(99);
        let root = integer_sqrt(state) as u128;
        assert!(root * root <= state);
        assert!((root + 1).checked_mul(root + 1).map_or(true, |next| state < next));
    }
}

#[test]
fn division_rounds_to_the_nearest_with_ties_up() {
    assert_eq!(divide_rounded(7, 2), 4);
    assert_eq!(divide_rounded(5, 2), 3);
    assert_eq!(divide_rounded(1, 3), 0);
    assert_eq!(divide_rounded(2, 3), 1);
    assert_eq!(divide_rounded(9, 3), 3);
    assert_eq!(divide_rounded(0, 5), 0);
    assert_eq!(divide_rounded(u128::MAX, 1), u128::MAX);
    assert_eq!(divide_rounded(u128::MAX, u128::MAX), 1);
    assert_eq!(divide_rounded(u128::MAX, 2), 1 << 127);
    assert_eq!(divide_rounded(u128::MAX - 1, u128::MAX), 1);
    assert_eq!(divide_rounded(u128::MAX / 2, u128::MAX), 0);
    assert_eq!(divide_rounded(u128::MAX / 2 + 1, u128::MAX), 1);
    assert_eq!(divide_rounded(17, 0), 0);
}
