use pointcloud::fixed::isqrt;
use pointcloud::fixed::add_clamped;
use pointcloud::fixed::micro_from_bits;
use pointcloud::fixed::micro_saturated;
use pointcloud::fixed::micro_scaled;

#[test]
fn doubles_round_to_millionths() {
    assert_eq!(micro_from_bits(1000.0f64.to_bits()), Some(1_000_000_000));
    assert_eq!(micro_from_bits(1000.02f64.to_bits()), Some(1_000_020_000));
    assert_eq!(micro_from_bits((-300.5f64).to_bits()), Some(-300_500_000));
    assert_eq!(micro_from_bits(0.0f64.to_bits()), Some(0));
    assert_eq!(micro_from_bits((-0.0f64).to_bits()), Some(0));
    assert_eq!(micro_from_bits(0.000_000_4f64.to_bits()), Some(0));
    assert_eq!(micro_from_bits(0.000_000_6f64.to_bits()), Some(1));
    assert_eq!(micro_from_bits(f64::MIN_POSITIVE.to_bits()), Some(0));
}

#[test]
fn doubles_out_of_range_are_refused() {
    assert_eq!(micro_from_bits(f64::NAN.to_bits()), None);
    assert_eq!(micro_from_bits(f64::INFINITY.to_bits()), None);
    assert_eq!(micro_from_bits(f64::NEG_INFINITY.to_bits()), None);
    assert_eq!(micro_from_bits(f64::MAX.to_bits()), None);
    assert_eq!(micro_from_bits(1.0e10f64.to_bits()), None);
    assert_eq!(micro_from_bits(9.0e9f64.to_bits()), Some(9_000_000_000_000_000));
}

#[test]
fn lattice_steps_scale_exactly() {
    let scale = 0.01f64.to_bits();
    assert_eq!(micro_scaled(0, scale), Some(0));
    assert_eq!(micro_scaled(1, scale), Some(10_000));
    assert_eq!(micro_scaled(2, scale), Some(20_000));
    assert_eq!(micro_scaled(-7, scale), Some(-70_000));
    assert_eq!(micro_scaled(i32::MAX, scale), Some(21_474_836_470_000));
    assert_eq!(micro_scaled(i32::MIN, scale), Some(-21_474_836_480_000));
    assert_eq!(micro_scaled(3, (-0.001f64).to_bits()), Some(-3_000));
}

#[test]
fn integer_square_roots() {
    assert_eq!(isqrt(0), 0);
    assert_eq!(isqrt(1), 1);
    assert_eq!(isqrt(3), 1);
    assert_eq!(isqrt(4), 2);
    assert_eq!(isqrt(99), 9);
    assert_eq!(isqrt(1_000_000), 1_000);
    assert_eq!(isqrt(u128::MAX), u64::MAX);
}

#[test]
fn products_are_held_within_the_range() {
    const LIMIT: i64 = 1 << 53;
    assert_eq!(micro_saturated(1, 1000.02f64.to_bits()), 1_000_020_000);
    assert_eq!(micro_saturated(-3, 0.01f64.to_bits()), -30_000);
    assert_eq!(micro_saturated(1, 9.0e9f64.to_bits()), 9_000_000_000_000_000);
    assert_eq!(micro_saturated(1, 1.0e10f64.to_bits()), LIMIT);
    assert_eq!(micro_saturated(-1, 1.0e10f64.to_bits()), -LIMIT);
    assert_eq!(micro_saturated(1, (-1.0e10f64).to_bits()), -LIMIT);
    assert_eq!(micro_saturated(-1, (-1.0e10f64).to_bits()), LIMIT);
    assert_eq!(micro_saturated(i32::MIN, f64::MAX.to_bits()), -LIMIT);
    assert_eq!(micro_saturated(7, f64::INFINITY.to_bits()), LIMIT);
    assert_eq!(micro_saturated(-7, f64::INFINITY.to_bits()), -LIMIT);
    assert_eq!(micro_saturated(7, f64::NEG_INFINITY.to_bits()), -LIMIT);
    assert_eq!(micro_saturated(0, f64::INFINITY.to_bits()), 0);
    assert_eq!(micro_saturated(0, f64::MAX.to_bits()), 0);
    assert_eq!(micro_saturated(5, f64::NAN.to_bits()), 0);
    assert_eq!(micro_saturated(-5, (-f64::NAN).to_bits()), 0);
    assert_eq!(add_clamped(LIMIT, LIMIT), LIMIT);
    assert_eq!(add_clamped(-LIMIT, -1), -LIMIT);
    assert_eq!(add_clamped(LIMIT, -LIMIT), 0);
    assert_eq!(add_clamped(12, -40), -28);
}
