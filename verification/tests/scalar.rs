use path_tracer::scalar::clamp;
use path_tracer::scalar::integer_sqrt;
use path_tracer::scalar::Scalar;
use path_tracer::scalar::UNIT;

#[test]
fn one_is_a_billion_raw_units() {
    assert_eq!(Scalar::one().raw, UNIT);
    assert_eq!(UNIT, 1_000_000_000);
    assert_eq!(Scalar::zero().raw, 0);
    assert_eq!(Scalar::max().raw, i64::MAX);
    assert_eq!(Scalar::from_raw(-7).raw, -7);
}

#[test]
fn sum_and_difference_are_exact_in_range() {
    let a = Scalar::from_raw(1_250_000_000);
    let b = Scalar::from_raw(-750_000_000);
    assert_eq!((a + b).raw, 500_000_000);
    assert_eq!((a - b).raw, 2_000_000_000);
    assert_eq!((-a).raw, -1_250_000_000);
}

#[test]
fn sum_and_difference_are_clamped() {
    let top = Scalar::from_raw(i64::MAX);
    let bottom = Scalar::from_raw(i64::MIN);
    let one = Scalar::one();
    assert_eq!((top + one).raw, i64::MAX);
    assert_eq!((bottom - one).raw, i64::MIN);
    assert_eq!((bottom + bottom).raw, i64::MIN);
    assert_eq!((-bottom).raw, i64::MAX);
    assert_eq!(bottom.abs().raw, i64::MAX);
}

#[test]
fn product_rounds_toward_zero() {
    let a = Scalar::from_raw(1_500_000_001);
    let b = Scalar::from_raw(-1_500_000_001);
    let half = Scalar::from_raw(500_000_000);
    assert_eq!((a * half).raw, 750_000_000);
    assert_eq!((b * half).raw, -750_000_000);
    assert_eq!((b * -half).raw, 750_000_000);
}

#[test]
fn product_is_clamped() {
    let big = Scalar::from_int(1_000_000);
    assert_eq!((big * big).raw, i64::MAX);
    assert_eq!((big * -big).raw, i64::MIN);
    assert_eq!((Scalar::from_raw(i64::MIN) * Scalar::from_raw(i64::MIN)).raw, i64::MAX);
}

#[test]
fn product_with_zero_is_zero() {
    assert_eq!((Scalar::from_raw(i64::MAX) * Scalar::zero()).raw, 0);
    assert_eq!((Scalar::zero() * Scalar::from_raw(i64::MIN)).raw, 0);
}

#[test]
fn quotient_rounds_toward_zero() {
    let one = Scalar::one();
    let three = Scalar::from_int(3);
    assert_eq!((one / three).raw, 333_333_333);
    assert_eq!(((-one) / three).raw, -333_333_333);
    assert_eq!((one / -three).raw, -333_333_333);
    assert_eq!((Scalar::from_int(7) / Scalar::from_int(2)).raw, 3_500_000_000);
}

#[test]
fn division_by_zero_goes_to_the_ends_of_the_range() {
    let zero = Scalar::zero();
    assert_eq!((Scalar::one() / zero).raw, i64::MAX);
    assert_eq!((Scalar::from_raw(-1) / zero).raw, i64::MIN);
    assert_eq!((zero / zero).raw, 0);
}

#[test]
fn quotient_is_clamped() {
    let tiny = Scalar::from_raw(1);
    assert_eq!((Scalar::from_int(100) / tiny).raw, i64::MAX);
    assert_eq!((Scalar::from_int(-100) / tiny).raw, i64::MIN);
}

#[test]
fn integer_sqrt_is_the_floor_root() {
    assert_eq!(integer_sqrt(0), 0);
    assert_eq!(integer_sqrt(1), 1);
    assert_eq!(integer_sqrt(15), 3);
    assert_eq!(integer_sqrt(16), 4);
    assert_eq!(integer_sqrt(17), 4);
    assert_eq!(integer_sqrt(1u128 << 64), 1u64 << 32);
    assert_eq!(integer_sqrt(u128::MAX), u64::MAX);
}

#[test]
fn square_root_rounds_down() {
    assert_eq!(Scalar::from_int(4).sqrt().raw, 2 * UNIT);
    assert_eq!(Scalar::from_int(2).sqrt().raw, 1_414_213_562);
    assert_eq!(Scalar::from_raw(250_000_000).sqrt().raw, 500_000_000);
    assert_eq!(Scalar::from_raw(1).sqrt().raw, 31_622);
}

#[test]
fn square_root_of_nothing_positive_is_zero() {
    assert_eq!(Scalar::zero().sqrt().raw, 0);
    assert_eq!(Scalar::from_int(-4).sqrt().raw, 0);
}

#[test]
fn square_root_of_the_largest_scalar() {
    assert_eq!(Scalar::max().sqrt().raw, 96_038_388_349_944);
}

#[test]
fn whole_numbers_are_scaled_and_clamped() {
    assert_eq!(Scalar::from_int(3).raw, 3 * UNIT);
    assert_eq!(Scalar::from_int(-3).raw, -3 * UNIT);
    assert_eq!(Scalar::from_int(i64::MAX).raw, i64::MAX);
    assert_eq!(Scalar::from_int(i64::MIN).raw, i64::MIN);
    assert_eq!(Scalar::from_count(50).raw, 50 * UNIT);
    assert_eq!(Scalar::from_count(usize::MAX).raw, i64::MAX);
}

#[test]
fn ratios_round_toward_zero() {
    assert_eq!(Scalar::from_ratio(7, 10).raw, 700_000_000);
    assert_eq!(Scalar::from_ratio(-1, 3).raw, -333_333_333);
    assert_eq!(Scalar::from_ratio(255, 255).raw, UNIT);
    assert_eq!(Scalar::from_ratio(1, 0).raw, i64::MAX);
    assert_eq!(Scalar::from_ratio(-1, 0).raw, i64::MIN);
    assert_eq!(Scalar::from_ratio(0, 0).raw, 0);
    assert_eq!(Scalar::from_ratio(i64::MIN, -1).raw, i64::MAX);
}

#[test]
fn random_bits_map_into_the_unit_interval() {
    assert_eq!(Scalar::from_bits(0).raw, 0);
    assert_eq!(Scalar::from_bits(1 << 31).raw, 500_000_000);
    assert_eq!(Scalar::from_bits(1 << 30).raw, 250_000_000);
    assert_eq!(Scalar::from_bits(u32::MAX).raw, 999_999_999);
}

#[test]
fn scalars_are_equal_when_their_raw_values_are() {
    assert_eq!(Scalar::from_raw(1), Scalar::from_raw(1));
    assert_ne!(Scalar::from_raw(1), Scalar::from_raw(2));
}

#[test]
fn clamp_keeps_what_fits() {
    assert_eq!(clamp(5), 5);
    assert_eq!(clamp(i128::MAX), i64::MAX);
    assert_eq!(clamp(i128::MIN), i64::MIN);
    assert_eq!(clamp(i64::MAX as i128), i64::MAX);
}
