use path_tracer::math::Vec3;
use path_tracer::scalar::Scalar;
use path_tracer::scalar::UNIT;

fn v(x: i64, y: i64, z: i64) -> Vec3 {
    Vec3::from(Scalar::from_int(x), Scalar::from_int(y), Scalar::from_int(z))
}

fn squared_length(a: Vec3) -> i64 {
    a.dot(&a).raw
}

#[test]
fn zero_and_one_vectors() {
    assert_eq!(Vec3::zero(), v(0, 0, 0));
    assert_eq!(Vec3::one(), v(1, 1, 1));
    let a = v(1, 2, 3);
    assert_eq!(a.x(), Scalar::from_int(1));
    assert_eq!(a.y(), Scalar::from_int(2));
    assert_eq!(a.z(), Scalar::from_int(3));
}

#[test]
fn vector_arithmetic_is_componentwise() {
    let a = v(1, 2, 3);
    let b = v(4, -5, 6);
    assert_eq!(a + b, v(5, -3, 9));
    assert_eq!(a - b, v(-3, 7, -3));
    assert_eq!(a * b, v(4, -10, 18));
    assert_eq!(
        b / a,
        Vec3::from(Scalar::from_int(4), Scalar::from_ratio(-5, 2), Scalar::from_int(2))
    );
    assert_eq!(-a, v(-1, -2, -3));
    assert_eq!(a * Scalar::from_int(2), v(2, 4, 6));
    assert_eq!(v(2, 4, 6) / Scalar::from_int(2), a);
}

#[test]
fn assigning_operators_match_the_plain_ones() {
    let a = v(1, 2, 3);
    let b = v(4, -5, 6);
    let two = Scalar::from_int(2);
    let mut c = a;
    c += b;
    assert_eq!(c, a + b);
    c = a;
    c -= b;
    assert_eq!(c, a - b);
    c = a;
    c *= b;
    assert_eq!(c, a * b);
    c = b;
    c /= a;
    assert_eq!(c, b / a);
    c = a;
    c *= two;
    assert_eq!(c, a * two);
    c = a;
    c /= two;
    assert_eq!(c, a / two);
}

#[test]
fn dot_product_of_whole_vectors() {
    assert_eq!(v(1, 2, 3).dot(&v(4, -5, 6)), Scalar::from_int(12));
    assert_eq!(v(1, 0, 0).dot(&v(0, 1, 0)), Scalar::zero());
}

#[test]
fn cross_product_follows_the_right_hand() {
    assert_eq!(v(1, 0, 0).cross(&v(0, 1, 0)), v(0, 0, 1));
    assert_eq!(v(0, 1, 0).cross(&v(0, 0, 1)), v(1, 0, 0));
    assert_eq!(v(0, 0, 1).cross(&v(1, 0, 0)), v(0, 1, 0));
    assert_eq!(v(1, 2, 3).cross(&v(4, 5, 6)), v(-3, 6, -3));
    assert_eq!(v(1, 2, 3).cross(&v(1, 2, 3)), v(0, 0, 0));
}

#[test]
fn length_of_a_pythagorean_vector() {
    assert_eq!(v(3, 4, 0).length(), Scalar::from_int(5));
    assert_eq!(v(0, 0, 0).length(), Scalar::zero());
    assert_eq!(v(2, 3, 6).length(), Scalar::from_int(7));
}

#[test]
fn normalized_vector_has_unit_length() {
    let n = v(3, 4, 0).normalized();
    assert_eq!(n, Vec3::from(Scalar::from_ratio(3, 5), Scalar::from_ratio(4, 5), Scalar::zero()));
    let m = v(1, 1, 1).normalized();
    assert!((squared_length(m) - UNIT).abs() < 10);
    let mut k = v(0, -7, 0);
    k.normalize();
    assert_eq!(k, v(0, -1, 0));
}

#[test]
fn normalized_vector_is_within_twenty_billionths_of_unit_length() {
    for x in -5..=5 {
        for y in -5..=5 {
            for z in 1..=5 {
                let a = Vec3::from(
                    Scalar::from_ratio(x * 917, 1000),
                    Scalar::from_ratio(y * 1331, 1000),
                    Scalar::from_ratio(z * 713, 1000),
                );
                let n = a.normalized();
                assert!((squared_length(n) - UNIT).abs() <= 20, "{:?}", a);
            }
        }
    }
    let mut state: u64 = 0x9e37_79b9_7f4a_7c15;
    for _ in 0..2000 {
        let mut next = || {
            state ^= state << 13;
            state ^= state >> 7;
            state ^= state << 17;
            let shift = (state >> 58) as u32;
            ((state as i64) >> shift) >> (shift / 2)
        };
        let a = Vec3::from(Scalar::from_raw(next()), Scalar::from_raw(next()), Scalar::from_raw(next()));
        if a != Vec3::zero() {
            assert!((squared_length(a.normalized()) - UNIT).abs() <= 20, "{:?}", a);
        }
    }
}

#[test]
fn short_vectors_normalize_to_unit_length() {
    let short = Vec3::from(Scalar::zero(), Scalar::zero(), Scalar::from_raw(40_000));
    assert_eq!(short.normalized(), v(0, 0, 1));
    let shorter = Vec3::from(Scalar::from_raw(-1), Scalar::zero(), Scalar::zero());
    assert_eq!(shorter.normalized(), v(-1, 0, 0));
    let slanted = Vec3::from(Scalar::from_raw(3), Scalar::from_raw(4), Scalar::zero());
    assert_eq!(
        slanted.normalized(),
        Vec3::from(Scalar::from_ratio(3, 5), Scalar::from_ratio(4, 5), Scalar::zero())
    );
    let one_one = Vec3::from(Scalar::from_raw(1), Scalar::from_raw(1), Scalar::zero()).normalized();
    assert!((squared_length(one_one) - UNIT).abs() <= 20);
    assert_eq!(Vec3::from(Scalar::zero(), Scalar::zero(), Scalar::from_int(2)).normalized(), v(0, 0, 1));
}

#[test]
fn longest_vectors_normalize_to_unit_length() {
    let top = Scalar::from_raw(i64::MAX);
    let bottom = Scalar::from_raw(i64::MIN);
    for a in [Vec3::from(top, top, top), Vec3::from(bottom, top, bottom), Vec3::from(bottom, Scalar::zero(), Scalar::one())] {
        assert!((squared_length(a.normalized()) - UNIT).abs() <= 20, "{:?}", a);
    }
    assert_eq!(Vec3::from(top, top, top).length(), top);
}

#[test]
fn unit_vector_from_draws_near_the_middle_is_of_unit_length() {
    let middle = 1u32 << 31;
    assert_eq!(Vec3::unit_vector_from(2_147_483_906, middle, middle), v(1, 0, 0));
    let d = Vec3::unit_vector_from(middle + 1, middle - 1, middle + 3);
    assert!((squared_length(d) - UNIT).abs() <= 20, "{:?}", d);
}

#[test]
fn length_is_the_root_of_the_exact_sum_of_squares() {
    assert_eq!(Vec3::from(Scalar::from_raw(3), Scalar::from_raw(4), Scalar::zero()).length().raw, 5);
    assert_eq!(Vec3::from(Scalar::from_raw(1), Scalar::from_raw(1), Scalar::zero()).length().raw, 1);
    assert_eq!(Vec3::from(Scalar::zero(), Scalar::zero(), Scalar::from_raw(40_000)).length().raw, 40_000);
}

#[test]
fn normalizing_the_zero_vector_leaves_it_zero() {
    assert_eq!(v(0, 0, 0).normalized(), v(0, 0, 0));
}

#[test]
fn unit_vector_from_draws_is_normalized() {
    let centre = 1u32 << 31;
    let d = Vec3::unit_vector_from(u32::MAX, centre, centre);
    assert!((d.x.raw - UNIT).abs() < 10);
    assert_eq!(d.y.raw, 0);
    assert_eq!(d.z.raw, 0);
    let e = Vec3::unit_vector_from(0, 0, 0);
    assert_eq!(e, v(-1, -1, -1).normalized());
    let f = Vec3::unit_vector_from(123_456_789, 3_000_000_000, 987_654_321);
    assert!((squared_length(f) - UNIT).abs() < 10);
}

#[test]
fn random_unit_vector_has_unit_length() {
    for _ in 0..200 {
        let d = Vec3::random_unit_vector();
        let l = squared_length(d);
        assert!((l - UNIT).abs() < 100_000, "squared length {} of {:?}", l, d);
    }
}

#[test]
fn random_unit_vectors_differ() {
    let first = Vec3::random_unit_vector();
    let mut all_equal = true;
    for _ in 0..20 {
        if Vec3::random_unit_vector() != first {
            all_equal = false;
        }
    }
    assert!(!all_equal);
}
