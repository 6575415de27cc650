use path_tracer::image::encode_ppm;
use path_tracer::image::push_color;
use path_tracer::image::push_decimal;
use path_tracer::material::Color;
use path_tracer::math::Vec3;
use path_tracer::scalar::Scalar;

fn s(thousandths: i64) -> Scalar {
    Scalar::from_ratio(thousandths, 1000)
}

fn v(x: i64, y: i64, z: i64) -> Vec3 {
    Vec3::from(s(x), s(y), s(z))
}

fn decimal(n: u64) -> String {
    let mut text = String::new();
    push_decimal(&mut text, n);
    text
}

#[test]
fn decimal_numerals() {
    assert_eq!(decimal(0), "0");
    assert_eq!(decimal(7), "7");
    assert_eq!(decimal(10), "10");
    assert_eq!(decimal(255), "255");
    assert_eq!(decimal(2048), "2048");
    assert_eq!(decimal(1_234_567_890), "1234567890");
    assert_eq!(decimal(u64::MAX), "18446744073709551615");
}

#[test]
fn decimal_is_appended() {
    let mut text = String::from("n = ");
    push_decimal(&mut text, 42);
    assert_eq!(text, "n = 42");
}

#[test]
fn pixel_text_is_three_numerals() {
    assert_eq!(Color::from_u8(255, 0, 51).to_string(), "255 0 51");
    assert_eq!(Color::from_u8(0, 0, 0).to_string(), "0 0 0");
    assert_eq!(Color::from_u8(9, 10, 100).to_string(), "9 10 100");
    let mut text = String::from("#");
    push_color(&mut text, Color::from_u8(1, 2, 3));
    assert_eq!(text, "#1 2 3");
}

#[test]
fn white_buffer_is_all_255() {
    let white = vec![Vec3::one(); 4];
    assert_eq!(
        encode_ppm(2, 2, &white),
        "P3\n2 2\n255\n255 255 255 255 255 255\n255 255 255 255 255 255"
    );
}

#[test]
fn black_buffer_is_all_0() {
    let black = vec![Vec3::zero(); 4];
    assert_eq!(encode_ppm(2, 2, &black), "P3\n2 2\n255\n0 0 0 0 0 0\n0 0 0 0 0 0");
}

#[test]
fn every_triplet_of_a_white_image_is_255() {
    let white = vec![Vec3::one(); 12];
    let text = encode_ppm(4, 3, &white);
    let mut lines = text.lines();
    assert_eq!(lines.next(), Some("P3"));
    assert_eq!(lines.next(), Some("4 3"));
    assert_eq!(lines.next(), Some("255"));
    let numbers: Vec<&str> = lines.flat_map(|line| line.split(' ')).collect();
    assert_eq!(numbers.len(), 36);
    assert!(numbers.iter().all(|n| *n == "255"));
}

#[test]
fn rows_hold_width_pixels() {
    let pixels = vec![v(1000, 0, 0), v(0, 1000, 0), v(0, 0, 1000), v(500, 500, 500), v(200, 400, 600)];
    assert_eq!(
        encode_ppm(2, 3, &pixels),
        "P3\n2 3\n255\n255 0 0 0 255 0\n0 0 255 127 127 127\n51 102 153"
    );
    assert_eq!(
        encode_ppm(1, 5, &pixels),
        "P3\n1 5\n255\n255 0 0\n0 255 0\n0 0 255\n127 127 127\n51 102 153"
    );
    assert_eq!(
        encode_ppm(8, 1, &pixels),
        "P3\n8 1\n255\n255 0 0 0 255 0 0 0 255 127 127 127 51 102 153"
    );
}

#[test]
fn image_without_pixels_is_only_a_head() {
    assert_eq!(encode_ppm(2048, 2048, &Vec::new()), "P3\n2048 2048\n255\n");
}

#[test]
fn intensities_out_of_range_are_clamped_in_the_text() {
    let pixels = vec![v(10_000, -3000, 1001)];
    assert_eq!(encode_ppm(1, 1, &pixels), "P3\n1 1\n255\n255 0 255");
}
