use rand::rngs::StdRng;
use rand::RngCore;
use rand::SeedableRng;
use town_layout::fixed::clamp_between;
use town_layout::fixed::clamp_i32;
use town_layout::fixed::div_floor;
use town_layout::fixed::div_signed;
use town_layout::fixed::isqrt;
use town_layout::fixed::prod;
use town_layout::fixed::unit_vector;
use town_layout::fixed::vector_length;
use town_layout::rng::draw_between;
use town_layout::rng::draw_unit;
use town_layout::rng::word_between;
use town_layout::rng::word_unit;
use town_layout::trig::cos_sin;
use town_layout::trig::cos_sin_fine;
use town_layout::trig::exp2;

const UNIT: i64 = 1 << 30;

#[test]
fn floor_division_rounds_down() {
    assert_eq!(div_floor(7, 2), 3);
    assert_eq!(div_floor(-7, 2), -4);
    assert_eq!(div_floor(-8, 2), -4);
    assert_eq!(div_floor(0, 5), 0);
    assert_eq!(div_signed(7, -2), -4);
    assert_eq!(div_signed(-7, -2), 3);
    assert_eq!(div_signed(-7, 2), -4);
}

#[test]
fn clamping_keeps_values_in_range() {
    assert_eq!(clamp_i32(5_000_000_000), i32::MAX);
    assert_eq!(clamp_i32(-5_000_000_000), i32::MIN);
    assert_eq!(clamp_i32(-17), -17);
    assert_eq!(clamp_between(12, -3, 9), 9);
    assert_eq!(clamp_between(-12, -3, 9), -3);
    assert_eq!(clamp_between(4, -3, 9), 4);
}

#[test]
fn products_are_exact() {
    assert_eq!(prod(i64::MIN, i64::MIN), 1i128 << 126);
    assert_eq!(prod(-3, 7), -21);
}

#[test]
fn integer_square_roots() {
    assert_eq!(isqrt(0), 0);
    assert_eq!(isqrt(1), 1);
    assert_eq!(isqrt(24), 4);
    assert_eq!(isqrt(25), 5);
    assert_eq!(isqrt(u128::MAX), (1u128 << 64) - 1);
    assert_eq!(isqrt(1u128 << 100), 1u128 << 50);
}

#[test]
fn lengths_are_rounded_down() {
    assert_eq!(vector_length(3, 4), 5);
    assert_eq!(vector_length(-3, -4), 5);
    assert_eq!(vector_length(1, 1), 1);
    assert_eq!(vector_length(0, 0), 0);
}

#[test]
fn unit_vectors_have_unit_length() {
    assert_eq!(unit_vector(0, 0), (0, 0));
    assert_eq!(unit_vector(5, 0), (UNIT, 0));
    assert_eq!(unit_vector(0, -9), (0, -UNIT));
    let (x, y) = unit_vector(3_000_000, 4_000_000);
    assert!((x - UNIT * 3 / 5).abs() <= 1);
    assert!((y - UNIT * 4 / 5).abs() <= 1);
    let (x, y) = unit_vector(1, 1);
    let norm = ((x as f64).powi(2) + (y as f64).powi(2)).sqrt() / UNIT as f64;
    assert!((norm - 1.0).abs() < 1e-4);
}

#[test]
fn cosine_and_sine_at_the_quarter_turns() {
    assert_eq!(cos_sin(0), (UNIT, 0));
    let quarter = 6_746_518_852i128;
    assert_eq!(cos_sin_fine(quarter), (0, UNIT));
    assert_eq!(cos_sin_fine(2 * quarter), (-UNIT, 0));
    assert_eq!(cos_sin_fine(3 * quarter), (0, -UNIT));
}

#[test]
fn cosine_and_sine_follow_the_real_functions() {
    let mut angle: i64 = -2_000_000;
    while angle < 2_000_000 {
        let (c, s) = cos_sin(angle);
        let exact = angle as f64 / 65536.0;
        assert!((c as f64 / UNIT as f64 - exact.cos()).abs() < 1e-7);
        assert!((s as f64 / UNIT as f64 - exact.sin()).abs() < 1e-7);
        angle += 7919;
    }
}

#[test]
fn powers_of_two() {
    assert_eq!(exp2(0), 65536);
    assert_eq!(exp2(65536), 131072);
    assert_eq!(exp2(-65536), 32768);
    assert_eq!(exp2(3 * 65536), 8 * 65536);
    assert_eq!(exp2(100 * 65536), 32768 * 65536);
    assert_eq!(exp2(-100 * 65536), 1);
    let half = exp2(32768) as f64 / 65536.0;
    assert!((half - 2.0_f64.sqrt()).abs() < 1e-4);
    let mut e: i64 = -2 * 65536;
    while e <= 2 * 65536 {
        let got = exp2(e) as f64 / 65536.0;
        let exact = 2.0_f64.powf(e as f64 / 65536.0);
        assert!((got - exact).abs() / exact < 1e-3);
        e += 1000;
    }
}

#[test]
fn unit_draws_are_the_upper_halves_of_the_words() {
    let mut rng = StdRng::seed_from_u64(42);
    let mut twin = StdRng::seed_from_u64(42);
    for _ in 0..20 {
        let drawn = draw_unit(&mut rng);
        let word = twin.next_u32();
        assert_eq!(drawn, (word >> 16) as i64);
    }
}

#[test]
fn draws_between_bounds_use_the_upper_bits() {
    let mut rng = StdRng::seed_from_u64(4242);
    let mut twin = StdRng::seed_from_u64(4242);
    for _ in 0..20 {
        let drawn = draw_between(&mut rng, -1000, 3000);
        let word = twin.next_u32();
        let expected = -1000 + ((4000i64 * (word >> 9) as i64) >> 23);
        assert_eq!(drawn, expected);
        assert!((-1000..3000).contains(&drawn));
    }
    let mut rng = StdRng::seed_from_u64(1);
    assert_eq!(draw_between(&mut rng, 5, 5), 5);
}

#[test]
fn draws_follow_the_floats_of_the_generator() {
    let mut rng = StdRng::seed_from_u64(2024);
    let mut twin = StdRng::seed_from_u64(2024);
    for _ in 0..50 {
        let drawn = draw_unit(&mut rng) as f32 / 65536.0;
        let exact: f32 = rand::Rng::random(&mut twin);
        assert!((drawn - exact).abs() < 1.0 / 65536.0);
        let ranged = draw_between(&mut rng, -19661, 19661) as f32 / 65536.0;
        let exact: f32 = rand::Rng::random_range(&mut twin, -0.3f32..0.3f32);
        assert!((ranged - exact).abs() < 1e-4);
    }
}

#[test]
fn words_stand_for_fractions_and_ranges() {
    assert_eq!(word_unit(0), 0);
    assert_eq!(word_unit(u32::MAX), 65535);
    assert_eq!(word_unit(0x8000_0000), 32768);
    assert_eq!(word_between(0, -13107, 13107), -13107);
    assert_eq!(word_between(u32::MAX, -13107, 13107), 13106);
    assert_eq!(word_between(0x8000_0000, -100, 100), 0);
    assert_eq!(word_between(0x4000_0000, 100, -100), 50);
}
