use particle_core::fixed::{
    cos_milli, fx_add, fx_div, fx_mul, fx_sub, heading, isqrt, sin_milli, HALF_TURN, QUARTER_TURN,
    SCALE,
};

#[test]
fn products_drop_the_fraction_toward_zero() {
    assert_eq!(fx_mul(1500, 2500), 3750);
    assert_eq!(fx_mul(-1500, 2500), -3750);
    assert_eq!(fx_mul(1, 999), 0);
    assert_eq!(fx_mul(-1, 999), 0);
    assert_eq!(fx_mul(1999, 1), 1);
    assert_eq!(fx_mul(-1999, 1), -1);
}

#[test]
fn products_saturate() {
    assert_eq!(fx_mul(i32::MAX, i32::MAX), i32::MAX);
    assert_eq!(fx_mul(i32::MIN, i32::MAX), i32::MIN);
    assert_eq!(fx_mul(i32::MIN, i32::MIN), i32::MAX);
}

#[test]
fn ratios() {
    assert_eq!(fx_div(3000, 2000), 1500);
    assert_eq!(fx_div(-3000, 2000), -1500);
    assert_eq!(fx_div(3000, -2000), -1500);
    assert_eq!(fx_div(-3000, -2000), 1500);
    assert_eq!(fx_div(1000, 3000), 333);
    assert_eq!(fx_div(-1000, 3000), -333);
}

#[test]
fn a_zero_divisor_saturates_by_sign() {
    assert_eq!(fx_div(5, 0), i32::MAX);
    assert_eq!(fx_div(-5, 0), i32::MIN);
    assert_eq!(fx_div(0, 0), 0);
}

#[test]
fn ratios_saturate() {
    assert_eq!(fx_div(i32::MIN, 1), i32::MIN);
    assert_eq!(fx_div(i32::MAX, 1), i32::MAX);
    assert_eq!(fx_div(i32::MIN, -1), i32::MAX);
}

#[test]
fn sums_and_differences_saturate() {
    assert_eq!(fx_add(1, 2), 3);
    assert_eq!(fx_add(i32::MAX, 1), i32::MAX);
    assert_eq!(fx_add(i32::MIN, -1), i32::MIN);
    assert_eq!(fx_sub(5, 7), -2);
    assert_eq!(fx_sub(i32::MIN, 1), i32::MIN);
    assert_eq!(fx_sub(i32::MAX, -1), i32::MAX);
}

#[test]
fn integer_square_roots() {
    assert_eq!(isqrt(0), 0);
    assert_eq!(isqrt(1), 1);
    assert_eq!(isqrt(3), 1);
    assert_eq!(isqrt(4), 2);
    assert_eq!(isqrt(24), 4);
    assert_eq!(isqrt(25), 5);
    assert_eq!(isqrt(25_000_000), 5000);
    assert_eq!(isqrt((1u128 << 88) - 1), (1u64 << 44) - 1);
    assert_eq!(isqrt(u128::MAX), u64::MAX);
    assert_eq!(isqrt(1u128 << 126), 1u64 << 63);
}

#[test]
fn the_sine_wave_at_its_marks() {
    assert_eq!(sin_milli(0), 0);
    assert_eq!(sin_milli(QUARTER_TURN), 1000);
    assert_eq!(sin_milli(HALF_TURN), 0);
    assert_eq!(sin_milli(-QUARTER_TURN), -1000);
    assert_eq!(sin_milli(3 * QUARTER_TURN), -1000);
    assert_eq!(sin_milli(524), 500);
    assert_eq!(sin_milli(1000), 841);
    assert_eq!(sin_milli(785), 706);
}

#[test]
fn the_cosine_wave_at_its_marks() {
    assert_eq!(cos_milli(0), 1000);
    assert_eq!(cos_milli(QUARTER_TURN), 0);
    assert_eq!(cos_milli(HALF_TURN), -1000);
    assert_eq!(cos_milli(785), 707);
    assert_eq!(cos_milli(524), 865);
    assert_eq!(cos_milli(1000), 540);
}

#[test]
fn the_waves_repeat_every_full_turn() {
    for angle in [-7000, -3142, -1, 0, 1, 17, 1571, 3141, 6283, 100_000] {
        assert_eq!(sin_milli(angle), sin_milli(angle + 2 * HALF_TURN));
        assert_eq!(cos_milli(angle), cos_milli(angle - 2 * HALF_TURN));
    }
}

#[test]
fn the_waves_stay_within_one() {
    let mut angle = -20_000;
    while angle <= 20_000 {
        assert!(sin_milli(angle).abs() <= SCALE);
        assert!(cos_milli(angle).abs() <= SCALE);
        angle += 7;
    }
    assert!(sin_milli(i32::MAX).abs() <= SCALE);
    assert!(cos_milli(i32::MAX).abs() <= SCALE);
    assert!(sin_milli(i32::MIN).abs() <= SCALE);
}

#[test]
fn the_sine_wave_is_odd() {
    for angle in [1, 100, 785, 1571, 3000, 3142, 5000] {
        assert_eq!(sin_milli(-angle), -sin_milli(angle));
    }
}

#[test]
fn heading_gives_both_waves() {
    assert_eq!(heading(0), (1000, 0));
    assert_eq!(heading(QUARTER_TURN), (0, 1000));
    assert_eq!(heading(HALF_TURN), (-1000, 0));
    assert_eq!(heading(-QUARTER_TURN), (0, -1000));
    assert_eq!(heading(785), (707, 706));
    assert_eq!(heading(-785), (707, -706));
    for angle in [-9000, -17, 3, 524, 2000, 4000, 6000, i32::MAX, i32::MIN] {
        assert_eq!(heading(angle), (cos_milli(angle), sin_milli(angle)));
    }
}

#[test]
fn the_waves_of_an_angle_make_a_unit_vector() {
    let mut angle = -7000;
    while angle <= 7000 {
        let (c, s) = heading(angle);
        let square = (c as i64) * (c as i64) + (s as i64) * (s as i64);
        assert!(square >= 995_998);
        assert!(square <= 1_002_000);
        angle += 1;
    }
}

#[test]
fn the_waves_stay_close_to_the_true_ones() {
    let mut angle = -7000;
    while angle <= 7000 {
        let (c, s) = heading(angle);
        let turn = angle as f64 / 1000.0;
        assert!((c as f64 - 1000.0 * turn.cos()).abs() < 4.0);
        assert!((s as f64 - 1000.0 * turn.sin()).abs() < 4.0);
        angle += 1;
    }
}
