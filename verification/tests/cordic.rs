use kernel_math::cordic::{cordic_calc_iq, cordic_fixed, cordic_float, CordicIq};

#[test]
fn zero_degrees_is_one_and_zero() {
    let res = cordic_calc_iq(0);
    assert!((res.i - 65536).abs() <= 10);
    assert!((res.q - 0).abs() <= 10);
}

#[test]
fn quarter_turns() {
    assert_eq!(cordic_calc_iq(0), CordicIq { i: 65541, q: 0 });
    assert_eq!(cordic_calc_iq(90), CordicIq { i: 3, q: 65536 });
    assert_eq!(cordic_calc_iq(180), CordicIq { i: -65541, q: 0 });
    assert_eq!(cordic_calc_iq(-90), CordicIq { i: 0, q: -65538 });
    assert_eq!(cordic_calc_iq(270), CordicIq { i: 0, q: -65538 });
    assert_eq!(cordic_calc_iq(-180), CordicIq { i: -65541, q: 0 });
}

#[test]
fn other_angles() {
    assert_eq!(cordic_calc_iq(45), CordicIq { i: 46342, q: 46341 });
    assert_eq!(cordic_calc_iq(30), CordicIq { i: 56759, q: 32769 });
    assert_eq!(cordic_calc_iq(1000), CordicIq { i: 11379, q: -64541 });
    assert_eq!(cordic_calc_iq(-1000), CordicIq { i: 11382, q: 64539 });
}

#[test]
fn full_turns_give_the_same_result() {
    for theta in -720..=720 {
        assert_eq!(cordic_calc_iq(theta), cordic_calc_iq(theta + 360));
    }
}

#[test]
fn result_is_close_to_the_unit_circle() {
    for theta in (-1080..=1080).step_by(7) {
        let res = cordic_calc_iq(theta);
        let radians = (theta as f64).to_radians();
        assert!((res.i as f64 - 65536.0 * radians.cos()).abs() < 16.0);
        assert!((res.q as f64 - 65536.0 * radians.sin()).abs() < 16.0);
    }
}

#[test]
fn fixed_point_conversion() {
    assert_eq!(cordic_fixed(0), 0);
    assert_eq!(cordic_fixed(3), 196608);
    assert_eq!(cordic_fixed(-180), -11796480);
    assert_eq!(cordic_fixed(32768), i32::MIN);
    assert_eq!(cordic_fixed(65536), 0);
}

#[test]
fn rounding_back_from_fixed_point() {
    assert_eq!(cordic_float(0), 0);
    assert_eq!(cordic_float(65536), 1);
    assert_eq!(cordic_float(98304), 2);
    assert_eq!(cordic_float(98303), 1);
    assert_eq!(cordic_float(-98304), -2);
    assert_eq!(cordic_float(-98303), -1);
    assert_eq!(cordic_float(32767), 0);
    assert_eq!(cordic_float(32768), 1);
    assert_eq!(cordic_float(i32::MIN), 32768);
}

#[test]
fn half_turn_negates_both_coordinates() {
    for theta in -89..=89 {
        let a = cordic_calc_iq(theta);
        let b = cordic_calc_iq(theta + 180);
        assert_eq!(b, CordicIq { i: -a.i, q: -a.q });
    }
}

#[test]
fn coordinates_stay_within_their_bound() {
    for theta in [i32::MIN, -1_000_000, -32768, -181, -90, 0, 91, 32767, 1_000_000, i32::MAX] {
        let res = cordic_calc_iq(theta);
        assert!(res.i.abs() <= 189780 && res.q.abs() <= 189780);
    }
}

#[test]
fn squared_length_stays_within_its_bounds() {
    for theta in -1000..=1000 {
        let res = cordic_calc_iq(theta);
        let n = (res.i as i64) * (res.i as i64) + (res.q as i64) * (res.q as i64);
        assert!(65433 * 65433 <= n && n <= 65639 * 65639);
    }
}

#[test]
fn direction_follows_the_angle() {
    for theta in -89..=89 {
        let res = cordic_calc_iq(theta);
        let degrees = (res.q as f64).atan2(res.i as f64).to_degrees();
        assert!((degrees - theta as f64).abs() < 0.05);
    }
}
