use kernel_math::reciprocal::{reciprocal_value, reciprocal_value_adv, ReciprocalValue, ReciprocalValueAdv};

fn divide(a: u32, r: ReciprocalValue) -> u32 {
    let t = ((a as u64 * r.m as u64) >> 32) as u32;
    (t + ((a - t) >> r.sh1)) >> r.sh2
}

#[test]
fn reciprocal_value_of_small_divisors() {
    assert_eq!(reciprocal_value(1), ReciprocalValue { m: 1, sh1: 0, sh2: 0 });
    assert_eq!(reciprocal_value(2), ReciprocalValue { m: 1, sh1: 1, sh2: 0 });
    assert_eq!(reciprocal_value(3), ReciprocalValue { m: 1431655766, sh1: 1, sh2: 1 });
    assert_eq!(reciprocal_value(7), ReciprocalValue { m: 613566757, sh1: 1, sh2: 2 });
    assert_eq!(reciprocal_value(10), ReciprocalValue { m: 2576980378, sh1: 1, sh2: 3 });
    assert_eq!(reciprocal_value(1000), ReciprocalValue { m: 103079216, sh1: 1, sh2: 9 });
}

#[test]
fn reciprocal_value_of_large_divisors() {
    assert_eq!(reciprocal_value(1 << 31), ReciprocalValue { m: 1, sh1: 1, sh2: 30 });
    assert_eq!(reciprocal_value((1 << 31) + 1), ReciprocalValue { m: 4294967293, sh1: 1, sh2: 31 });
    assert_eq!(reciprocal_value(u32::MAX), ReciprocalValue { m: 2, sh1: 1, sh2: 31 });
}

#[test]
fn reciprocal_value_divides() {
    let divisors = [1u32, 2, 3, 5, 7, 10, 13, 64, 100, 641, 1000, 65537, 1 << 31, (1 << 31) + 1, u32::MAX - 1, u32::MAX];
    let dividends = [0u32, 1, 2, 3, 6, 7, 99, 100, 101, 65535, 65536, 1 << 31, u32::MAX - 1, u32::MAX];
    for &d in divisors.iter() {
        let r = reciprocal_value(d);
        for &a in dividends.iter() {
            assert_eq!(divide(a, r), a / d);
            assert_eq!(divide(a.wrapping_mul(d), r), a.wrapping_mul(d) / d);
        }
    }
}

#[test]
fn reciprocal_value_adv_values() {
    assert_eq!(reciprocal_value_adv(1, 32), ReciprocalValueAdv { m: 1, sh: 0, exp: 0, is_wide_m: true });
    assert_eq!(reciprocal_value_adv(3, 32), ReciprocalValueAdv { m: 2863311531, sh: 1, exp: 2, is_wide_m: false });
    assert_eq!(reciprocal_value_adv(7, 32), ReciprocalValueAdv { m: 613566757, sh: 3, exp: 3, is_wide_m: true });
    assert_eq!(reciprocal_value_adv(10, 32), ReciprocalValueAdv { m: 3435973837, sh: 3, exp: 4, is_wide_m: false });
    assert_eq!(reciprocal_value_adv(641, 32), ReciprocalValueAdv { m: 6700417, sh: 0, exp: 10, is_wide_m: false });
    assert_eq!(reciprocal_value_adv(3, 8), ReciprocalValueAdv { m: 1437248170, sh: 0, exp: 2, is_wide_m: false });
}

#[test]
fn reciprocal_value_adv_divides() {
    let divisors = [1u32, 3, 5, 7, 10, 13, 100, 641, 1000, 65537, 1 << 30, (1 << 30) + 1, 1 << 31];
    let dividends = [0u64, 1, 2, 6, 7, 99, 100, 65535, 65536, 1 << 31, (1 << 32) - 2, (1 << 32) - 1];
    for &d in divisors.iter() {
        let r = reciprocal_value_adv(d, 32);
        let m = r.m as u128 + if r.is_wide_m { 1u128 << 32 } else { 0 };
        for &a in dividends.iter() {
            let q = ((m * a as u128) >> (32 + r.sh as u32)) as u64;
            assert_eq!(q, a / d as u64);
        }
    }
}

#[test]
fn reciprocal_value_adv_wraps_large_precisions() {
    // a precision above 32 + ceil(log2(d)) wraps the shift amount instead of panicking
    assert_eq!(reciprocal_value_adv(1, 40), ReciprocalValueAdv { m: 0, sh: 0, exp: 0, is_wide_m: true });
    assert_eq!(reciprocal_value_adv(1, 255), ReciprocalValueAdv { m: 0, sh: 0, exp: 0, is_wide_m: true });
    assert_eq!(reciprocal_value_adv(3, 100), ReciprocalValueAdv { m: 2863311530, sh: 0, exp: 2, is_wide_m: true });
    assert_eq!(reciprocal_value_adv(1000, 64), ReciprocalValueAdv { m: 8589934, sh: 0, exp: 10, is_wide_m: false });
    assert_eq!(reciprocal_value_adv((1 << 31) + 1, 0), ReciprocalValueAdv { m: 0, sh: 32, exp: 32, is_wide_m: false });
    assert_eq!(reciprocal_value_adv((1 << 31) + 1, 70), ReciprocalValueAdv { m: 1, sh: 6, exp: 32, is_wide_m: false });
}
