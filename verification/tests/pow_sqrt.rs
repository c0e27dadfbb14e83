use kernel_math::int_pow::int_pow;
use kernel_math::int_sqrt::{int_sqrt, int_sqrt64};

#[test]
fn int_pow_small_values() {
    assert_eq!(int_pow(2, 10), 1024);
    assert_eq!(int_pow(3, 4), 81);
    assert_eq!(int_pow(7, 0), 1);
    assert_eq!(int_pow(0, 0), 1);
    assert_eq!(int_pow(0, 5), 0);
    assert_eq!(int_pow(1, 1_000_000), 1);
    assert_eq!(int_pow(10, 19), 10_000_000_000_000_000_000);
}

#[test]
fn int_pow_wraps_modulo_two_to_the_64() {
    assert_eq!(int_pow(2, 63), 1 << 63);
    assert_eq!(int_pow(2, 64), 0);
    assert_eq!(int_pow(3, 41), 18026252303461234787);
    assert_eq!(int_pow(u64::MAX, 3), u64::MAX);
    assert_eq!(int_pow(u64::MAX, 2), 1);
}

#[test]
fn int_pow_agrees_with_repeated_multiplication() {
    for base in 0u64..20 {
        let mut expected: u64 = 1;
        for exp in 0u32..70 {
            assert_eq!(int_pow(base, exp), expected);
            expected = expected.wrapping_mul(base);
        }
    }
}

#[test]
fn int_sqrt_small_values() {
    let expected = [0u64, 1, 1, 1, 2, 2, 2, 2, 2, 3, 3, 3, 3, 3, 3, 3, 4];
    for (x, r) in expected.iter().enumerate() {
        assert_eq!(int_sqrt(x as u64), *r);
    }
}

#[test]
fn int_sqrt_large_values() {
    assert_eq!(int_sqrt(1 << 32), 1 << 16);
    assert_eq!(int_sqrt(u64::MAX), 4294967295);
    assert_eq!(int_sqrt(18446744065119617025), 4294967295);
    assert_eq!(int_sqrt(18446744065119617024), 4294967294);
    assert_eq!(int_sqrt(1_000_000_000_000_000_000), 1_000_000_000);
    assert_eq!(int_sqrt(1 << 63), 3037000499);
}

#[test]
fn int_sqrt_is_the_floor_root() {
    let mut x: u64 = 1;
    while x < (1 << 60) {
        for v in [x - 1, x, x + 1, x * 3 + 7] {
            let r = int_sqrt(v);
            assert!(r * r <= v);
            assert!((r + 1) * (r + 1) > v);
        }
        x = x * 5 / 3 + 1;
    }
}

#[test]
fn int_sqrt64_values() {
    assert_eq!(int_sqrt64(0), 0);
    assert_eq!(int_sqrt64(5), 2);
    assert_eq!(int_sqrt64(u32::MAX as u64), 65535);
    assert_eq!(int_sqrt64(1 << 32), 65536);
    assert_eq!(int_sqrt64(u64::MAX), u32::MAX);
    assert_eq!(int_sqrt64(1 << 40), 1 << 20);
    assert_eq!(int_sqrt64((1 << 40) - 1), (1 << 20) - 1);
}
