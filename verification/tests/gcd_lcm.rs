use kernel_math::gcd::gcd;
use kernel_math::lcm::{lcm, lcm_not_zero};

#[test]
fn gcd_with_zero_is_the_other_argument() {
    assert_eq!(gcd(0, 0), 0);
    assert_eq!(gcd(0, 17), 17);
    assert_eq!(gcd(17, 0), 17);
    assert_eq!(gcd(0, u64::MAX), u64::MAX);
}

#[test]
fn gcd_small_values() {
    assert_eq!(gcd(12, 18), 6);
    assert_eq!(gcd(18, 12), 6);
    assert_eq!(gcd(35, 64), 1);
    assert_eq!(gcd(48, 180), 12);
    assert_eq!(gcd(7, 7), 7);
    assert_eq!(gcd(1, 1_000_000), 1);
}

#[test]
fn gcd_powers_of_two_and_large_values() {
    assert_eq!(gcd(1 << 63, 1 << 62), 1 << 62);
    assert_eq!(gcd(1 << 63, 3 << 40), 1 << 40);
    assert_eq!(gcd(u64::MAX, u64::MAX - 1), 1);
    assert_eq!(gcd(u64::MAX, u64::MAX), u64::MAX);
    assert_eq!(gcd(6 << 50, 9 << 51), 3 << 51);
}

#[test]
fn gcd_is_symmetric_and_divides_both() {
    let values = [0u64, 1, 2, 3, 4, 6, 10, 12, 15, 97, 360, 1024, 4096, 123456789, u64::MAX];
    for &a in values.iter() {
        for &b in values.iter() {
            let g = gcd(a, b);
            assert_eq!(g, gcd(b, a));
            if g != 0 {
                assert_eq!(a % g, 0);
                assert_eq!(b % g, 0);
            }
        }
    }
}

#[test]
fn lcm_small_values() {
    assert_eq!(lcm(4, 6), 12);
    assert_eq!(lcm(6, 4), 12);
    assert_eq!(lcm(7, 13), 91);
    assert_eq!(lcm(12, 12), 12);
    assert_eq!(lcm(1, 99), 99);
}

#[test]
fn lcm_with_zero_is_zero() {
    assert_eq!(lcm(0, 5), 0);
    assert_eq!(lcm(5, 0), 0);
    assert_eq!(lcm(0, 0), 0);
}

#[test]
fn lcm_wraps_modulo_two_to_the_64() {
    // lcm(2^63, 3) == 3 * 2^63, which wraps to 2^63
    assert_eq!(lcm(1 << 63, 3), 1 << 63);
    assert_eq!(lcm(u64::MAX, u64::MAX - 1), u64::MAX.wrapping_mul(u64::MAX - 1));
}

#[test]
fn lcm_is_a_common_multiple() {
    let values = [1u64, 2, 3, 4, 6, 9, 10, 12, 15, 97, 360, 1024];
    for &a in values.iter() {
        for &b in values.iter() {
            let l = lcm(a, b);
            assert_eq!(l % a, 0);
            assert_eq!(l % b, 0);
            assert_eq!(l * gcd(a, b), a * b);
        }
    }
}

#[test]
fn lcm_not_zero_cases() {
    assert_eq!(lcm_not_zero(4, 6), 12);
    assert_eq!(lcm_not_zero(0, 6), 6);
    assert_eq!(lcm_not_zero(4, 0), 4);
    assert_eq!(lcm_not_zero(0, 0), 0);
}

#[test]
fn lcm_of_nonzero_words_never_wraps_to_zero() {
    let words = [1u64, 2, 3, 1 << 32, (1 << 32) + 1, 1 << 62, 1 << 63, u64::MAX, u64::MAX - 1, 0xdead_beef_0000];
    for &a in words.iter() {
        for &b in words.iter() {
            assert_ne!(lcm(a, b), 0);
            assert_eq!(lcm_not_zero(a, b), lcm(a, b));
        }
    }
    assert_eq!(lcm(u64::MAX, u64::MAX - 1), 2);
    assert_eq!(lcm(1 << 63, 1 << 62), 1 << 63);
}
