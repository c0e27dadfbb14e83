use kernel_math::gcd::gcd;
use kernel_math::rational::rational_best_approximation;

#[test]
fn exceeds_bounds_semiconvergent_above_half_of_last_term() {
    assert_eq!(rational_best_approximation(1230, 10, 100, 20), (100, 1));
}

#[test]
fn exceeds_bounds_semiconvergent_below_half_of_last_term() {
    assert_eq!(rational_best_approximation(34567, 100, 120, 20), (120, 1));
}

#[test]
fn closest_to_zero() {
    assert_eq!(rational_best_approximation(1, 30, 100, 10), (0, 1));
}

#[test]
fn closest_to_smallest_nonzero() {
    assert_eq!(rational_best_approximation(1, 19, 100, 10), (1, 10));
}

#[test]
fn use_convergent() {
    assert_eq!(rational_best_approximation(27, 32, 16, 16), (11, 13));
}

#[test]
fn exact_answer() {
    assert_eq!(rational_best_approximation(1155, 7735, 255, 255), (33, 221));
}

#[test]
fn semiconvergent_numerator_limit() {
    assert_eq!(rational_best_approximation(87, 32, 70, 32), (68, 25));
}

#[test]
fn semiconvergent_denominator_limit() {
    assert_eq!(rational_best_approximation(14533, 4626, 15000, 2400), (7433, 2366));
}

#[test]
fn zero_denominator_gives_one_over_zero() {
    assert_eq!(rational_best_approximation(5, 0, 100, 100), (1, 0));
}

#[test]
fn reduced_fraction_within_bounds_is_returned() {
    let cases = [(6u64, 8u64), (100, 7), (0, 9), (360, 48), (1 << 40, 3 << 20), (u64::MAX, 5)];
    for &(n, d) in cases.iter() {
        let g = gcd(n, d);
        assert_eq!(rational_best_approximation(n, d, u64::MAX, u64::MAX), (n / g, d / g));
        assert_eq!(rational_best_approximation(n, d, n / g, d / g), (n / g, d / g));
    }
}

#[test]
fn result_respects_the_bounds() {
    let fractions = [(31415926u64, 10000000u64), (27, 32), (1, 3), (99999, 1), (1, 99999), (355, 113)];
    let bounds = [(1u64, 1u64), (3, 7), (100, 100), (255, 255), (1000, 10), (10, 1000)];
    for &(n, d) in fractions.iter() {
        for &(mn, md) in bounds.iter() {
            let (bn, bd) = rational_best_approximation(n, d, mn, md);
            assert!(bn <= mn && bd <= md);
        }
    }
}

fn no_closer_fraction_within_bounds(n: u64, d: u64, mn: u64, md: u64) -> bool {
    let (p, q) = rational_best_approximation(n, d, mn, md);
    let err = |a: u64, b: u64| ((a as i128) * (d as i128) - (b as i128) * (n as i128)).abs();
    for b in 1..=md {
        for a in 0..=mn {
            if err(p, q) * (b as i128) > err(a, b) * (q as i128) {
                return false;
            }
        }
    }
    q >= 1
}

#[test]
fn result_is_a_closest_fraction_within_the_bounds() {
    for n in 0u64..30 {
        for d in 1u64..30 {
            for &(mn, md) in [(1u64, 1u64), (3, 5), (5, 3), (7, 7), (10, 2), (2, 10)].iter() {
                assert!(no_closer_fraction_within_bounds(n, d, mn, md));
            }
        }
    }
    assert!(no_closer_fraction_within_bounds(31415926, 10000000, 100, 100));
    assert!(no_closer_fraction_within_bounds(14533, 4626, 150, 60));
}

#[test]
fn doubled_index_wraps_for_huge_bounds() {
    // with bounds of 2^63 and above the doubled semiconvergent index wraps, and
    // the last convergent 0/1 is kept although 1/(2^64 - 2) is closer
    assert_eq!(rational_best_approximation(1, u64::MAX, 100, u64::MAX - 1), (0, 1));
}

#[test]
fn approximations_are_in_lowest_terms() {
    let fractions = [(31415926u64, 10000000u64), (6, 4), (100, 200), (7, 0), (0, 9), (u64::MAX, u64::MAX - 1)];
    let bounds = [(1u64, 1u64), (10, 10), (255, 255), (1000, 7), (u64::MAX, u64::MAX)];
    for &(n, d) in fractions.iter() {
        for &(mn, md) in bounds.iter() {
            let (p, q) = rational_best_approximation(n, d, mn, md);
            assert_eq!(gcd(p, q), 1);
            assert!(p <= mn && q <= md);
        }
    }
}
