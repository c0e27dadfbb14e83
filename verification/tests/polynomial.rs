use kernel_math::polynomial::{mult_frac, polynomial_calc, Polynomial, PolynomialTerm};

fn term(deg: u32, coef: isize, divider: isize, divider_leftover: isize) -> PolynomialTerm {
    PolynomialTerm { deg, coef, divider, divider_leftover }
}

#[test]
fn mult_frac_rounds_towards_zero() {
    assert_eq!(mult_frac(10, 3, 4), 7);
    assert_eq!(mult_frac(-10, 3, 4), -7);
    assert_eq!(mult_frac(10, -3, 4), -7);
    assert_eq!(mult_frac(10, 3, -4), -7);
    assert_eq!(mult_frac(12, 3, 4), 9);
}

#[test]
fn mult_frac_by_zero_divider_is_zero() {
    assert_eq!(mult_frac(10, 3, 0), 0);
    assert_eq!(mult_frac(isize::MAX, isize::MAX, 0), 0);
}

#[test]
fn mult_frac_avoids_intermediate_overflow() {
    assert_eq!(mult_frac(isize::MAX, 2, 4), (1 << 62) - 1);
    assert_eq!(mult_frac(isize::MAX, 3, 3), isize::MAX);
    assert_eq!(mult_frac(isize::MIN, 1, -1), isize::MIN);
}

#[test]
fn mult_frac_matches_exact_quotient() {
    let values = [-1000isize, -37, -5, -1, 0, 1, 2, 7, 99, 1000];
    for &x in values.iter() {
        for &n in values.iter() {
            for &d in values.iter() {
                if d != 0 {
                    assert_eq!(mult_frac(x, n, d), x * n / d);
                }
            }
        }
    }
}

#[test]
fn quadratic_polynomial() {
    // y = 2*x^2 + 3*x + 5. For x = 2, y = 8 + 6 + 5 = 19
    let poly = Polynomial {
        total_divider: 1,
        terms: vec![term(2, 2, 1, 1), term(1, 3, 1, 1), term(0, 5, 1, 1)],
    };
    assert_eq!(polynomial_calc(Some(&poly), 2), 19);
    assert_eq!(polynomial_calc(Some(&poly), -3), 14);
    assert_eq!(polynomial_calc(Some(&poly), 0), 5);
}

#[test]
fn missing_polynomial_gives_zero() {
    assert_eq!(polynomial_calc(None, 42), 0);
}

#[test]
fn zero_dividers_count_as_one() {
    let poly = Polynomial {
        total_divider: 0,
        terms: vec![term(1, 3, 1, 0), term(0, 4, 1, 0)],
    };
    assert_eq!(polynomial_calc(Some(&poly), 10), 34);
}

#[test]
fn dividers_scale_each_step() {
    // 18 * (x / 10)^2 / 5 + 7 * x / 3 - 100, all over 4, at x = 25
    let poly = Polynomial {
        total_divider: 4,
        terms: vec![term(2, 18, 10, 5), term(1, 7, 3, 1), term(0, -100, 1, 1)],
    };
    // 18 * 25 / 10 = 45; 45 * 25 / 10 = 112; 112 / 5 = 22
    // 7 * 25 / 3 = 58
    // (22 + 58 - 100) / 4 = -5
    assert_eq!(polynomial_calc(Some(&poly), 25), -5);
}

#[test]
fn terms_after_degree_zero_are_ignored() {
    let poly = Polynomial {
        total_divider: 1,
        terms: vec![term(1, 2, 1, 1), term(0, 1, 1, 1), term(3, 1000, 1, 1)],
    };
    assert_eq!(polynomial_calc(Some(&poly), 5), 11);
}

#[test]
fn mult_frac_exact_when_only_the_full_product_overflows() {
    let cases: [(isize, isize, isize); 4] = [
        (3_000_000_000_000, 5_000_000, 7_000_000),
        (-3_000_000_000_000, 5_000_001, 7_000_003),
        (4_611_686_018_427_387_903, 9, 10),
        (-9_000_000_000_000_000_000, -3, -4),
    ];
    for &(x, n, d) in cases.iter() {
        let exact = (x as i128) * (n as i128) / (d as i128);
        assert_eq!(mult_frac(x, n, d) as i128, exact);
    }
}
