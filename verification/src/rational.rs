//! Best rational approximation of a fraction under bounds on numerator and
//! denominator, by continued fraction expansion.
use vstd::prelude::*;
use vstd::arithmetic::div_mod::*;
use vstd::arithmetic::mul::*;
use vstd::wrapping::u64_specs;
use crate::gcd::{gcd_of, lemma_gcd_divides, lemma_divisor_le};

verus! {

/// The largest `t` for which the semiconvergent `(n0 + t * n1) / (d0 + t * d1)`
/// stays within the bounds (divisions by a zero `n1` or `d1` left out).
pub open spec fn semiconvergent_index(
    n0: u64,
    d0: u64,
    n1: u64,
    d1: u64,
    max_numerator: u64,
    max_denominator: u64,
) -> u64 {
    let t_den: u64 = if d1 != 0 {
        (u64_specs::wrapping_sub(max_denominator, d0) / d1) as u64
    } else {
        u64::MAX
    };
    if n1 != 0 {
        let t_num = (u64_specs::wrapping_sub(max_numerator, n0) / n1) as u64;
        if t_num < t_den {
            t_num
        } else {
            t_den
        }
    } else {
        t_den
    }
}

/// The final step when the next convergent leaves the bounds: the
/// semiconvergent of index `semiconvergent_index` is taken when it is closer to
/// the fraction than the last convergent `n1 / d1`, decided on the partial
/// quotient `a`, the previous remainder `dp` and the current remainder `d`.
pub open spec fn semiconvergent_step(
    n0: u64,
    d0: u64,
    n1: u64,
    d1: u64,
    a: u64,
    dp: u64,
    d: u64,
    max_numerator: u64,
    max_denominator: u64,
) -> (u64, u64) {
    let t = semiconvergent_index(n0, d0, n1, d1, max_numerator, max_denominator);
    let t_mul_2 = u64_specs::wrapping_mul(t, 2);
    if d1 == 0 || t_mul_2 > a || (t_mul_2 == a && u64_specs::wrapping_mul(d0, dp)
        > u64_specs::wrapping_mul(d1, d)) {
        (
            u64_specs::wrapping_add(n0, u64_specs::wrapping_mul(t, n1)),
            u64_specs::wrapping_add(d0, u64_specs::wrapping_mul(t, d1)),
        )
    } else {
        (n1, d1)
    }
}

/// The continued fraction expansion of `n / d` from the convergents
/// `n0 / d0` (the one before last) and `n1 / d1` (the last one): the result is
/// the last convergent within the bounds, or a better semiconvergent.
pub open spec fn expansion(
    n: u64,
    d: u64,
    n0: u64,
    d0: u64,
    n1: u64,
    d1: u64,
    max_numerator: u64,
    max_denominator: u64,
) -> (u64, u64)
    decreases d,
{
    if d == 0 {
        (n1, d1)
    } else {
        let a = (n / d) as u64;
        let r = (n % d) as u64;
        let n2 = u64_specs::wrapping_add(n0, u64_specs::wrapping_mul(a, n1));
        let d2 = u64_specs::wrapping_add(d0, u64_specs::wrapping_mul(a, d1));
        if n2 > max_numerator || d2 > max_denominator {
            semiconvergent_step(n0, d0, n1, d1, a, d, r, max_numerator, max_denominator)
        } else {
            expansion(d, r, n1, d1, n2, d2, max_numerator, max_denominator)
        }
    }
}

/// The best approximation of `given_numerator / given_denominator`, starting
/// the expansion from the convergents `0 / 1` and `1 / 0`.
pub open spec fn best_approximation(
    given_numerator: u64,
    given_denominator: u64,
    max_numerator: u64,
    max_denominator: u64,
) -> (u64, u64) {
    expansion(given_numerator, given_denominator, 0, 1, 1, 0, max_numerator, max_denominator)
}

/// Calculates the best rational approximation of
/// `given_numerator / given_denominator` whose numerator is at most
/// `max_numerator` and whose denominator is at most `max_denominator`.
/// Returns `(best_numerator, best_denominator)`.
pub fn rational_best_approximation(
    given_numerator: u64,
    given_denominator: u64,
    max_numerator: u64,
    max_denominator: u64,
) -> (best: (u64, u64))
    ensures
        best == best_approximation(
            given_numerator,
            given_denominator,
            max_numerator,
            max_denominator,
        ),
{
    let mut n = given_numerator;
    let mut d = given_denominator;
    let mut n0: u64 = 0;
    let mut d1: u64 = 0;
    let mut n1: u64 = 1;
    let mut d0: u64 = 1;

    loop
        invariant
            expansion(n, d, n0, d0, n1, d1, max_numerator, max_denominator)
                == best_approximation(
                given_numerator,
                given_denominator,
                max_numerator,
                max_denominator,
            ),
        decreases d,
    {
        if d == 0 {
            return (n1, d1);
        }

        let dp = d;
        let a = n / d;
        d = n % d;
        n = dp;

        let n2 = n0.wrapping_add(a.wrapping_mul(n1));
        let d2 = d0.wrapping_add(a.wrapping_mul(d1));

        if n2 > max_numerator || d2 > max_denominator {
            let mut t = u64::MAX;

            if d1 != 0 {
                t = max_denominator.wrapping_sub(d0) / d1;
            }
            if n1 != 0 {
                let t_num = max_numerator.wrapping_sub(n0) / n1;
                if t_num < t {
                    t = t_num;
                }
            }

            let t_mul_2 = t.wrapping_mul(2);
            if d1 == 0 || t_mul_2 > a || (t_mul_2 == a && d0.wrapping_mul(dp) > d1.wrapping_mul(d)) {
                n1 = n0.wrapping_add(t.wrapping_mul(n1));
                d1 = d0.wrapping_add(t.wrapping_mul(d1));
            }
            return (n1, d1);
        }

        n0 = n1;
        n1 = n2;
        d0 = d1;
        d1 = d2;
    }
}

/// `x` times `y`, when it stays within `m`, is computed exactly by a wrapping
/// multiplication.
proof fn lemma_wrapping_mul_exact(x: u64, y: u64)
    requires
        x * y <= u64::MAX,
    ensures
        u64_specs::wrapping_mul(x, y) == x * y,
{
    lemma_small_mod((x * y) as nat, 0x1_0000_0000_0000_0000);
}

/// `t <= x / y` bounds `t * y` by `x`.
proof fn lemma_quotient_times_divisor(t: nat, x: nat, y: nat)
    requires
        y > 0,
        t <= x / y,
    ensures
        t * y <= x,
{
    lemma_mul_inequality(t as int, (x / y) as int, y as int);
    lemma_fundamental_div_mod(x as int, y as int);
    lemma_mul_is_commutative(y as int, (x / y) as int);
}

/// The semiconvergent step stays within the bounds when the convergents it
/// starts from do.
proof fn lemma_semiconvergent_within_bounds(
    n0: u64,
    d0: u64,
    n1: u64,
    d1: u64,
    a: u64,
    dp: u64,
    d: u64,
    max_numerator: u64,
    max_denominator: u64,
)
    requires
        n0 <= max_numerator,
        d0 <= max_denominator,
        n1 <= max_numerator,
        d1 <= max_denominator,
    ensures
        semiconvergent_step(n0, d0, n1, d1, a, dp, d, max_numerator, max_denominator).0
            <= max_numerator,
        semiconvergent_step(n0, d0, n1, d1, a, dp, d, max_numerator, max_denominator).1
            <= max_denominator,
{
    let t = semiconvergent_index(n0, d0, n1, d1, max_numerator, max_denominator);
    if n1 != 0 {
        lemma_quotient_times_divisor(t as nat, (max_numerator - n0) as nat, n1 as nat);
        lemma_wrapping_mul_exact(t, n1);
    } else {
        lemma_wrapping_mul_exact(t, n1);
    }
    if d1 != 0 {
        lemma_quotient_times_divisor(t as nat, (max_denominator - d0) as nat, d1 as nat);
        lemma_wrapping_mul_exact(t, d1);
    } else {
        lemma_wrapping_mul_exact(t, d1);
    }
}

/// The expansion stays within the bounds when its starting convergents do.
proof fn lemma_expansion_within_bounds(
    n: u64,
    d: u64,
    n0: u64,
    d0: u64,
    n1: u64,
    d1: u64,
    max_numerator: u64,
    max_denominator: u64,
)
    requires
        n0 <= max_numerator,
        d0 <= max_denominator,
        n1 <= max_numerator,
        d1 <= max_denominator,
    ensures
        expansion(n, d, n0, d0, n1, d1, max_numerator, max_denominator).0 <= max_numerator,
        expansion(n, d, n0, d0, n1, d1, max_numerator, max_denominator).1 <= max_denominator,
    decreases d,
{
    if d != 0 {
        let a = (n / d) as u64;
        let r = (n % d) as u64;
        let n2 = u64_specs::wrapping_add(n0, u64_specs::wrapping_mul(a, n1));
        let d2 = u64_specs::wrapping_add(d0, u64_specs::wrapping_mul(a, d1));
        if n2 > max_numerator || d2 > max_denominator {
            lemma_semiconvergent_within_bounds(
                n0,
                d0,
                n1,
                d1,
                a,
                d,
                r,
                max_numerator,
                max_denominator,
            );
        } else {
            lemma_expansion_within_bounds(d, r, n1, d1, n2, d2, max_numerator, max_denominator);
        }
    }
}

/// Law: when both bounds are at least one, the approximation respects them.
pub proof fn lemma_best_approximation_within_bounds(
    given_numerator: u64,
    given_denominator: u64,
    max_numerator: u64,
    max_denominator: u64,
)
    requires
        max_numerator >= 1,
        max_denominator >= 1,
    ensures
        best_approximation(given_numerator, given_denominator, max_numerator, max_denominator).0
            <= max_numerator,
        best_approximation(given_numerator, given_denominator, max_numerator, max_denominator).1
            <= max_denominator,
{
    lemma_expansion_within_bounds(
        given_numerator,
        given_denominator,
        0,
        1,
        1,
        0,
        max_numerator,
        max_denominator,
    );
}

/// `x * g <= big` gives `x <= big / g`.
proof fn lemma_le_quotient(x: nat, g: nat, big: nat)
    requires
        g > 0,
        x * g <= big,
    ensures
        x <= big / g,
{
    lemma_div_is_ordered((x * g) as int, big as int, g as int);
    lemma_div_multiples_vanish(x as int, g as int);
    lemma_mul_is_commutative(x as int, g as int);
}

/// While the reduced fraction fits the bounds, the expansion runs to its end
/// and yields the reduced fraction. The state keeps
/// `N == n1 * n + n0 * d` and `D == d1 * n + d0 * d`, with `gcd(n, d) == g`.
proof fn lemma_expansion_exact(
    big_n: nat,
    big_d: nat,
    g: nat,
    n: u64,
    d: u64,
    n0: u64,
    d0: u64,
    n1: u64,
    d1: u64,
    max_numerator: u64,
    max_denominator: u64,
)
    requires
        g > 0,
        gcd_of(n as nat, d as nat) == g,
        big_n == n1 * n + n0 * d,
        big_d == d1 * n + d0 * d,
        big_n <= u64::MAX,
        big_d <= u64::MAX,
        big_n / g <= max_numerator,
        big_d / g <= max_denominator,
    ensures
        expansion(n, d, n0, d0, n1, d1, max_numerator, max_denominator) == (
            (big_n / g) as u64,
            (big_d / g) as u64,
        ),
    decreases d,
{
    if d == 0 {
        assert(big_n == n1 * g && big_d == d1 * g) by (nonlinear_arith)
            requires
                d == 0,
                n == g,
                big_n == n1 * n + n0 * d,
                big_d == d1 * n + d0 * d,
        ;
        lemma_div_multiples_vanish(n1 as int, g as int);
        lemma_div_multiples_vanish(d1 as int, g as int);
        lemma_mul_is_commutative(n1 as int, g as int);
        lemma_mul_is_commutative(d1 as int, g as int);
    } else {
        let a = (n / d) as u64;
        let r = (n % d) as u64;
        lemma_fundamental_div_mod(n as int, d as int);
        let n2t: nat = (n0 + a * n1) as nat;
        let d2t: nat = (d0 + a * d1) as nat;
        assert(big_n == n2t * d + n1 * r && big_d == d2t * d + d1 * r) by (nonlinear_arith)
            requires
                n == d * a + r,
                big_n == n1 * n + n0 * d,
                big_d == d1 * n + d0 * d,
                n2t == n0 + a * n1,
                d2t == d0 + a * d1,
        ;
        assert(gcd_of(d as nat, r as nat) == g);
        lemma_gcd_divides(d as nat, r as nat);
        lemma_divisor_le(g, d as nat);
        assert(n2t * g <= big_n && d2t * g <= big_d) by (nonlinear_arith)
            requires
                g <= d,
                big_n == n2t * d + n1 * r,
                big_d == d2t * d + d1 * r,
        ;
        lemma_le_quotient(n2t, g, big_n);
        lemma_le_quotient(d2t, g, big_d);
        assert(a * n1 <= n2t && a * d1 <= d2t);
        lemma_wrapping_mul_exact(a, n1);
        lemma_wrapping_mul_exact(a, d1);
        let n2 = u64_specs::wrapping_add(n0, u64_specs::wrapping_mul(a, n1));
        let d2 = u64_specs::wrapping_add(d0, u64_specs::wrapping_mul(a, d1));
        assert(n2 == n2t && d2 == d2t);
        lemma_expansion_exact(
            big_n,
            big_d,
            g,
            d,
            r,
            n1,
            d1,
            n2,
            d2,
            max_numerator,
            max_denominator,
        );
    }
}

/// Law: when the fraction in lowest terms fits the bounds, it is the answer.
pub proof fn lemma_best_approximation_exact(
    given_numerator: u64,
    given_denominator: u64,
    max_numerator: u64,
    max_denominator: u64,
)
    requires
        given_denominator > 0,
        (given_numerator as nat) / gcd_of(given_numerator as nat, given_denominator as nat)
            <= max_numerator,
        (given_denominator as nat) / gcd_of(given_numerator as nat, given_denominator as nat)
            <= max_denominator,
    ensures
        ({
            let g = gcd_of(given_numerator as nat, given_denominator as nat);
            best_approximation(given_numerator, given_denominator, max_numerator, max_denominator)
                == (((given_numerator as nat) / g) as u64, ((given_denominator as nat) / g) as u64)
        }),
{
    let g = gcd_of(given_numerator as nat, given_denominator as nat);
    lemma_gcd_divides(given_numerator as nat, given_denominator as nat);
    lemma_expansion_exact(
        given_numerator as nat,
        given_denominator as nat,
        g,
        given_numerator,
        given_denominator,
        0,
        1,
        1,
        0,
        max_numerator,
        max_denominator,
    );
}

/// Two numbers with `p * x - q * y == ±1` for some `x`, `y` have no common
/// divisor but one.
proof fn lemma_coprime_of_det(p: nat, q: nat, x: int, y: int)
    requires
        p * x - q * y == 1 || p * x - q * y == -1,
    ensures
        gcd_of(p, q) == 1,
{
    if p == 0 && q == 0 {
        assert(p * x - q * y == 0) by (nonlinear_arith)
            requires
                p == 0,
                q == 0,
        ;
    } else {
        lemma_gcd_divides(p, q);
        let g = gcd_of(p, q);
        lemma_fundamental_div_mod(p as int, g as int);
        lemma_fundamental_div_mod(q as int, g as int);
        let i = p as int / g as int;
        let j = q as int / g as int;
        let k = i * x - j * y;
        assert(p * x - q * y == g * k) by (nonlinear_arith)
            requires
                p == g * i,
                q == g * j,
                k == i * x - j * y,
        ;
        assert(g == 1) by (nonlinear_arith)
            requires
                g > 0,
                g * k == 1 || g * k == -1,
        ;
    }
}

/// The expansion ends in lowest terms: its convergents keep
/// `n1 * d0 - n0 * d1 == ±1`, and the state keeps `N == n1 * n + n0 * d` and
/// `D == d1 * n + d0 * d` for the given fraction `N / D`, so no step wraps.
proof fn lemma_expansion_coprime(
    big_n: nat,
    big_d: nat,
    n: u64,
    d: u64,
    n0: u64,
    d0: u64,
    n1: u64,
    d1: u64,
    max_numerator: u64,
    max_denominator: u64,
)
    requires
        big_n == n1 * n + n0 * d,
        big_d == d1 * n + d0 * d,
        big_n <= u64::MAX,
        big_d <= u64::MAX,
        n1 * d0 - n0 * d1 == 1 || n1 * d0 - n0 * d1 == -1,
        n0 <= max_numerator,
        d0 <= max_denominator,
        n1 <= max_numerator,
        d1 <= max_denominator,
    ensures
        ({
            let (p, q) = expansion(n, d, n0, d0, n1, d1, max_numerator, max_denominator);
            gcd_of(p as nat, q as nat) == 1
        }),
    decreases d,
{
    lemma_mul_is_commutative(n0 as int, d1 as int);
    if d == 0 {
        lemma_coprime_of_det(n1 as nat, d1 as nat, d0 as int, n0 as int);
    } else {
        let a = (n / d) as u64;
        let r = (n % d) as u64;
        lemma_fundamental_div_mod(n as int, d as int);
        let n2t: nat = (n0 + a * n1) as nat;
        let d2t: nat = (d0 + a * d1) as nat;
        assert(big_n == n2t * d + n1 * r && big_d == d2t * d + d1 * r) by (nonlinear_arith)
            requires
                n == d * a + r,
                big_n == n1 * n + n0 * d,
                big_d == d1 * n + d0 * d,
                n2t == n0 + a * n1,
                d2t == d0 + a * d1,
        ;
        assert(n2t <= big_n && d2t <= big_d) by (nonlinear_arith)
            requires
                d >= 1,
                big_n == n2t * d + n1 * r,
                big_d == d2t * d + d1 * r,
        ;
        assert(a * n1 <= n2t && a * d1 <= d2t);
        lemma_wrapping_mul_exact(a, n1);
        lemma_wrapping_mul_exact(a, d1);
        let n2 = u64_specs::wrapping_add(n0, u64_specs::wrapping_mul(a, n1));
        let d2 = u64_specs::wrapping_add(d0, u64_specs::wrapping_mul(a, d1));
        assert(n2 == n2t && d2 == d2t);
        assert(n2 * d1 - n1 * d2 == -(n1 * d0 - n0 * d1)) by (nonlinear_arith)
            requires
                n2 == n0 + a * n1,
                d2 == d0 + a * d1,
        ;
        if n2 > max_numerator || d2 > max_denominator {
            let t = semiconvergent_index(n0, d0, n1, d1, max_numerator, max_denominator);
            if n1 != 0 {
                lemma_quotient_times_divisor(t as nat, (max_numerator - n0) as nat, n1 as nat);
            }
            if d1 != 0 {
                lemma_quotient_times_divisor(t as nat, (max_denominator - d0) as nat, d1 as nat);
            }
            lemma_wrapping_mul_exact(t, n1);
            lemma_wrapping_mul_exact(t, d1);
            let ps = n0 + t * n1;
            let qs = d0 + t * d1;
            assert(ps * d1 - qs * n1 == -(n1 * d0 - n0 * d1)) by (nonlinear_arith)
                requires
                    ps == n0 + t * n1,
                    qs == d0 + t * d1,
            ;
            lemma_coprime_of_det(ps as nat, qs as nat, d1 as int, n1 as int);
            lemma_coprime_of_det(n1 as nat, d1 as nat, d0 as int, n0 as int);
        } else {
            lemma_expansion_coprime(
                big_n,
                big_d,
                d,
                r,
                n1,
                d1,
                n2,
                d2,
                max_numerator,
                max_denominator,
            );
        }
    }
}

/// Law: when both bounds are at least one, the approximation is a fraction in
/// lowest terms.
pub proof fn lemma_best_approximation_lowest_terms(
    given_numerator: u64,
    given_denominator: u64,
    max_numerator: u64,
    max_denominator: u64,
)
    requires
        max_numerator >= 1,
        max_denominator >= 1,
    ensures
        ({
            let (p, q) = best_approximation(
                given_numerator,
                given_denominator,
                max_numerator,
                max_denominator,
            );
            gcd_of(p as nat, q as nat) == 1
        }),
{
    lemma_expansion_coprime(
        given_numerator as nat,
        given_denominator as nat,
        given_numerator,
        given_denominator,
        0,
        1,
        1,
        0,
        max_numerator,
        max_denominator,
    );
}

/// Absolute value.
pub open spec fn abs_int(x: int) -> int {
    if x >= 0 {
        x
    } else {
        -x
    }
}

/// `p / q` is at least as close to `n / d` as `a / b`: `|p/q - n/d| <= |a/b - n/d|`
/// with the fractions cleared, for positive `q` and `b`.
pub open spec fn at_least_as_close(p: int, q: int, a: int, b: int, n: int, d: int) -> bool {
    abs_int(p * d - q * n) * b <= abs_int(a * d - b * n) * q
}

/// Being at least as close is transitive through a fraction with positive
/// denominator.
proof fn lemma_closer_trans(
    p1: int,
    q1: int,
    p2: int,
    q2: int,
    p3: int,
    q3: int,
    n: int,
    d: int,
)
    requires
        q1 >= 0,
        q2 > 0,
        q3 >= 0,
        at_least_as_close(p1, q1, p2, q2, n, d),
        at_least_as_close(p2, q2, p3, q3, n, d),
    ensures
        at_least_as_close(p1, q1, p3, q3, n, d),
{
    let e1 = abs_int(p1 * d - q1 * n);
    let e2 = abs_int(p2 * d - q2 * n);
    let e3 = abs_int(p3 * d - q3 * n);
    assert(e1 * q3 <= e3 * q1) by (nonlinear_arith)
        requires
            e1 >= 0,
            e2 >= 0,
            e3 >= 0,
            q1 >= 0,
            q2 > 0,
            q3 >= 0,
            e1 * q2 <= e2 * q1,
            e2 * q3 <= e3 * q2,
    ;
}

/// The residuals of the two last convergents: `n1 * D - d1 * N == s * d` and
/// `n0 * D - d0 * N == -s * n`.
proof fn lemma_convergent_residuals(
    big_n: int,
    big_d: int,
    n: int,
    d: int,
    n0: int,
    d0: int,
    n1: int,
    d1: int,
    s: int,
)
    requires
        big_n == n1 * n + n0 * d,
        big_d == d1 * n + d0 * d,
        n1 * d0 - n0 * d1 == s,
    ensures
        n1 * big_d - d1 * big_n == s * d,
        n0 * big_d - d0 * big_n == -s * n,
{
    assert(n1 * big_d - d1 * big_n == s * d) by (nonlinear_arith)
        requires
            big_n == n1 * n + n0 * d,
            big_d == d1 * n + d0 * d,
            n1 * d0 - n0 * d1 == s,
    ;
    assert(n0 * big_d - d0 * big_n == -s * n) by (nonlinear_arith)
        requires
            big_n == n1 * n + n0 * d,
            big_d == d1 * n + d0 * d,
            n1 * d0 - n0 * d1 == s,
    ;
}

/// Every fraction is an integer combination of the two last convergents,
/// whose determinant is one in size.
proof fn lemma_convergent_coordinates(
    a: int,
    b: int,
    n0: int,
    d0: int,
    n1: int,
    d1: int,
    s: int,
)
    requires
        s == 1 || s == -1,
        n1 * d0 - n0 * d1 == s,
    ensures
        a == (s * (a * d0 - b * n0)) * n1 + (s * (b * n1 - a * d1)) * n0,
        b == (s * (a * d0 - b * n0)) * d1 + (s * (b * n1 - a * d1)) * d0,
{
    let u0 = a * d0 - b * n0;
    let v0 = b * n1 - a * d1;
    assert(u0 * n1 + v0 * n0 == a * (n1 * d0 - n0 * d1)) by (nonlinear_arith)
        requires
            u0 == a * d0 - b * n0,
            v0 == b * n1 - a * d1,
    ;
    assert(u0 * d1 + v0 * d0 == b * (n1 * d0 - n0 * d1)) by (nonlinear_arith)
        requires
            u0 == a * d0 - b * n0,
            v0 == b * n1 - a * d1,
    ;
    assert((s * u0) * n1 + (s * v0) * n0 == s * (u0 * n1 + v0 * n0)) by (nonlinear_arith);
    assert((s * u0) * d1 + (s * v0) * d0 == s * (u0 * d1 + v0 * d0)) by (nonlinear_arith);
    assert(s * (a * s) == a && s * (b * s) == b) by (nonlinear_arith)
        requires
            s == 1 || s == -1,
    ;
}

/// `x / y` is the largest `t` with `t * y <= x`.
proof fn lemma_floor_quotient(x: nat, y: nat)
    requires
        y > 0,
    ensures
        (x / y) * y <= x,
        x < (x / y + 1) * y,
{
    lemma_fundamental_div_mod(x as int, y as int);
    lemma_mod_pos_bound(x as int, y as int);
    lemma_mul_is_commutative(y as int, (x / y) as int);
    lemma_mul_is_distributive_add_other_way(y as int, (x / y) as int, 1);
}

/// The semiconvergent index keeps its semiconvergent within the bounds, and the
/// next one leaves them.
proof fn lemma_semiconvergent_index(
    n0: u64,
    d0: u64,
    n1: u64,
    d1: u64,
    max_numerator: u64,
    max_denominator: u64,
)
    requires
        n0 <= max_numerator,
        d0 <= max_denominator,
        n1 > 0 || d1 > 0,
    ensures
        ({
            let t = semiconvergent_index(n0, d0, n1, d1, max_numerator, max_denominator);
            &&& n0 + t * n1 <= max_numerator
            &&& d0 + t * d1 <= max_denominator
            &&& (n0 + (t + 1) * n1 > max_numerator || d0 + (t + 1) * d1 > max_denominator)
            &&& (n1 > 0 ==> t <= max_numerator)
            &&& (n1 == 0 ==> t <= max_denominator)
        }),
{
    let t = semiconvergent_index(n0, d0, n1, d1, max_numerator, max_denominator);
    let xn = (max_numerator - n0) as nat;
    let xd = (max_denominator - d0) as nat;
    if d1 != 0 {
        lemma_floor_quotient(xd, d1 as nat);
        lemma_div_nonincreasing(xd as int, d1 as int);
    }
    if n1 != 0 {
        lemma_floor_quotient(xn, n1 as nat);
        lemma_div_nonincreasing(xn as int, n1 as int);
    }
    let t_den: nat = if d1 != 0 { xd / d1 as nat } else { u64::MAX as nat };
    let t_num: nat = if n1 != 0 { xn / n1 as nat } else { u64::MAX as nat };
    assert(t <= t_den && t <= t_num);
    assert(t == t_den || t == t_num);
    if d1 != 0 {
        lemma_mul_inequality(t as int, t_den as int, d1 as int);
        if t == t_den {
            assert(d0 + (t + 1) * d1 > max_denominator);
        }
    } else {
        lemma_mul_basics(t as int);
        lemma_mul_basics((t + 1) as int);
    }
    if n1 != 0 {
        lemma_mul_inequality(t as int, t_num as int, n1 as int);
        if t == t_num {
            assert(n0 + (t + 1) * n1 > max_numerator);
        }
    } else {
        lemma_mul_basics(t as int);
        lemma_mul_basics((t + 1) as int);
    }
}

/// When the next convergent leaves the bounds, the step's answer is at least
/// as close to `N / D` as any fraction `a / b` within the bounds.
proof fn lemma_semiconvergent_closest(
    big_n: int,
    big_d: int,
    n: u64,
    d: u64,
    n0: u64,
    d0: u64,
    n1: u64,
    d1: u64,
    s: int,
    max_numerator: u64,
    max_denominator: u64,
    a: int,
    b: int,
)
    requires
        big_d > 0,
        big_n <= u64::MAX,
        big_d <= u64::MAX,
        big_n == n1 * n + n0 * d,
        big_d == d1 * n + d0 * d,
        s == 1 || s == -1,
        n1 * d0 - n0 * d1 == s,
        n0 <= max_numerator,
        n1 <= max_numerator,
        d0 <= max_denominator,
        d1 <= max_denominator,
        d1 >= 1 ==> d0 <= d1,
        max_numerator < 0x8000_0000_0000_0000,
        max_denominator < 0x8000_0000_0000_0000,
        d > 0,
        n0 + (n / d) * n1 > max_numerator || d0 + (n / d) * d1 > max_denominator,
        0 <= a <= max_numerator,
        1 <= b <= max_denominator,
    ensures
        ({
            let res = semiconvergent_step(
                n0,
                d0,
                n1,
                d1,
                (n / d) as u64,
                d,
                (n % d) as u64,
                max_numerator,
                max_denominator,
            );
            res.1 >= 1 && at_least_as_close(res.0 as int, res.1 as int, a, b, big_n, big_d)
        }),
{
    let ni = n as int;
    let di = d as int;
    let q = ni / di;
    let r = ni % di;
    lemma_fundamental_div_mod(ni, di);
    lemma_mod_pos_bound(ni, di);
    assert(n1 > 0 || d1 > 0) by {
        if n1 == 0 && d1 == 0 {
            assert(n1 * d0 - n0 * d1 == 0) by (nonlinear_arith)
                requires
                    n1 == 0,
                    d1 == 0,
            ;
        }
    }
    lemma_semiconvergent_index(n0, d0, n1, d1, max_numerator, max_denominator);
    let t = semiconvergent_index(n0, d0, n1, d1, max_numerator, max_denominator);
    let ti = t as int;
    // t < q: the semiconvergent of index q leaves the bounds
    assert(ti < q) by {
        if ti >= q {
            lemma_mul_inequality(q, ti, n1 as int);
            lemma_mul_inequality(q, ti, d1 as int);
        }
    }
    assert(ti * di <= ni) by {
        lemma_mul_inequality(ti, q, di);
        lemma_mul_is_commutative(di, q);
    }
    // no wrapping in the step
    lemma_wrapping_mul_exact(t, 2);
    assert((d0 as int) * di <= big_d && (d1 as int) * r <= big_d) by (nonlinear_arith)
        requires
            big_d == (d1 as int) * ni + (d0 as int) * di,
            ni == di * q + r,
            q >= 0,
            0 <= r < di,
            d1 >= 0,
            d0 >= 0,
    ;
    lemma_wrapping_mul_exact(d0, d);
    lemma_wrapping_mul_exact(d1, r as u64);
    lemma_wrapping_mul_exact(t, n1);
    lemma_wrapping_mul_exact(t, d1);
    let choose = d1 == 0 || 2 * ti > q || (2 * ti == q && d0 * di > d1 * r);
    let sp = n0 + ti * n1;
    let sq = d0 + ti * d1;
    // residuals of the convergents, the semiconvergent and a / b
    lemma_convergent_residuals(
        big_n,
        big_d,
        ni,
        di,
        n0 as int,
        d0 as int,
        n1 as int,
        d1 as int,
        s,
    );
    let e_s = ni - ti * di;
    assert(abs_int(sp * big_d - sq * big_n) == e_s) by {
        assert(sp * big_d - sq * big_n == (n0 * big_d - d0 * big_n) + ti * (n1 * big_d - d1
            * big_n)) by (nonlinear_arith)
            requires
                sp == n0 + ti * n1,
                sq == d0 + ti * d1,
        ;
        assert(-s * ni + ti * (s * di) == -s * e_s) by (nonlinear_arith)
            requires
                e_s == ni - ti * di,
        ;
        assert(abs_int(-s * e_s) == e_s) by (nonlinear_arith)
            requires
                s == 1 || s == -1,
                e_s >= 0,
        ;
    }
    assert(abs_int(n1 * big_d - d1 * big_n) == di) by (nonlinear_arith)
        requires
            n1 * big_d - d1 * big_n == s * di,
            s == 1 || s == -1,
            di > 0,
    ;
    assert(abs_int(n0 * big_d - d0 * big_n) == ni) by (nonlinear_arith)
        requires
            n0 * big_d - d0 * big_n == -s * ni,
            s == 1 || s == -1,
            ni >= 0,
    ;
    // the choice between the semiconvergent and the last convergent
    if choose && d1 >= 1 {
        assert(e_s * d1 <= di * sq) by (nonlinear_arith)
            requires
                ni == di * q + r,
                0 <= r < di,
                e_s == ni - ti * di,
                sq == d0 + ti * d1,
                d1 >= 1,
                d0 >= 0,
                2 * ti > q || (2 * ti == q && d0 * di > d1 * r),
        ;
        assert(at_least_as_close(sp, sq, n1 as int, d1 as int, big_n, big_d));
    }
    if !choose {
        assert(di * sq <= e_s * d1) by (nonlinear_arith)
            requires
                ni == di * q + r,
                0 <= r < di,
                e_s == ni - ti * di,
                sq == d0 + ti * d1,
                d1 >= 1,
                d0 <= d1,
                2 * ti < q || (2 * ti == q && d0 * di <= d1 * r),
        ;
        assert(at_least_as_close(n1 as int, d1 as int, sp, sq, big_n, big_d));
    }
    if choose {
        if d1 == 0 {
            assert(d0 == 1) by (nonlinear_arith)
                requires
                    n1 * d0 - n0 * d1 == s,
                    d1 == 0,
                    s == 1 || s == -1,
                    n1 >= 0,
                    d0 >= 0,
            ;
        } else {
            assert(ti >= 1);
            lemma_mul_increases(ti, d1 as int);
            lemma_mul_is_commutative(ti, d1 as int);
        }
        assert(sq >= 1);
    }
    // the fraction a / b in the basis of the two last convergents
    let u = s * (a * d0 - b * n0);
    let v = s * (b * n1 - a * d1);
    lemma_convergent_coordinates(a, b, n0 as int, d0 as int, n1 as int, d1 as int, s);
    let e_a = abs_int(a * big_d - b * big_n);
    let rc = n1 * big_d - d1 * big_n;
    let r0 = n0 * big_d - d0 * big_n;
    lemma_combination_residual(u, v, n1 as int, d1 as int, n0 as int, d0 as int, big_n, big_d);
    assert(u * rc + v * r0 == s * (u * di - v * ni)) by (nonlinear_arith)
        requires
            rc == s * di,
            r0 == -s * ni,
    ;
    assert(e_a == abs_int(u * di - v * ni)) by (nonlinear_arith)
        requires
            a * big_d - b * big_n == s * (u * di - v * ni),
            e_a == abs_int(a * big_d - b * big_n),
            s == 1 || s == -1,
    ;
    if v >= 1 && u >= 0 {
        // beyond index t the combination would leave the bounds
        assert(u <= ti * v) by {
            if u >= ti * v + 1 {
                assert(a >= n0 + (ti + 1) * n1 && b >= d0 + (ti + 1) * d1) by (nonlinear_arith)
                    requires
                        a == u * n1 + v * n0,
                        b == u * d1 + v * d0,
                        u >= ti * v + 1,
                        v >= 1,
                        ti >= 0,
                        n0 >= 0,
                        n1 >= 0,
                        d0 >= 0,
                        d1 >= 1 || d1 == 0,
                ;
            }
        }
        assert(v * ni - u * di >= 0 && e_a == v * ni - u * di) by (nonlinear_arith)
            requires
                u <= ti * v,
                ti * di <= ni,
                v >= 1,
                di > 0,
                e_a == abs_int(u * di - v * ni),
        ;
        assert(sq >= 1) by {
            if sq == 0 {
                assert(b == 0) by (nonlinear_arith)
                    requires
                        sq == d0 + ti * d1,
                        sq == 0,
                        b == u * d1 + v * d0,
                        0 <= u <= ti * v,
                        d0 >= 0,
                        d1 >= 0,
                        ti >= 0,
                ;
            }
        }
        lemma_semiconvergent_margin(u, v, ti, ni, di, n1 as int, d1 as int, n0 as int, d0 as int);
        lemma_mul_nonnegative(ti * v - u, big_d);
        assert(at_least_as_close(sp, sq, a, b, big_n, big_d));
        if !choose {
            lemma_closer_trans(n1 as int, d1 as int, sp, sq, a, b, big_n, big_d);
        }
    } else if v <= 0 && u >= 1 {
        assert(d1 >= 1) by (nonlinear_arith)
            requires
                b == u * d1 + v * d0,
                b >= 1,
                v <= 0,
                d0 >= 0,
                d1 >= 0,
        ;
        assert(e_a == u * di - v * ni) by (nonlinear_arith)
            requires
                u >= 1,
                v <= 0,
                di > 0,
                ni >= 0,
                e_a == abs_int(u * di - v * ni),
        ;
        assert(di * b <= e_a * d1) by (nonlinear_arith)
            requires
                b == u * d1 + v * d0,
                e_a == u * di - v * ni,
                v <= 0,
                d0 >= 0,
                d1 >= 1,
                di > 0,
                ni >= 0,
        ;
        assert(at_least_as_close(n1 as int, d1 as int, a, b, big_n, big_d));
        if choose {
            lemma_closer_trans(sp, sq, n1 as int, d1 as int, a, b, big_n, big_d);
        }
    } else if v >= 1 && u <= 0 {
        assert(d0 >= 1) by (nonlinear_arith)
            requires
                b == u * d1 + v * d0,
                b >= 1,
                u <= 0,
                d0 >= 0,
                d1 >= 0,
        ;
        assert(e_a == v * ni - u * di) by (nonlinear_arith)
            requires
                u <= 0,
                v >= 1,
                di > 0,
                ni >= 0,
                e_a == abs_int(u * di - v * ni),
        ;
        assert(ni * b <= e_a * d0) by (nonlinear_arith)
            requires
                b == u * d1 + v * d0,
                e_a == v * ni - u * di,
                u <= 0,
                d0 >= 1,
                d1 >= 0,
                di > 0,
                ni >= 0,
        ;
        assert(at_least_as_close(n0 as int, d0 as int, a, b, big_n, big_d));
        assert(e_s * d0 <= ni * sq) by (nonlinear_arith)
            requires
                e_s == ni - ti * di,
                sq == d0 + ti * d1,
                ti >= 0,
                di > 0,
                d0 >= 0,
                d1 >= 0,
                ni >= 0,
        ;
        assert(at_least_as_close(sp, sq, n0 as int, d0 as int, big_n, big_d));
        lemma_closer_trans(sp, sq, n0 as int, d0 as int, a, b, big_n, big_d);
        if !choose {
            lemma_closer_trans(n1 as int, d1 as int, sp, sq, a, b, big_n, big_d);
        }
    } else {
        assert(b <= 0) by (nonlinear_arith)
            requires
                b == u * d1 + v * d0,
                u <= 0,
                v <= 0,
                d0 >= 0,
                d1 >= 0,
        ;
    }
}

/// The residual of a combination of two fractions is the same combination of
/// their residuals.
proof fn lemma_combination_residual(
    u: int,
    v: int,
    p1: int,
    q1: int,
    p0: int,
    q0: int,
    big_n: int,
    big_d: int,
)
    ensures
        (u * p1 + v * p0) * big_d - (u * q1 + v * q0) * big_n == u * (p1 * big_d - q1 * big_n) + v
            * (p0 * big_d - q0 * big_n),
{
    assert((u * p1 + v * p0) * big_d == u * (p1 * big_d) + v * (p0 * big_d)) by (nonlinear_arith);
    assert((u * q1 + v * q0) * big_n == u * (q1 * big_n) + v * (q0 * big_n)) by (nonlinear_arith);
    assert(u * (p1 * big_d) - u * (q1 * big_n) == u * (p1 * big_d - q1 * big_n)) by (nonlinear_arith);
    assert(v * (p0 * big_d) - v * (q0 * big_n) == v * (p0 * big_d - q0 * big_n)) by (nonlinear_arith);
}

/// How much closer the semiconvergent of index `t` is than the combination
/// `u * (n1, d1) + v * (n0, d0)`, in cleared form.
proof fn lemma_semiconvergent_margin(
    u: int,
    v: int,
    t: int,
    n: int,
    d: int,
    n1: int,
    d1: int,
    n0: int,
    d0: int,
)
    ensures
        (v * n - u * d) * (d0 + t * d1) - (n - t * d) * (u * d1 + v * d0) == (t * v - u) * (d1 * n
            + d0 * d),
{
    let w = t * v - u;
    let x = v * n - u * d;
    let y = n - t * d;
    let q = d0 + t * d1;
    let b = u * d1 + v * d0;
    assert(x == v * y + w * d) by (nonlinear_arith)
        requires
            x == v * n - u * d,
            y == n - t * d,
            w == t * v - u,
    ;
    assert(b == v * q - w * d1) by (nonlinear_arith)
        requires
            b == u * d1 + v * d0,
            q == d0 + t * d1,
            w == t * v - u,
    ;
    assert((v * y + w * d) * q == v * y * q + w * d * q) by (nonlinear_arith);
    assert(y * (v * q - w * d1) == v * y * q - w * d1 * y) by (nonlinear_arith);
    assert(w * d * q + w * d1 * y == w * (d * q + d1 * y)) by (nonlinear_arith);
    assert(d * q + d1 * y == d1 * n + d0 * d) by (nonlinear_arith)
        requires
            q == d0 + t * d1,
            y == n - t * d,
    ;
}

/// Along the expansion, the answer is at least as close to `N / D` as any
/// fraction `a / b` within the bounds. The state keeps
/// `N == n1 * n + n0 * d`, `D == d1 * n + d0 * d`, the determinant
/// `n1 * d0 - n0 * d1 == s` of one in size, and convergents within the bounds.
proof fn lemma_expansion_closest(
    big_n: int,
    big_d: int,
    n: u64,
    d: u64,
    n0: u64,
    d0: u64,
    n1: u64,
    d1: u64,
    s: int,
    max_numerator: u64,
    max_denominator: u64,
    a: int,
    b: int,
)
    requires
        big_d > 0,
        big_n <= u64::MAX,
        big_d <= u64::MAX,
        big_n == n1 * n + n0 * d,
        big_d == d1 * n + d0 * d,
        s == 1 || s == -1,
        n1 * d0 - n0 * d1 == s,
        n0 <= max_numerator,
        n1 <= max_numerator,
        d0 <= max_denominator,
        d1 <= max_denominator,
        d1 >= 1 ==> d0 <= d1 && d < n,
        max_numerator < 0x8000_0000_0000_0000,
        max_denominator < 0x8000_0000_0000_0000,
        0 <= a <= max_numerator,
        1 <= b <= max_denominator,
    ensures
        expansion(n, d, n0, d0, n1, d1, max_numerator, max_denominator).1 >= 1,
        at_least_as_close(
            expansion(n, d, n0, d0, n1, d1, max_numerator, max_denominator).0 as int,
            expansion(n, d, n0, d0, n1, d1, max_numerator, max_denominator).1 as int,
            a,
            b,
            big_n,
            big_d,
        ),
    decreases d,
{
    if d == 0 {
        assert(d1 >= 1 && n1 * big_d - d1 * big_n == 0) by (nonlinear_arith)
            requires
                d == 0,
                big_n == n1 * n + n0 * d,
                big_d == d1 * n + d0 * d,
                big_d > 0,
                d1 >= 0,
        ;
        assert(abs_int(n1 * big_d - d1 * big_n) == 0);
        lemma_mul_basics(b);
        assert(abs_int(a * big_d - b * big_n) * d1 >= 0) by (nonlinear_arith)
            requires
                d1 >= 1,
        ;
    } else {
        let ni = n as int;
        let di = d as int;
        let q = ni / di;
        let r = ni % di;
        lemma_fundamental_div_mod(ni, di);
        lemma_mod_pos_bound(ni, di);
        let n2t = n0 + q * n1;
        let d2t = d0 + q * d1;
        assert(big_n == n2t * di + n1 * r && big_d == d2t * di + d1 * r) by (nonlinear_arith)
            requires
                ni == di * q + r,
                big_n == n1 * ni + n0 * di,
                big_d == d1 * ni + d0 * di,
                n2t == n0 + q * n1,
                d2t == d0 + q * d1,
        ;
        assert(n2t <= big_n && d2t <= big_d && q >= 0) by (nonlinear_arith)
            requires
                big_n == n2t * di + n1 * r,
                big_d == d2t * di + d1 * r,
                di >= 1,
                r >= 0,
                n1 >= 0,
                d1 >= 0,
                n2t >= 0,
                d2t >= 0,
                q == ni / di,
                ni >= 0,
        ;
        lemma_wrapping_mul_exact(q as u64, n1);
        lemma_wrapping_mul_exact(q as u64, d1);
        let n2 = u64_specs::wrapping_add(n0, u64_specs::wrapping_mul(q as u64, n1));
        let d2 = u64_specs::wrapping_add(d0, u64_specs::wrapping_mul(q as u64, d1));
        assert(n2 == n2t && d2 == d2t);
        if n2 > max_numerator || d2 > max_denominator {
            lemma_semiconvergent_closest(
                big_n,
                big_d,
                n,
                d,
                n0,
                d0,
                n1,
                d1,
                s,
                max_numerator,
                max_denominator,
                a,
                b,
            );
        } else {
            assert(n2 * d1 - n1 * d2 == -s) by (nonlinear_arith)
                requires
                    n2 == n0 + q * n1,
                    d2 == d0 + q * d1,
                    n1 * d0 - n0 * d1 == s,
            ;
            if d1 >= 1 {
                assert(q >= 1) by {
                    lemma_div_is_ordered(di, ni, di);
                    lemma_div_by_self(di);
                }
                assert(d2 >= d1) by (nonlinear_arith)
                    requires
                        d2 == d0 + q * d1,
                        q >= 1,
                        d0 >= 0,
                        d1 >= 0,
                ;
            }
            lemma_expansion_closest(
                big_n,
                big_d,
                d,
                r as u64,
                n1,
                d1,
                n2,
                d2,
                -s,
                max_numerator,
                max_denominator,
                a,
                b,
            );
        }
    }
}

/// Law: with bounds from 1 to `2^63 - 1`, no fraction `a / b` within the
/// bounds is closer to `given_numerator / given_denominator` than the
/// approximation, whose denominator is positive.
pub proof fn lemma_best_approximation_closest(
    given_numerator: u64,
    given_denominator: u64,
    max_numerator: u64,
    max_denominator: u64,
    a: nat,
    b: nat,
)
    requires
        given_denominator > 0,
        1 <= max_numerator < 0x8000_0000_0000_0000,
        1 <= max_denominator < 0x8000_0000_0000_0000,
        a <= max_numerator,
        1 <= b <= max_denominator,
    ensures
        ({
            let best = best_approximation(
                given_numerator,
                given_denominator,
                max_numerator,
                max_denominator,
            );
            &&& best.1 >= 1
            &&& at_least_as_close(
                best.0 as int,
                best.1 as int,
                a as int,
                b as int,
                given_numerator as int,
                given_denominator as int,
            )
        }),
{
    lemma_expansion_closest(
        given_numerator as int,
        given_denominator as int,
        given_numerator,
        given_denominator,
        0,
        1,
        1,
        0,
        1,
        max_numerator,
        max_denominator,
        a as int,
        b as int,
    );
}

} // verus!
