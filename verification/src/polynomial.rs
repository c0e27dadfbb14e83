//! Evaluation of a polynomial with fractional coefficients in integer
//! arithmetic.
use vstd::prelude::*;
use vstd::arithmetic::div_mod::*;
use vstd::arithmetic::mul::*;
use vstd::arithmetic::power::*;
use vstd::wrapping::isize_specs;
use crate::reciprocal::lemma_div_add_multiple;

verus! {

/// One term `coef * (data / divider)^deg / divider_leftover`.
#[derive(Clone, Copy, Debug, PartialEq, Eq, Structural)]
pub struct PolynomialTerm {
    pub deg: u32,
    pub coef: isize,
    pub divider: isize,
    pub divider_leftover: isize,
}

/// A polynomial: its terms, up to the first one of degree zero, summed and
/// divided by `total_divider`.
pub struct Polynomial {
    pub total_divider: isize,
    pub terms: Vec<PolynomialTerm>,
}

/// Quotient of `x` by `d`, rounded towards zero.
pub open spec fn div_trunc(x: int, d: int) -> int {
    if x == 0 {
        0
    } else if x > 0 && d > 0 {
        x / d
    } else if x < 0 && d < 0 {
        (-x) / (-d)
    } else if x < 0 {
        -((-x) / d)
    } else {
        -(x / (-d))
    }
}

/// Remainder of `x` by `d` that goes with `div_trunc`: it takes the sign of `x`.
pub open spec fn rem_trunc(x: int, d: int) -> int {
    if x == 0 {
        0
    } else if x > 0 && d > 0 {
        x % d
    } else if x < 0 && d < 0 {
        -((-x) % (-d))
    } else if x < 0 {
        -((-x) % d)
    } else {
        x % (-d)
    }
}

/// `isize::wrapping_div` for a nonzero divisor: `isize::MIN / -1` wraps to
/// `isize::MIN`.
pub open spec fn wrapping_div_spec(x: isize, d: isize) -> isize {
    if x == isize::MIN && d == -1 {
        isize::MIN
    } else {
        div_trunc(x as int, d as int) as isize
    }
}

/// `isize::wrapping_rem` for a nonzero divisor: `isize::MIN % -1` is zero.
pub open spec fn wrapping_rem_spec(x: isize, d: isize) -> isize {
    if x == isize::MIN && d == -1 {
        0
    } else {
        rem_trunc(x as int, d as int) as isize
    }
}

/// Size bounds on `x / d` for `|d| >= 1`, by the signs of the arguments.
proof fn lemma_div_abs_bounds(a: int, b: int)
    requires
        a > 0,
        b > 0,
    ensures
        0 <= a / b <= a,
        b == 1 ==> a / b == a,
        b > 1 ==> a / b < a,
{
    lemma_div_nonincreasing(a, b);
    lemma_div_pos_is_pos(a, b);
    if b == 1 {
        lemma_div_basics(a);
    } else {
        lemma_div_decreases(a, b);
    }
}

/// The quotient rounded towards zero is no larger in size than the dividend,
/// and strictly smaller for divisors other than 1 and -1.
proof fn lemma_div_trunc_bounds(x: int, d: int)
    requires
        d != 0,
    ensures
        x >= 0 ==> (0 <= div_trunc(x, d) <= x || -x <= div_trunc(x, d) <= 0),
        x < 0 ==> (x <= div_trunc(x, d) <= 0 || 0 <= div_trunc(x, d) <= -x),
        (d == 1 || d == -1) ==> div_trunc(x, d) == x * d,
        (d > 1 || d < -1) && x != 0 ==> (-x < div_trunc(x, d) < x || x < div_trunc(x, d) < -x),
        x > 0 ==> (d > 0 ==> div_trunc(x, d) >= 0) && (d < 0 ==> div_trunc(x, d) <= 0),
        x < 0 ==> (d > 0 ==> div_trunc(x, d) <= 0) && (d < 0 ==> div_trunc(x, d) >= 0),
{
    if x > 0 && d > 0 {
        lemma_div_abs_bounds(x, d);
    } else if x < 0 && d < 0 {
        lemma_div_abs_bounds(-x, -d);
    } else if x < 0 {
        lemma_div_abs_bounds(-x, d);
    } else if x > 0 {
        lemma_div_abs_bounds(x, -d);
    }
    if d == 1 || d == -1 {
        assert(x * d == if d == 1 { x } else { -x }) by (nonlinear_arith)
            requires
                d == 1 || d == -1,
        ;
    }
}

/// The remainder rounded towards zero is smaller in size than the divisor.
proof fn lemma_rem_trunc_bounds(x: int, d: int)
    requires
        d != 0,
    ensures
        -d < rem_trunc(x, d) < d || d < rem_trunc(x, d) < -d,
{
    if x > 0 && d > 0 {
        lemma_mod_pos_bound(x, d);
    } else if x < 0 && d < 0 {
        lemma_mod_pos_bound(-x, -d);
    } else if x < 0 {
        lemma_mod_pos_bound(-x, d);
    } else if x > 0 {
        lemma_mod_pos_bound(x, -d);
    }
}

/// `x.wrapping_div(d)` for a nonzero divisor.
fn wrapping_div(x: isize, d: isize) -> (r: isize)
    requires
        d != 0,
    ensures
        r == wrapping_div_spec(x, d),
{
    proof {
        lemma_div_trunc_bounds(x as int, d as int);
    }
    match x.checked_div(d) {
        Some(v) => v,
        None => isize::MIN,
    }
}

/// `x.wrapping_rem(d)` for a nonzero divisor.
fn wrapping_rem(x: isize, d: isize) -> (r: isize)
    requires
        d != 0,
    ensures
        r == wrapping_rem_spec(x, d),
{
    proof {
        lemma_rem_trunc_bounds(x as int, d as int);
    }
    match x.checked_rem(d) {
        Some(v) => v,
        None => 0,
    }
}

/// `x * n / d` computed as `(x / d) * n + ((x % d) * n) / d`, with wrapping
/// arithmetic; zero when `d` is zero.
pub open spec fn mult_frac_spec(x: isize, n: isize, d: isize) -> isize {
    if d == 0 {
        0
    } else {
        let q = wrapping_div_spec(x, d);
        let r = wrapping_rem_spec(x, d);
        isize_specs::wrapping_add(
            isize_specs::wrapping_mul(q, n),
            wrapping_div_spec(isize_specs::wrapping_mul(r, n), d),
        )
    }
}

/// Multiplies `x` by the fraction `n / d`, dividing first to limit overflow.
pub fn mult_frac(x: isize, n: isize, d: isize) -> (r: isize)
    ensures
        r == mult_frac_spec(x, n, d),
{
    if d == 0 {
        return 0;
    }
    let q = wrapping_div(x, d);
    let r = wrapping_rem(x, d);
    q.wrapping_mul(n).wrapping_add(wrapping_div(r.wrapping_mul(n), d))
}

/// `tmp` multiplied `k` times by `data / divider` with `mult_frac`.
pub open spec fn scaled_power(tmp: isize, data: isize, divider: isize, k: nat) -> isize
    decreases k,
{
    if k == 0 {
        tmp
    } else {
        mult_frac_spec(scaled_power(tmp, data, divider, (k - 1) as nat), data, divider)
    }
}

/// The value of one term at `data`: the coefficient scaled `deg` times, then
/// divided by the leftover divider (taken as one when zero).
pub open spec fn term_value(t: PolynomialTerm, data: isize) -> isize {
    let leftover: isize = if t.divider_leftover == 0 {
        1
    } else {
        t.divider_leftover
    };
    wrapping_div_spec(scaled_power(t.coef, data, t.divider, t.deg as nat), leftover)
}

/// `acc` plus the values of the terms from index `i` up to and including the
/// first one of degree zero, with wrapping addition.
pub open spec fn terms_sum(terms: Seq<PolynomialTerm>, data: isize, i: nat, acc: isize) -> isize
    decreases terms.len() - i,
{
    if i >= terms.len() {
        acc
    } else {
        let acc1 = isize_specs::wrapping_add(acc, term_value(terms[i as int], data));
        if terms[i as int].deg == 0 {
            acc1
        } else {
            terms_sum(terms, data, i + 1, acc1)
        }
    }
}

/// The terms end with one of degree zero.
pub open spec fn has_last_term(terms: Seq<PolynomialTerm>) -> bool {
    exists|j: int| 0 <= j < terms.len() && #[trigger] terms[j].deg == 0
}

/// The value of the polynomial at `data`: the sum of its terms divided by the
/// total divider (taken as one when zero).
pub open spec fn polynomial_value(p: Polynomial, data: isize) -> isize {
    let total: isize = if p.total_divider == 0 {
        1
    } else {
        p.total_divider
    };
    wrapping_div_spec(terms_sum(p.terms@, data, 0, 0), total)
}

/// Evaluates the polynomial at `data` in integer arithmetic; zero when there
/// is no polynomial.
pub fn polynomial_calc(poly: Option<&Polynomial>, data: isize) -> (r: isize)
    requires
        poly matches Some(p) ==> has_last_term(p.terms@),
    ensures
        r == match poly {
            Some(p) => polynomial_value(*p, data),
            None => 0,
        },
{
    let p = match poly {
        Some(p) => p,
        None => {
            return 0;
        },
    };

    let total_divider = if p.total_divider == 0 {
        1
    } else {
        p.total_divider
    };

    let mut idx: usize = 0;
    let mut ret: isize = 0;

    loop
        invariant_except_break
            idx < p.terms.len(),
            exists|j: int| idx <= j < p.terms@.len() && #[trigger] p.terms@[j].deg == 0,
            terms_sum(p.terms@, data, idx as nat, ret) == terms_sum(p.terms@, data, 0, 0),
        ensures
            ret == terms_sum(p.terms@, data, 0, 0),
        decreases p.terms.len() - idx,
    {
        let term = &p.terms[idx];
        let mut tmp = term.coef;

        let mut k: u32 = 0;
        while k < term.deg
            invariant
                k <= term.deg,
                tmp == scaled_power(term.coef, data, term.divider, k as nat),
            decreases term.deg - k,
        {
            tmp = mult_frac(tmp, data, term.divider);
            k += 1;
        }

        let leftover = if term.divider_leftover == 0 {
            1
        } else {
            term.divider_leftover
        };
        ret = ret.wrapping_add(wrapping_div(tmp, leftover));

        if term.deg == 0 {
            break;
        }

        idx += 1;
    }

    wrapping_div(ret, total_divider)
}

/// A wrapping `isize` result that stays in range is the exact value.
proof fn lemma_isize_crop_exact(v: int)
    requires
        isize::MIN <= v <= isize::MAX,
    ensures
        isize_specs::signed_crop(v) == v,
{
    let big_r = (usize::MAX - usize::MIN + 1) as int;
    assert(big_r == 2 * (isize::MAX as int) + 2);
    if v >= 0 {
        lemma_small_mod(v as nat, big_r as nat);
    } else {
        lemma_fundamental_div_mod_converse(v, big_r, -1, v + big_r);
    }
}

/// `div_trunc` and `rem_trunc` split the dividend: `x == q * d + r`, where `q * d`
/// and `r` both have the sign of `x` (or are zero).
proof fn lemma_trunc_split(x: int, d: int)
    requires
        d != 0,
    ensures
        x == div_trunc(x, d) * d + rem_trunc(x, d),
        x >= 0 ==> div_trunc(x, d) * d >= 0 && rem_trunc(x, d) >= 0,
        x <= 0 ==> div_trunc(x, d) * d <= 0 && rem_trunc(x, d) <= 0,
{
    let q = div_trunc(x, d);
    let r = rem_trunc(x, d);
    if x > 0 && d > 0 {
        lemma_fundamental_div_mod(x, d);
        lemma_mod_pos_bound(x, d);
        lemma_div_pos_is_pos(x, d);
        assert(q * d >= 0) by (nonlinear_arith)
            requires
                q >= 0,
                d > 0,
        ;
    } else if x < 0 && d < 0 {
        lemma_fundamental_div_mod(-x, -d);
        lemma_mod_pos_bound(-x, -d);
        lemma_div_pos_is_pos(-x, -d);
        assert(x == q * d + r && q * d <= 0) by (nonlinear_arith)
            requires
                -x == (-d) * ((-x) / (-d)) + (-x) % (-d),
                q == (-x) / (-d),
                r == -((-x) % (-d)),
                q >= 0,
                d < 0,
        ;
    } else if x < 0 {
        lemma_fundamental_div_mod(-x, d);
        lemma_mod_pos_bound(-x, d);
        lemma_div_pos_is_pos(-x, d);
        assert(x == q * d + r && q * d <= 0) by (nonlinear_arith)
            requires
                -x == d * ((-x) / d) + (-x) % d,
                q == -((-x) / d),
                r == -((-x) % d),
                (-x) / d >= 0,
                d > 0,
        ;
    } else if x > 0 {
        lemma_fundamental_div_mod(x, -d);
        lemma_mod_pos_bound(x, -d);
        lemma_div_pos_is_pos(x, -d);
        assert(x == q * d + r && q * d >= 0) by (nonlinear_arith)
            requires
                x == (-d) * (x / (-d)) + x % (-d),
                q == -(x / (-d)),
                r == x % (-d),
                x / (-d) >= 0,
                d < 0,
        ;
    }
}

/// Truncating division is odd in the dividend.
proof fn lemma_div_trunc_neg(x: int, d: int)
    requires
        d != 0,
    ensures
        div_trunc(-x, d) == -div_trunc(x, d),
{
}

/// A nonnegative dividend: `div_trunc` is Euclidean division by `|d|`, signed.
proof fn lemma_div_trunc_nonneg(x: int, d: int)
    requires
        d != 0,
        x >= 0,
    ensures
        d > 0 ==> div_trunc(x, d) == x / d,
        d < 0 ==> div_trunc(x, d) == -(x / (-d)),
{
    if x == 0 {
        if d > 0 {
            lemma_basic_div(0, d);
        } else {
            lemma_basic_div(0, -d);
        }
    }
}

/// Splitting off a multiple of the divisor whose product with it has the same
/// sign as the rest: `div_trunc(a * d + b, d) == a + div_trunc(b, d)`.
proof fn lemma_div_trunc_add_multiple(a: int, b: int, d: int)
    requires
        d != 0,
        (a * d >= 0 && b >= 0) || (a * d <= 0 && b <= 0),
    ensures
        div_trunc(a * d + b, d) == a + div_trunc(b, d),
{
    if a * d >= 0 && b >= 0 {
        lemma_div_trunc_nonneg(a * d + b, d);
        lemma_div_trunc_nonneg(b, d);
        if d > 0 {
            assert(a >= 0) by (nonlinear_arith)
                requires
                    a * d >= 0,
                    d > 0,
            ;
            lemma_div_add_multiple(a, b, d);
            lemma_mul_is_commutative(a, d);
        } else {
            assert(-a >= 0) by (nonlinear_arith)
                requires
                    a * d >= 0,
                    d < 0,
            ;
            lemma_div_add_multiple(-a, b, -d);
            assert((-d) * (-a) == a * d) by (nonlinear_arith);
        }
    } else {
        assert((-a) * d >= 0 && -b >= 0) by (nonlinear_arith)
            requires
                a * d <= 0,
                b <= 0,
        ;
        assert(-(a * d + b) == (-a) * d + (-b)) by (nonlinear_arith);
        lemma_div_trunc_nonneg((-a) * d + (-b), d);
        lemma_div_trunc_nonneg(-b, d);
        if d > 0 {
            assert(-a >= 0) by (nonlinear_arith)
                requires
                    (-a) * d >= 0,
                    d > 0,
            ;
            lemma_div_add_multiple(-a, -b, d);
            lemma_mul_is_commutative(-a, d);
        } else {
            assert(a >= 0) by (nonlinear_arith)
                requires
                    (-a) * d >= 0,
                    d < 0,
            ;
            lemma_div_add_multiple(a, -b, -d);
            assert((-d) * a == (-a) * d) by (nonlinear_arith);
        }
        lemma_div_trunc_neg(a * d + b, d);
        lemma_div_trunc_neg(b, d);
    }
}

/// Law: `mult_frac` computes `x * n / d` rounded towards zero exactly, even
/// when `x * n` itself does not fit, as long as the two partial products
/// `(x / d) * n` and `(x % d) * n` and the result fit in `isize`.
pub proof fn lemma_mult_frac_exact(x: isize, n: isize, d: isize)
    requires
        d != 0,
        isize::MIN <= div_trunc(x as int, d as int) * n <= isize::MAX,
        isize::MIN <= rem_trunc(x as int, d as int) * n <= isize::MAX,
        isize::MIN <= div_trunc(x as int, d as int) * n + div_trunc(
            rem_trunc(x as int, d as int) * n,
            d as int,
        ) <= isize::MAX,
    ensures
        mult_frac_spec(x, n, d) == div_trunc(x * n, d as int),
{
    let xi = x as int;
    let ni = n as int;
    let di = d as int;
    let big_r = (usize::MAX - usize::MIN + 1) as int;
    assert(big_r == 2 * (isize::MAX as int) + 2);
    lemma_div_trunc_bounds(xi, di);
    if x == isize::MIN && d == -1 {
        // the quotient 2^(w-1) only fits times 0 or -1
        assert(div_trunc(xi, di) == -xi);
        assert(ni == 0 || ni == -1) by (nonlinear_arith)
            requires
                isize::MIN <= (-xi) * ni <= isize::MAX,
                xi == isize::MIN,
                isize::MIN == -isize::MAX - 1,
                isize::MAX > 0,
        ;
        lemma_isize_crop_exact(0);
        lemma_fundamental_div_mod_converse(-xi, 1, -xi, 0);
        assert(rem_trunc(xi, di) == 0);
        assert(0int * ni == 0) by (nonlinear_arith);
        lemma_div_trunc_nonneg(0, di);
        if ni == 0 {
            assert(xi * ni == 0 && isize::MIN as int * ni == 0) by (nonlinear_arith)
                requires
                    ni == 0,
            ;
        } else {
            assert(xi * ni == -xi && isize::MIN as int * ni == -xi) by (nonlinear_arith)
                requires
                    ni == -1,
                    xi == isize::MIN,
            ;
            lemma_fundamental_div_mod_converse(-xi, big_r, 0, -xi);
            assert(isize_specs::signed_crop(-xi) == xi);
            assert(div_trunc(-xi, di) == xi);
        }
    } else {
        let q = div_trunc(xi, di);
        let r = rem_trunc(xi, di);
        lemma_trunc_split(xi, di);
        lemma_rem_trunc_bounds(xi, di);
        let a = q * ni;
        let b = r * ni;
        lemma_isize_crop_exact(a);
        lemma_isize_crop_exact(b);
        assert(isize_specs::wrapping_mul(q as isize, n) == a);
        assert(isize_specs::wrapping_mul(r as isize, n) == b);
        // b / d cannot overflow: d == -1 leaves no remainder
        if di == -1 {
            assert(r == 0);
            assert(b == 0) by (nonlinear_arith)
                requires
                    r == 0,
                    b == r * ni,
            ;
        }
        lemma_div_trunc_bounds(b, di);
        // x * n == a * d + b with a * d and b of the same sign
        assert(xi * ni == a * di + b && ((a * di >= 0 && b >= 0) || (a * di <= 0 && b <= 0)))
            by (nonlinear_arith)
            requires
                xi == q * di + r,
                a == q * ni,
                b == r * ni,
                xi >= 0 ==> q * di >= 0 && r >= 0,
                xi <= 0 ==> q * di <= 0 && r <= 0,
        ;
        lemma_div_trunc_add_multiple(a, b, di);
    }
}

/// The divisor that a leftover divider stands for: the divider itself, or one
/// when it is zero.
pub open spec fn leftover_divisor(leftover: isize) -> int {
    if leftover == 0 {
        1
    } else {
        leftover as int
    }
}

/// The exact value of a term with divider one: `coef * data^deg` divided,
/// rounding towards zero, by its own leftover divider.
pub open spec fn plain_term(t: PolynomialTerm, data: isize) -> int {
    div_trunc(t.coef * pow(data as int, t.deg as nat), leftover_divisor(t.divider_leftover))
}

/// The exact sum of the first `i` terms, each `coef * data^deg` divided by its
/// own leftover divider.
pub open spec fn plain_sum(terms: Seq<PolynomialTerm>, data: isize, i: nat) -> int
    decreases i,
{
    if i == 0 || i > terms.len() {
        0
    } else {
        plain_sum(terms, data, (i - 1) as nat) + plain_term(terms[i - 1], data)
    }
}

/// The terms up to `last` are plain and in range: term `last` is the first of
/// degree zero, every divider up to it is one, and no power of `data` times a
/// coefficient, no quotient of a term by its leftover divider, nor any partial
/// sum, up to it leaves `isize`. Terms after `last` may be anything.
pub open spec fn plain_and_in_range(terms: Seq<PolynomialTerm>, data: isize, last: nat) -> bool {
    &&& last < terms.len()
    &&& terms[last as int].deg == 0
    &&& forall|j: int| 0 <= j < last ==> #[trigger] terms[j].deg != 0
    &&& forall|j: int| 0 <= j <= last ==> #[trigger] terms[j].divider == 1
    &&& forall|j: int, k: nat|
        0 <= j <= last && k <= terms[j].deg ==> isize::MIN <= #[trigger] (terms[j].coef
            * pow(data as int, k)) <= isize::MAX
    &&& forall|j: int|
        0 <= j <= last ==> isize::MIN <= #[trigger] plain_term(terms[j], data) <= isize::MAX
    &&& forall|i: nat| i <= last + 1 ==> isize::MIN <= #[trigger] plain_sum(terms, data, i) <= isize::MAX
}

/// With divider one, scaling `k` times is multiplying by `data^k`.
proof fn lemma_scaled_power_plain(coef: isize, data: isize, k: nat)
    requires
        forall|k2: nat| k2 <= k ==> isize::MIN <= #[trigger] (coef * pow(data as int, k2)) <= isize::MAX,
    ensures
        scaled_power(coef, data, 1, k) == coef * pow(data as int, k),
    decreases k,
{
    if k == 0 {
        lemma_pow0(data as int);
        assert(isize::MIN <= coef * pow(data as int, 0) <= isize::MAX);
    } else {
        let k1 = (k - 1) as nat;
        lemma_scaled_power_plain(coef, data, k1);
        let prev = scaled_power(coef, data, 1, k1);
        assert(isize::MIN <= coef * pow(data as int, k1) <= isize::MAX);
        assert(isize::MIN <= coef * pow(data as int, k) <= isize::MAX);
        lemma_pow_adds(data as int, k1, 1);
        lemma_pow1(data as int);
        assert(prev * data == coef * pow(data as int, k)) by {
            lemma_mul_is_associative(coef as int, pow(data as int, k1), data as int);
        }
        lemma_div_trunc_bounds(prev * data, 1);
        lemma_div_trunc_bounds(prev as int, 1);
        lemma_trunc_split(prev as int, 1);
        lemma_div_trunc_nonneg(0, 1);
        assert((prev * data) * 1 == prev * data);
        assert((prev as int) * 1 == prev);
        assert(0int * data == 0);
        lemma_mult_frac_exact(prev, data, 1);
    }
}

/// A wrapping quotient whose exact value is in range is the exact value.
proof fn lemma_wrapping_div_exact(x: isize, d: isize)
    requires
        d != 0,
        isize::MIN <= div_trunc(x as int, d as int) <= isize::MAX,
    ensures
        wrapping_div_spec(x, d) == div_trunc(x as int, d as int),
{
    if x == isize::MIN && d == -1 {
        lemma_div_trunc_bounds(x as int, d as int);
        assert(x as int * (d as int) == -(x as int));
    }
}

/// The value of a plain term is `coef * data^deg` divided by its leftover divider.
proof fn lemma_term_value_plain(t: PolynomialTerm, data: isize)
    requires
        t.divider == 1,
        forall|k: nat| k <= t.deg ==> isize::MIN <= #[trigger] (t.coef * pow(data as int, k)) <= isize::MAX,
        isize::MIN <= plain_term(t, data) <= isize::MAX,
    ensures
        term_value(t, data) == plain_term(t, data),
{
    lemma_scaled_power_plain(t.coef, data, t.deg as nat);
    let v = scaled_power(t.coef, data, 1, t.deg as nat);
    let lo: isize = if t.divider_leftover == 0 {
        1
    } else {
        t.divider_leftover
    };
    assert(lo as int == leftover_divisor(t.divider_leftover));
    lemma_wrapping_div_exact(v, lo);
}

/// The sum from term `i` on, started from the exact sum of the first `i` terms.
proof fn lemma_terms_sum_plain(terms: Seq<PolynomialTerm>, data: isize, last: nat, i: nat)
    requires
        plain_and_in_range(terms, data, last),
        i <= last,
    ensures
        terms_sum(terms, data, i, plain_sum(terms, data, i) as isize) == plain_sum(
            terms,
            data,
            last + 1,
        ),
    decreases last - i,
{
    let t = terms[i as int];
    assert(t.divider == 1);
    assert forall|k: nat| k <= t.deg implies isize::MIN <= #[trigger] (t.coef * pow(data as int, k))
        <= isize::MAX by {
        assert(isize::MIN <= terms[i as int].coef * pow(data as int, k) <= isize::MAX);
    }
    assert(isize::MIN <= plain_term(terms[i as int], data) <= isize::MAX);
    lemma_term_value_plain(t, data);
    let acc = plain_sum(terms, data, i);
    assert(isize::MIN <= plain_sum(terms, data, i) <= isize::MAX);
    assert(isize::MIN <= plain_sum(terms, data, i + 1) <= isize::MAX);
    assert(plain_sum(terms, data, i + 1) == acc + plain_term(t, data));
    if i < last {
        assert(t.deg != 0);
        lemma_terms_sum_plain(terms, data, last, i + 1);
    }
}

/// Law: a polynomial whose terms up to the first one of degree zero, at index
/// `last`, all have divider one evaluates to the sum over those terms of
/// `coef * data^deg`, each divided (rounding towards zero) by its own leftover
/// divider, then divided by the total divider (one in place of zero), when no
/// intermediate value overflows; the terms after `last` play no part.
pub proof fn lemma_polynomial_plain(p: Polynomial, data: isize, last: nat)
    requires
        plain_and_in_range(p.terms@, data, last),
        isize::MIN <= div_trunc(
            plain_sum(p.terms@, data, last + 1),
            leftover_divisor(p.total_divider),
        ) <= isize::MAX,
    ensures
        has_last_term(p.terms@),
        polynomial_value(p, data) == div_trunc(
            plain_sum(p.terms@, data, last + 1),
            leftover_divisor(p.total_divider),
        ),
{
    let terms = p.terms@;
    assert(terms[last as int].deg == 0);
    assert(plain_sum(terms, data, 0) == 0);
    lemma_terms_sum_plain(terms, data, last, 0);
    let v = terms_sum(terms, data, 0, 0);
    assert(isize::MIN <= plain_sum(terms, data, last + 1) <= isize::MAX);
    let total: isize = if p.total_divider == 0 {
        1
    } else {
        p.total_divider
    };
    assert(total as int == leftover_divisor(p.total_divider));
    lemma_wrapping_div_exact(v, total);
}


/// `x` multiplied `k` times by `data / divider`, each product divided by
/// `divider` exactly and rounded towards zero.
pub open spec fn exact_scaled(x: int, data: int, divider: int, k: nat) -> int
    decreases k,
{
    if k == 0 {
        x
    } else {
        div_trunc(exact_scaled(x, data, divider, (k - 1) as nat) * data, divider)
    }
}

/// `x` fits `isize`, and so do the partial products that `mult_frac(x, n, d)`
/// forms: `(x / d) * n`, `(x % d) * n` and their combination.
pub open spec fn mult_frac_fits(x: int, n: int, d: int) -> bool {
    &&& isize::MIN <= x <= isize::MAX
    &&& isize::MIN <= div_trunc(x, d) * n <= isize::MAX
    &&& isize::MIN <= rem_trunc(x, d) * n <= isize::MAX
    &&& isize::MIN <= div_trunc(x, d) * n + div_trunc(rem_trunc(x, d) * n, d) <= isize::MAX
}

/// Law: scaling `k` times by `data / divider` gives, at each step, the exact
/// product by `data` divided by `divider` and rounded towards zero, as long as
/// the partial products of every step fit `isize`.
pub proof fn lemma_scaled_power_exact(coef: isize, data: isize, divider: isize, k: nat)
    requires
        divider != 0,
        forall|j: nat|
            j < k ==> #[trigger] mult_frac_fits(
                exact_scaled(coef as int, data as int, divider as int, j),
                data as int,
                divider as int,
            ),
    ensures
        scaled_power(coef, data, divider, k) == exact_scaled(
            coef as int,
            data as int,
            divider as int,
            k,
        ),
    decreases k,
{
    if k > 0 {
        let k1 = (k - 1) as nat;
        lemma_scaled_power_exact(coef, data, divider, k1);
        assert(mult_frac_fits(exact_scaled(coef as int, data as int, divider as int, k1), data as int, divider as int));
        let prev = scaled_power(coef, data, divider, k1);
        lemma_mult_frac_exact(prev, data, divider);
    }
}

/// Law: the value of a term is its coefficient scaled `deg` times by
/// `data / divider` (each step exact and rounded towards zero), then divided,
/// rounding towards zero, by its own leftover divider (one in place of zero),
/// as long as every step and the quotient fit `isize`.
pub proof fn lemma_term_value_exact(t: PolynomialTerm, data: isize)
    requires
        t.divider != 0,
        forall|j: nat|
            j < t.deg ==> #[trigger] mult_frac_fits(
                exact_scaled(t.coef as int, data as int, t.divider as int, j),
                data as int,
                t.divider as int,
            ),
        isize::MIN <= div_trunc(
            exact_scaled(t.coef as int, data as int, t.divider as int, t.deg as nat),
            leftover_divisor(t.divider_leftover),
        ) <= isize::MAX,
    ensures
        term_value(t, data) == div_trunc(
            exact_scaled(t.coef as int, data as int, t.divider as int, t.deg as nat),
            leftover_divisor(t.divider_leftover),
        ),
{
    lemma_scaled_power_exact(t.coef, data, t.divider, t.deg as nat);
    let v = scaled_power(t.coef, data, t.divider, t.deg as nat);
    let lo: isize = if t.divider_leftover == 0 {
        1
    } else {
        t.divider_leftover
    };
    assert(lo as int == leftover_divisor(t.divider_leftover));
    lemma_wrapping_div_exact(v, lo);
}


/// The exact sum of the values of the first `i` terms.
pub open spec fn values_sum(terms: Seq<PolynomialTerm>, data: isize, i: nat) -> int
    decreases i,
{
    if i == 0 || i > terms.len() {
        0
    } else {
        values_sum(terms, data, (i - 1) as nat) + term_value(terms[i - 1], data)
    }
}

/// The sum from term `i` on, started from the exact sum of the values of the
/// first `i` terms.
proof fn lemma_terms_sum_additive(terms: Seq<PolynomialTerm>, data: isize, last: nat, i: nat)
    requires
        last < terms.len(),
        terms[last as int].deg == 0,
        forall|j: int| 0 <= j < last ==> #[trigger] terms[j].deg != 0,
        forall|m: nat| m <= last + 1 ==> isize::MIN <= #[trigger] values_sum(terms, data, m) <= isize::MAX,
        i <= last,
    ensures
        terms_sum(terms, data, i, values_sum(terms, data, i) as isize) == values_sum(
            terms,
            data,
            last + 1,
        ),
    decreases last - i,
{
    assert(isize::MIN <= values_sum(terms, data, i) <= isize::MAX);
    assert(isize::MIN <= values_sum(terms, data, i + 1) <= isize::MAX);
    if i < last {
        assert(terms[i as int].deg != 0);
        lemma_terms_sum_additive(terms, data, last, i + 1);
    }
}

/// Law: the value of a polynomial is the sum of the values of its terms up to
/// the first one of degree zero, at index `last`, each term divided only by
/// its own leftover divider, then divided by the total divider (one in place
/// of zero), when no partial sum leaves `isize`.
pub proof fn lemma_polynomial_additive(p: Polynomial, data: isize, last: nat)
    requires
        last < p.terms@.len(),
        p.terms@[last as int].deg == 0,
        forall|j: int| 0 <= j < last ==> #[trigger] p.terms@[j].deg != 0,
        forall|m: nat|
            m <= last + 1 ==> isize::MIN <= #[trigger] values_sum(p.terms@, data, m) <= isize::MAX,
        isize::MIN <= div_trunc(
            values_sum(p.terms@, data, last + 1),
            leftover_divisor(p.total_divider),
        ) <= isize::MAX,
    ensures
        polynomial_value(p, data) == div_trunc(
            values_sum(p.terms@, data, last + 1),
            leftover_divisor(p.total_divider),
        ),
{
    let terms = p.terms@;
    assert(values_sum(terms, data, 0) == 0);
    lemma_terms_sum_additive(terms, data, last, 0);
    let v = terms_sum(terms, data, 0, 0);
    let total: isize = if p.total_divider == 0 {
        1
    } else {
        p.total_divider
    };
    assert(total as int == leftover_divisor(p.total_divider));
    lemma_wrapping_div_exact(v, total);
}

} // verus!
